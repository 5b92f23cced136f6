//! The Viterbi recurrence over a model's tables, as mathematics.
//!
//! The states are the outer keys of the transition table, in its order. A
//! score is a sum of log-likelihoods. Among equal candidates the one that
//! comes first in the order of the states wins.

use vstd::prelude::*;
use crate::nlp::hapax_patterns::artificial_tag;
use crate::nlp::END_TAG;
use crate::text::lower;
use crate::utils::assoc::has_key;
use crate::utils::conditional_distribution::{inner_key_in, is_tables, pair_likelihood_of, Tables};
use crate::utils::distribution::{is_table, likelihood_of, Table};

verus! {

/// The tables of a model.
pub struct Hmm {
    /// The log-likelihood of each tag at the start of a sentence.
    pub initial: Table,
    /// For each tag, the log-likelihood of each word under it.
    pub emission: Tables,
    /// For each tag, the log-likelihood of each tag that follows it.
    pub transition: Tables,
}

/// The tables make a model: there is a state, and every state has a row of emissions.
pub open spec fn is_hmm(m: Hmm) -> bool {
    &&& is_table(m.initial)
    &&& is_tables(m.emission)
    &&& is_tables(m.transition)
    &&& m.transition.len() >= 1
    &&& forall|k: int| 0 <= k < m.transition.len() ==> has_key(m.emission, (#[trigger] m.transition[k]).0)
}

/// The tag of state `k`.
pub open spec fn tag(m: Hmm, k: int) -> Seq<char> {
    m.transition[k].0
}

/// The word whose emission stands for `token`: the token itself where it
/// was seen under any tag, else its artificial tag where it has one, else
/// the token itself.
pub open spec fn emit_word(m: Hmm, token: Seq<char>) -> Seq<char> {
    if inner_key_in(m.emission, token) {
        token
    } else {
        match artificial_tag(token) {
            Some(a) => a,
            None => token,
        }
    }
}

/// The log-likelihood that state `k` emits `w`.
pub open spec fn emission_score(m: Hmm, k: int, w: Seq<char>) -> int {
    match pair_likelihood_of(m.emission, tag(m, k), w) {
        Some(x) => x as int,
        None => 0,
    }
}

/// The log-likelihood that state `k` follows state `p`.
pub open spec fn transition_score(m: Hmm, p: int, k: int) -> int {
    likelihood_of(m.transition[p].1, tag(m, k)) as int
}

/// The log-likelihood that a sentence starts in state `k`.
pub open spec fn initial_score(m: Hmm, k: int) -> int {
    likelihood_of(m.initial, tag(m, k)) as int
}

/// `i` is the first place of `s` that holds its maximum.
pub open spec fn is_first_max(s: Seq<int>, i: int) -> bool {
    &&& 0 <= i < s.len()
    &&& forall|j: int| 0 <= j < s.len() ==> s[j] <= s[i]
    &&& forall|j: int| 0 <= j < i ==> s[j] < s[i]
}

/// The first place of `s` that holds its maximum.
pub open spec fn first_max(s: Seq<int>) -> int {
    choose|i: int| is_first_max(s, i)
}

/// The scores of the first word, by state.
pub open spec fn initial_scores(m: Hmm, w: Seq<char>) -> Seq<int> {
    Seq::new(m.transition.len(), |k: int| initial_score(m, k) + emission_score(m, k, w))
}

/// The score of reaching state `k` on word `w` from each previous state.
pub open spec fn candidates(m: Hmm, prev: Seq<int>, k: int, w: Seq<char>) -> Seq<int> {
    Seq::new(
        m.transition.len(),
        |p: int| prev[p] + transition_score(m, p, k) + emission_score(m, k, w),
    )
}

/// The best previous state of each state on word `w`.
pub open spec fn step_back(m: Hmm, prev: Seq<int>, w: Seq<char>) -> Seq<int> {
    Seq::new(m.transition.len(), |k: int| first_max(candidates(m, prev, k, w)))
}

/// The best score of each state on word `w`.
pub open spec fn step_scores(m: Hmm, prev: Seq<int>, w: Seq<char>) -> Seq<int> {
    Seq::new(
        m.transition.len(),
        |k: int| candidates(m, prev, k, w)[first_max(candidates(m, prev, k, w))],
    )
}

/// The best score of each state at time `t` of the words `ws`.
pub open spec fn scores(m: Hmm, ws: Seq<Seq<char>>, t: nat) -> Seq<int>
    decreases t,
{
    if t == 0 {
        initial_scores(m, ws[0])
    } else {
        step_scores(m, scores(m, ws, (t - 1) as nat), ws[t as int])
    }
}

/// The best previous state of each state at time `t >= 1`.
pub open spec fn back(m: Hmm, ws: Seq<Seq<char>>, t: nat) -> Seq<int> {
    step_back(m, scores(m, ws, (t - 1) as nat), ws[t as int])
}

/// The best sequence of states for times `0..=t` that ends in state `k`.
pub open spec fn path(m: Hmm, ws: Seq<Seq<char>>, t: nat, k: int) -> Seq<int>
    decreases t,
{
    if t == 0 {
        seq![k]
    } else {
        path(m, ws, (t - 1) as nat, back(m, ws, t)[k]).push(k)
    }
}

/// The words that are decoded for a sentence: each token in lower case,
/// and the terminal word behind them.
pub open spec fn observed(sentence: Seq<Seq<char>>) -> Seq<Seq<char>> {
    Seq::new(
        sentence.len() + 1,
        |i: int|
            if i < sentence.len() {
                lower(sentence[i])
            } else {
                lower(END_TAG@)
            },
    )
}

/// The emission words of a sequence of tokens.
pub open spec fn emit_words(m: Hmm, words: Seq<Seq<char>>) -> Seq<Seq<char>> {
    Seq::new(words.len(), |i: int| emit_word(m, words[i]))
}

/// The states that are decoded for a sentence, one for each observed word.
pub open spec fn decoded_states(m: Hmm, sentence: Seq<Seq<char>>) -> Seq<int> {
    let ws = emit_words(m, observed(sentence));
    let last = sentence.len();
    path(m, ws, last, first_max(scores(m, ws, last)))
}

/// The tagging of a sentence: each observed word with the tag of its state.
pub open spec fn decoded(m: Hmm, sentence: Seq<Seq<char>>) -> Seq<(Seq<char>, Seq<char>)> {
    Seq::new(
        sentence.len() + 1,
        |t: int| (observed(sentence)[t], tag(m, decoded_states(m, sentence)[t])),
    )
}

/// Only one place is the first that holds the maximum.
pub proof fn lemma_first_max(s: Seq<int>, i: int)
    requires
        is_first_max(s, i),
    ensures
        first_max(s) == i,
{
    let j = first_max(s);
    assert(is_first_max(s, j));
    if j < i {
        assert(s[j] < s[i]);
        assert(s[i] <= s[j]);
    } else if i < j {
        assert(s[i] < s[j]);
        assert(s[j] <= s[i]);
    }
}

/// Every sequence with an element has a first maximum.
pub proof fn lemma_first_max_exists(s: Seq<int>)
    requires
        s.len() >= 1,
    ensures
        is_first_max(s, first_max(s)),
    decreases s.len(),
{
    if s.len() == 1 {
        assert(is_first_max(s, 0));
    } else {
        let r = s.drop_last();
        lemma_first_max_exists(r);
        let i = first_max(r);
        assert(forall|j: int| 0 <= j < r.len() ==> r[j] == s[j]);
        if s.last() > s[i] {
            let top = s.last();
            assert(is_first_max(s, s.len() - 1)) by {
                assert forall|j: int| 0 <= j < s.len() - 1 implies #[trigger] s[j] < top by {
                    assert(r[j] <= r[i]);
                }
            }
        } else {
            assert(is_first_max(s, i)) by {
                assert forall|j: int| 0 <= j < s.len() implies s[j] <= s[i] by {
                    if j < r.len() {
                        assert(r[j] <= r[i]);
                    }
                }
                assert forall|j: int| 0 <= j < i implies s[j] < s[i] by {
                    assert(r[j] < r[i]);
                }
            }
        }
    }
}

/// The scores at any time are one per state.
pub proof fn lemma_scores_len(m: Hmm, ws: Seq<Seq<char>>, t: nat)
    ensures
        scores(m, ws, t).len() == m.transition.len(),
    decreases t,
{
    if t > 0 {
        lemma_scores_len(m, ws, (t - 1) as nat);
    }
}

/// The best previous state of a state is a state.
pub proof fn lemma_back_is_state(m: Hmm, ws: Seq<Seq<char>>, t: nat, k: int)
    requires
        m.transition.len() >= 1,
        0 <= k < m.transition.len(),
    ensures
        0 <= back(m, ws, t)[k] < m.transition.len(),
{
    let c = candidates(m, scores(m, ws, (t - 1) as nat), k, ws[t as int]);
    lemma_first_max_exists(c);
}

/// A best path for times `0..=t` has `t + 1` states, all of them states of
/// the model, and ends where it was asked to end.
pub proof fn lemma_path(m: Hmm, ws: Seq<Seq<char>>, t: nat, k: int)
    requires
        m.transition.len() >= 1,
        0 <= k < m.transition.len(),
    ensures
        path(m, ws, t, k).len() == t + 1,
        path(m, ws, t, k)[t as int] == k,
        forall|j: int| 0 <= j <= t ==> 0 <= #[trigger] path(m, ws, t, k)[j] < m.transition.len(),
    decreases t,
{
    if t > 0 {
        lemma_back_is_state(m, ws, t, k);
        lemma_path(m, ws, (t - 1) as nat, back(m, ws, t)[k]);
    }
}

/// A tagging of a sentence has one pair for each token and one for the
/// terminal word, and every tag in it is a tag of the model.
pub proof fn lemma_decoded(m: Hmm, sentence: Seq<Seq<char>>)
    requires
        is_hmm(m),
    ensures
        decoded(m, sentence).len() == sentence.len() + 1,
        decoded_states(m, sentence).len() == sentence.len() + 1,
        forall|t: int|
            0 <= t <= sentence.len() ==> 0 <= #[trigger] decoded_states(m, sentence)[t]
                < m.transition.len(),
{
    let ws = emit_words(m, observed(sentence));
    let last = sentence.len();
    lemma_scores_len(m, ws, last);
    lemma_first_max_exists(scores(m, ws, last));
    lemma_path(m, ws, last, first_max(scores(m, ws, last)));
}

/// Every element of `q` is a state of the model.
pub open spec fn is_states(m: Hmm, q: Seq<int>) -> bool {
    forall|i: int| 0 <= i < q.len() ==> 0 <= #[trigger] q[i] < m.transition.len()
}

/// The log-likelihood of the words `ws[0..q.len()]` along the states `q`:
/// that of the first state and of its word, and for each further state
/// that of the step to it and of its word.
pub open spec fn path_score(m: Hmm, ws: Seq<Seq<char>>, q: Seq<int>) -> int
    decreases q.len(),
{
    if q.len() == 0 {
        0
    } else if q.len() == 1 {
        initial_score(m, q[0]) + emission_score(m, q[0], ws[0])
    } else {
        path_score(m, ws, q.drop_last()) + transition_score(m, q[q.len() - 2], q.last())
            + emission_score(m, q.last(), ws[q.len() - 1])
    }
}

/// No sequence of states that ends in state `k` at time `t` scores more
/// than the best score of `k` at `t`.
pub proof fn lemma_scores_bound(m: Hmm, ws: Seq<Seq<char>>, q: Seq<int>)
    requires
        m.transition.len() >= 1,
        q.len() >= 1,
        is_states(m, q),
    ensures
        path_score(m, ws, q) <= scores(m, ws, (q.len() - 1) as nat)[q.last()],
    decreases q.len(),
{
    if q.len() > 1 {
        let t = (q.len() - 1) as nat;
        let before = q.drop_last();
        assert(is_states(m, before)) by {
            assert forall|i: int| 0 <= i < before.len() implies 0 <= #[trigger] before[i]
                < m.transition.len() by {
                assert(before[i] == q[i]);
            }
        }
        lemma_scores_bound(m, ws, before);
        let prev = scores(m, ws, (t - 1) as nat);
        lemma_scores_len(m, ws, (t - 1) as nat);
        let k = q.last();
        let p = before.last();
        assert(p == q[q.len() - 2]);
        assert(0 <= k < m.transition.len());
        assert(0 <= p < m.transition.len());
        let c = candidates(m, prev, k, ws[t as int]);
        lemma_first_max_exists(c);
        assert(c[p] <= c[first_max(c)]);
    }
}

/// The best path to state `k` at time `t` scores the best score of `k` at `t`.
pub proof fn lemma_path_score(m: Hmm, ws: Seq<Seq<char>>, t: nat, k: int)
    requires
        m.transition.len() >= 1,
        0 <= k < m.transition.len(),
    ensures
        path_score(m, ws, path(m, ws, t, k)) == scores(m, ws, t)[k],
    decreases t,
{
    if t > 0 {
        let b = back(m, ws, t)[k];
        lemma_back_is_state(m, ws, t, k);
        lemma_path(m, ws, (t - 1) as nat, b);
        lemma_path_score(m, ws, (t - 1) as nat, b);
        let q = path(m, ws, t, k);
        let before = path(m, ws, (t - 1) as nat, b);
        assert(q.drop_last() == before);
        assert(q[q.len() - 2] == before[t - 1]);
    }
}

/// The decoded states are a most likely sequence of states: no sequence
/// of states of the same length scores more.
pub proof fn lemma_decoded_is_most_likely(m: Hmm, sentence: Seq<Seq<char>>, q: Seq<int>)
    requires
        is_hmm(m),
        q.len() == sentence.len() + 1,
        is_states(m, q),
    ensures
        path_score(m, emit_words(m, observed(sentence)), q) <= path_score(
            m,
            emit_words(m, observed(sentence)),
            decoded_states(m, sentence),
        ),
{
    let ws = emit_words(m, observed(sentence));
    let last = sentence.len();
    lemma_scores_bound(m, ws, q);
    lemma_scores_len(m, ws, last);
    lemma_first_max_exists(scores(m, ws, last));
    lemma_path_score(m, ws, last, first_max(scores(m, ws, last)));
}

} // verus!
