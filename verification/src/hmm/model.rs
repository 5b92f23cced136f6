//! The trained model and its decoder.

use vstd::prelude::*;
use crate::hmm::viterbi::{
    back, candidates, decoded, emission_score, emit_word, emit_words, first_max, initial_scores,
    is_first_max, is_hmm, lemma_back_is_state, lemma_first_max, lemma_path, lemma_scores_len,
    observed, path, scores, step_back, step_scores, Hmm,
};
use crate::nlp::hapax_patterns::get_matching_artificial_tag;
use crate::nlp::END_TAG;
use crate::text::{pairs, to_lowercase, views};
use crate::utils::assoc::{has_key, index_of_key};
use crate::utils::conditional_distribution::ConditionalStringFrequencyDistribution;
use crate::utils::distribution::{in_range, StringFrequencyDistribution};

verus! {

/// The most that one time step adds to the size of a score.
pub const STEP: i128 = 0x8000_0000_0000_0000;

/// Scores as integers.
pub open spec fn ints(v: Seq<i128>) -> Seq<int> {
    Seq::new(v.len(), |i: int| v[i] as int)
}

/// States as integers.
pub open spec fn states(v: Seq<usize>) -> Seq<int> {
    Seq::new(v.len(), |i: int| v[i] as int)
}

/// Every score is within `t` steps of zero.
pub open spec fn bounded(v: Seq<i128>, t: int) -> bool {
    forall|k: int| 0 <= k < v.len() ==> -t * STEP <= #[trigger] v[k] <= t * STEP
}

/// Two taggings of one sentence by one model are the same, pair by pair.
pub proof fn lemma_predict_is_deterministic(
    model: POSTaggingHMM,
    sentence: Seq<String>,
    first: Seq<(String, String)>,
    second: Seq<(String, String)>,
)
    requires
        pairs(first) == decoded(model@, views(sentence)),
        pairs(second) == decoded(model@, views(sentence)),
    ensures
        first.len() == second.len(),
        forall|i: int|
            0 <= i < first.len() ==> (#[trigger] first[i]).0@ == second[i].0@ && first[i].1@
                == second[i].1@,
{
    assert(pairs(first).len() == first.len());
    assert(pairs(second).len() == second.len());
    assert forall|i: int| 0 <= i < first.len() implies (#[trigger] first[i]).0@ == second[i].0@
        && first[i].1@ == second[i].1@ by {
        assert(pairs(first)[i] == pairs(second)[i]);
    }
}

/// The first place of `v` that holds its maximum.
pub fn argmax(v: &Vec<i128>) -> (r: usize)
    requires
        v.len() >= 1,
    ensures
        is_first_max(ints(v@), r as int),
        r == first_max(ints(v@)),
{
    let mut best: usize = 0;
    let mut i: usize = 1;
    while i < v.len()
        invariant
            1 <= i <= v.len(),
            best < i,
            forall|j: int| 0 <= j < i ==> v@[j] <= v@[best as int],
            forall|j: int| 0 <= j < best ==> v@[j] < v@[best as int],
        decreases v.len() - i,
    {
        if v[i] > v[best] {
            best = i;
        }
        i += 1;
    }
    proof {
        assert(is_first_max(ints(v@), best as int));
        lemma_first_max(ints(v@), best as int);
    }
    best
}

/// The words that are decoded for a sentence: its tokens in lower case and
/// the terminal word.
pub fn observe(sentence: &Vec<String>) -> (r: Vec<String>)
    requires
        sentence.len() < usize::MAX,
    ensures
        views(r@) == observed(views(sentence@)),
        r@.len() == sentence@.len() + 1,
{
    let mut out: Vec<String> = Vec::new();
    let mut i: usize = 0;
    while i < sentence.len()
        invariant
            i <= sentence.len(),
            out@.len() == i,
            forall|j: int| 0 <= j < i ==> (#[trigger] out@[j])@ == observed(views(sentence@))[j],
        decreases sentence.len() - i,
    {
        out.push(to_lowercase(sentence[i].as_str()));
        i += 1;
    }
    out.push(to_lowercase(END_TAG));
    assert(views(out@) =~= observed(views(sentence@)));
    out
}

/// A hidden Markov model for part-of-speech tagging.
///
/// Its states are the outer keys of the transition table, in the table's
/// order. Once made it never changes.
#[derive(Debug)]
pub struct POSTaggingHMM {
    initial_tag_distribution: StringFrequencyDistribution,
    emission_distribution: ConditionalStringFrequencyDistribution,
    transition_distribution: ConditionalStringFrequencyDistribution,
}

impl View for POSTaggingHMM {
    type V = Hmm;

    closed spec fn view(&self) -> Hmm {
        Hmm {
            initial: self.initial_tag_distribution@,
            emission: self.emission_distribution@,
            transition: self.transition_distribution@,
        }
    }
}

impl Clone for POSTaggingHMM {
    fn clone(&self) -> (r: Self)
        ensures
            self.wf() ==> r.wf() && r@ == self@,
    {
        POSTaggingHMM {
            initial_tag_distribution: self.initial_tag_distribution.clone(),
            emission_distribution: self.emission_distribution.clone(),
            transition_distribution: self.transition_distribution.clone(),
        }
    }
}

impl POSTaggingHMM {
    /// Each of the three tables is valid.
    pub closed spec fn tables_wf(&self) -> bool {
        &&& self.initial_tag_distribution.wf()
        &&& self.emission_distribution.wf()
        &&& self.transition_distribution.wf()
    }

    /// The model is valid.
    pub open spec fn wf(&self) -> bool {
        &&& self.tables_wf()
        &&& is_hmm(self@)
    }

    /// Makes a model of three tables.
    ///
    /// Returns `None` where the transition table has no row, or one of its
    /// outer keys has no row of emissions.
    pub fn new(
        initial_tag_distribution: StringFrequencyDistribution,
        emission_distribution: ConditionalStringFrequencyDistribution,
        transition_distribution: ConditionalStringFrequencyDistribution,
    ) -> (r: Option<Self>)
        requires
            initial_tag_distribution.wf(),
            emission_distribution.wf(),
            transition_distribution.wf(),
        ensures
            r is Some <==> is_hmm(
                (Hmm {
                    initial: initial_tag_distribution@,
                    emission: emission_distribution@,
                    transition: transition_distribution@,
                }),
            ),
            r is Some ==> r->0.wf() && r->0@ == (Hmm {
                initial: initial_tag_distribution@,
                emission: emission_distribution@,
                transition: transition_distribution@,
            }),
    {
        if transition_distribution.len() == 0 {
            return None;
        }
        let mut k: usize = 0;
        while k < transition_distribution.len()
            invariant
                k <= transition_distribution@.len(),
                emission_distribution.wf(),
                transition_distribution.wf(),
                forall|j: int|
                    0 <= j < k ==> has_key(
                        emission_distribution@,
                        (#[trigger] transition_distribution@[j]).0,
                    ),
            decreases transition_distribution@.len() - k,
        {
            if emission_distribution.find(transition_distribution.key_at(k).as_str()).is_none() {
                return None;
            }
            k += 1;
        }
        Some(
            POSTaggingHMM {
                initial_tag_distribution,
                emission_distribution,
                transition_distribution,
            },
        )
    }

    /// The table of initial tags.
    pub fn initial_tag_distribution(&self) -> (r: &StringFrequencyDistribution)
        requires
            self.wf(),
        ensures
            r.wf(),
            r@ == self@.initial,
    {
        &self.initial_tag_distribution
    }

    /// The table of emissions.
    pub fn emission_distribution(&self) -> (r: &ConditionalStringFrequencyDistribution)
        requires
            self.wf(),
        ensures
            r.wf(),
            r@ == self@.emission,
    {
        &self.emission_distribution
    }

    /// The table of transitions.
    pub fn transition_distribution(&self) -> (r: &ConditionalStringFrequencyDistribution)
        requires
            self.wf(),
        ensures
            r.wf(),
            r@ == self@.transition,
    {
        &self.transition_distribution
    }

    /// The tags of the model, in the order of its states.
    pub fn tag_set(&self) -> (r: Vec<String>)
        requires
            self.wf(),
        ensures
            r@.len() == self@.transition.len(),
            forall|k: int| 0 <= k < r@.len() ==> (#[trigger] r@[k])@ == self@.transition[k].0,
    {
        self.transition_distribution.keys()
    }

    /// The state of a tag, if it is a tag of the model.
    pub fn tag_index(&self, tag: &str) -> (r: Option<usize>)
        requires
            self.wf(),
        ensures
            r is Some == has_key(self@.transition, tag@),
            r is Some ==> r->0 < self@.transition.len() && r->0 == index_of_key(
                self@.transition,
                tag@,
            ),
    {
        self.transition_distribution.find(tag)
    }

    /// The word whose emission stands for `token`.
    pub fn emission_word(&self, token: &str) -> (r: String)
        requires
            self.wf(),
        ensures
            r@ == emit_word(self@, token@),
    {
        if self.emission_distribution.inner_key_exists(token) {
            token.to_owned()
        } else {
            match get_matching_artificial_tag(token) {
                Some(a) => a.to_owned(),
                None => token.to_owned(),
            }
        }
    }

    /// The log-likelihood of `word` under each state.
    fn emission_row(&self, word: &str) -> (r: Vec<i64>)
        requires
            self.wf(),
        ensures
            r@.len() == self@.transition.len(),
            forall|k: int|
                0 <= k < r@.len() ==> (#[trigger] r@[k]) as int == emission_score(
                    self@,
                    k,
                    word@,
                ) && in_range(r@[k]),
    {
        let mut out: Vec<i64> = Vec::new();
        let mut k: usize = 0;
        while k < self.transition_distribution.len()
            invariant
                k <= self@.transition.len(),
                self.wf(),
                out@.len() == k,
                forall|j: int|
                    0 <= j < k ==> (#[trigger] out@[j]) as int == emission_score(self@, j, word@)
                        && in_range(out@[j]),
            decreases self@.transition.len() - k,
        {
            let tag = self.transition_distribution.key_at(k);
            let e: i64 = match self.emission_distribution.get_likelihood(tag.as_str(), word) {
                Some(x) => x,
                None => 0,
            };
            out.push(e);
            k += 1;
        }
        out
    }

    /// The scores of the first word, from its emission row.
    fn first_scores(&self, emissions: &Vec<i64>, Ghost(word): Ghost<Seq<char>>) -> (r: Vec<i128>)
        requires
            self.wf(),
            emissions@.len() == self@.transition.len(),
            forall|k: int|
                0 <= k < emissions@.len() ==> (#[trigger] emissions@[k]) as int == emission_score(
                    self@,
                    k,
                    word,
                ) && in_range(emissions@[k]),
        ensures
            ints(r@) == initial_scores(self@, word),
            r@.len() == self@.transition.len(),
            bounded(r@, 1),
    {
        let mut out: Vec<i128> = Vec::new();
        let mut k: usize = 0;
        while k < self.transition_distribution.len()
            invariant
                k <= self@.transition.len(),
                self.wf(),
                emissions@.len() == self@.transition.len(),
                forall|j: int|
                    0 <= j < emissions@.len() ==> (#[trigger] emissions@[j]) as int
                        == emission_score(self@, j, word) && in_range(emissions@[j]),
                out@.len() == k,
                forall|j: int|
                    0 <= j < k ==> (#[trigger] out@[j]) as int == initial_scores(self@, word)[j],
                bounded(out@, 1),
            decreases self@.transition.len() - k,
        {
            let tag = self.transition_distribution.key_at(k);
            let start: i64 = self.initial_tag_distribution.get_likelihood(tag.as_str());
            assert(in_range(emissions@[k as int]));
            out.push(start as i128 + emissions[k] as i128);
            k += 1;
        }
        assert(ints(out@) =~= initial_scores(self@, word));
        out
    }

    /// The scores of reaching state `k` from each previous state.
    fn candidates_of(
        &self,
        previous: &Vec<i128>,
        k: usize,
        emission: i64,
        Ghost(word): Ghost<Seq<char>>,
        Ghost(t): Ghost<int>,
    ) -> (r: Vec<i128>)
        requires
            self.wf(),
            previous@.len() == self@.transition.len(),
            k < self@.transition.len(),
            emission as int == emission_score(self@, k as int, word),
            in_range(emission),
            1 <= t < usize::MAX,
            bounded(previous@, t),
        ensures
            ints(r@) == candidates(self@, ints(previous@), k as int, word),
            r@.len() == self@.transition.len(),
            bounded(r@, t + 1),
    {
        let tag = self.transition_distribution.key_at(k);
        let mut out: Vec<i128> = Vec::new();
        let mut p: usize = 0;
        while p < self.transition_distribution.len()
            invariant
                p <= self@.transition.len(),
                self.wf(),
                previous@.len() == self@.transition.len(),
                k < self@.transition.len(),
                tag@ == self@.transition[k as int].0,
                in_range(emission),
                1 <= t < usize::MAX,
                bounded(previous@, t),
                out@.len() == p,
                forall|j: int|
                    0 <= j < p ==> (#[trigger] out@[j]) as int == candidates(
                        self@,
                        ints(previous@),
                        k as int,
                        word,
                    )[j],
                bounded(out@, t + 1),
                emission as int == emission_score(self@, k as int, word),
            decreases self@.transition.len() - p,
        {
            let step: i64 = self.transition_distribution.row_at(p).get_likelihood(tag.as_str());
            let before: i128 = previous[p];
            assert(-t * STEP <= previous@[p as int] <= t * STEP);
            assert((t + 1) * STEP == t * STEP + STEP) by (nonlinear_arith);
            assert(t * STEP <= 0xffff_ffff_ffff_fffe * STEP) by (nonlinear_arith)
                requires
                    t <= 0xffff_ffff_ffff_fffe,
            ;
            out.push(before + step as i128 + emission as i128);
            p += 1;
        }
        assert(ints(out@) =~= candidates(self@, ints(previous@), k as int, word));
        out
    }

    /// One time step: the best score of each state on a word, and the
    /// previous state that gives it.
    fn step(
        &self,
        previous: &Vec<i128>,
        emissions: &Vec<i64>,
        Ghost(word): Ghost<Seq<char>>,
        Ghost(t): Ghost<int>,
    ) -> (r: (Vec<i128>, Vec<usize>))
        requires
            self.wf(),
            previous@.len() == self@.transition.len(),
            emissions@.len() == self@.transition.len(),
            forall|k: int|
                0 <= k < emissions@.len() ==> (#[trigger] emissions@[k]) as int == emission_score(
                    self@,
                    k,
                    word,
                ) && in_range(emissions@[k]),
            1 <= t < usize::MAX,
            bounded(previous@, t),
        ensures
            ints(r.0@) == step_scores(self@, ints(previous@), word),
            states(r.1@) == step_back(self@, ints(previous@), word),
            r.0@.len() == self@.transition.len(),
            r.1@.len() == self@.transition.len(),
            bounded(r.0@, t + 1),
    {
        let mut best_scores: Vec<i128> = Vec::new();
        let mut best_tags: Vec<usize> = Vec::new();
        let mut k: usize = 0;
        while k < self.transition_distribution.len()
            invariant
                k <= self@.transition.len(),
                self.wf(),
                previous@.len() == self@.transition.len(),
                emissions@.len() == self@.transition.len(),
                forall|j: int|
                    0 <= j < emissions@.len() ==> (#[trigger] emissions@[j]) as int
                        == emission_score(self@, j, word) && in_range(emissions@[j]),
                1 <= t < usize::MAX,
                bounded(previous@, t),
                best_scores@.len() == k,
                best_tags@.len() == k,
                forall|j: int|
                    0 <= j < k ==> (#[trigger] best_scores@[j]) as int == step_scores(
                        self@,
                        ints(previous@),
                        word,
                    )[j],
                forall|j: int|
                    0 <= j < k ==> (#[trigger] best_tags@[j]) as int == step_back(
                        self@,
                        ints(previous@),
                        word,
                    )[j],
                bounded(best_scores@, t + 1),
            decreases self@.transition.len() - k,
        {
            assert(in_range(emissions@[k as int]));
            let reached = self.candidates_of(previous, k, emissions[k], Ghost(word), Ghost(t));
            let best = argmax(&reached);
            assert(ints(reached@)[best as int] == reached@[best as int]);
            best_scores.push(reached[best]);
            best_tags.push(best);
            k += 1;
        }
        assert(ints(best_scores@) =~= step_scores(self@, ints(previous@), word));
        assert(states(best_tags@) =~= step_back(self@, ints(previous@), word));
        (best_scores, best_tags)
    }

    /// Follows the best previous states back from the state `last` of the
    /// last word, and gives the state of every word.
    fn backtrack_trellis(
        &self,
        potential_tags: &Vec<Vec<usize>>,
        last: usize,
        Ghost(ws): Ghost<Seq<Seq<char>>>,
    ) -> (r: Vec<usize>)
        requires
            self.wf(),
            potential_tags@.len() < usize::MAX,
            last < self@.transition.len(),
            forall|t: int|
                0 <= t < potential_tags@.len() ==> states((#[trigger] potential_tags@[t])@)
                    == back(self@, ws, (t + 1) as nat),
        ensures
            states(r@) == path(self@, ws, potential_tags@.len(), last as int),
    {
        let n: usize = potential_tags.len();
        let ghost full = path(self@, ws, n as nat, last as int);
        proof {
            lemma_path(self@, ws, n as nat, last as int);
        }
        let mut out: Vec<usize> = Vec::new();
        let mut i: usize = 0;
        while i <= n
            invariant
                i <= n + 1,
                n < usize::MAX,
                out@.len() == i,
            decreases n + 1 - i,
        {
            out.push(last);
            i += 1;
        }
        let mut t: usize = n;
        let mut current: usize = last;
        out.set(n, current);
        assert(full.take(n + 1) == full);
        while t > 0
            invariant
                t <= n,
                n == potential_tags@.len(),
                self.wf(),
                current < self@.transition.len(),
                out@.len() == n + 1,
                full.len() == n + 1,
                full.take(t + 1) == path(self@, ws, t as nat, current as int),
                forall|j: int| t <= j <= n ==> (#[trigger] out@[j]) as int == full[j],
                forall|j: int|
                    0 <= j < potential_tags@.len() ==> states((#[trigger] potential_tags@[j])@)
                        == back(self@, ws, (j + 1) as nat),
            decreases t,
        {
            proof {
                lemma_back_is_state(self@, ws, t as nat, current as int);
                lemma_scores_len(self@, ws, (t - 1) as nat);
                assert(states(potential_tags@[t - 1]@) == back(self@, ws, t as nat));
                assert(states(potential_tags@[t - 1]@)[current as int]
                    == potential_tags@[t - 1]@[current as int]);
            }
            let before: usize = potential_tags[t - 1][current];
            proof {
                lemma_path(self@, ws, (t - 1) as nat, before as int);
                assert(full.take(t as int) == full.take(t + 1).drop_last());
                assert(path(self@, ws, t as nat, current as int).drop_last() == path(
                    self@,
                    ws,
                    (t - 1) as nat,
                    before as int,
                ));
                assert(full[t - 1] == full.take(t as int)[t - 1]);
            }
            t -= 1;
            current = before;
            out.set(t, current);
        }
        assert(states(out@) =~= full);
        out
    }

    /// Tags a sentence: decodes the most likely sequence of tags for its
    /// tokens and the terminal word.
    ///
    /// The result pairs every token, in lower case, with its tag, and ends
    /// with the pair of the terminal word. The tags are those of the states
    /// that the Viterbi recurrence decodes: a sequence of states that no
    /// other sequence outscores, with every tie going to the state that
    /// comes first.
    pub fn predict(&self, sentence: Vec<String>) -> (r: Vec<(String, String)>)
        requires
            self.wf(),
            sentence.len() < usize::MAX,
        ensures
            pairs(r@) == decoded(self@, views(sentence@)),
            r@.len() == sentence@.len() + 1,
    {
        let words = observe(&sentence);
        let n: usize = sentence.len();
        let ghost ws = emit_words(self@, views(words@));
        let first = self.emission_word(words[0].as_str());
        let row = self.emission_row(first.as_str());
        let mut scores_now = self.first_scores(&row, Ghost(first@));
        let mut potential_tags: Vec<Vec<usize>> = Vec::new();
        let mut t: usize = 1;
        assert(ws[0] == first@);
        while t <= n
            invariant
                1 <= t <= n + 1,
                n < usize::MAX,
                self.wf(),
                words@.len() == n + 1,
                ws == emit_words(self@, views(words@)),
                scores_now@.len() == self@.transition.len(),
                ints(scores_now@) == scores(self@, ws, (t - 1) as nat),
                bounded(scores_now@, t as int),
                potential_tags@.len() == t - 1,
                forall|j: int|
                    0 <= j < t - 1 ==> states((#[trigger] potential_tags@[j])@) == back(
                        self@,
                        ws,
                        (j + 1) as nat,
                    ),
            decreases n + 1 - t,
        {
            let word = self.emission_word(words[t].as_str());
            assert(ws[t as int] == word@);
            let row = self.emission_row(word.as_str());
            let (next, best_tags) = self.step(&scores_now, &row, Ghost(word@), Ghost(t as int));
            potential_tags.push(best_tags);
            scores_now = next;
            t += 1;
        }
        let last = argmax(&scores_now);
        let path_states = self.backtrack_trellis(&potential_tags, last, Ghost(ws));
        proof {
            lemma_path(self@, ws, n as nat, last as int);
            assert(views(words@) == observed(views(sentence@)));
        }
        let mut out: Vec<(String, String)> = Vec::new();
        let mut i: usize = 0;
        while i <= n
            invariant
                i <= n + 1,
                n < usize::MAX,
                n == sentence@.len(),
                self.wf(),
                words@.len() == n + 1,
                path_states@.len() == n + 1,
                views(words@) == observed(views(sentence@)),
                states(path_states@) == path(self@, ws, n as nat, last as int),
                forall|j: int|
                    0 <= j <= n ==> 0 <= #[trigger] path(self@, ws, n as nat, last as int)[j]
                        < self@.transition.len(),
                out@.len() == i,
                forall|j: int|
                    0 <= j < i ==> (#[trigger] out@[j]).0@ == views(words@)[j] && out@[j].1@
                        == self@.transition[path_states@[j] as int].0,
            decreases n + 1 - i,
        {
            assert(states(path_states@)[i as int] == path_states@[i as int]);
            let tag = self.transition_distribution.key_at(path_states[i]).clone();
            out.push((words[i].clone(), tag));
            i += 1;
        }
        assert(pairs(out@) =~= decoded(self@, views(sentence@))) by {
            assert forall|j: int| 0 <= j <= n implies pairs(out@)[j] == decoded(
                self@,
                views(sentence@),
            )[j] by {
                assert(states(path_states@)[j] == path_states@[j]);
            }
        }
        out
    }
}

} // verus!
