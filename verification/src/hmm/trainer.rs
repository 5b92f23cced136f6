//! The trainer: counts over a tagged corpus, and what a model is made of.

use vstd::prelude::*;
use crate::hmm::model::POSTaggingHMM;
use crate::hmm::viterbi::{is_hmm, Hmm};
use crate::nlp::hapax_patterns::{artificial_tag, get_matching_artificial_tag};
use crate::nlp::parsing::{parse_line, parsed, piece_count, well_formed};
use crate::nlp::END_TAG;
use crate::text::{lower, pairs, to_lowercase, views};
use crate::utils::assoc::{has_key, index_of_key, upsert};
use crate::utils::conditional_counter::{
    is_rows, lemma_pair_incremented, lemma_rows_upsert, pair_count_of, pair_incremented, row_of,
    with_key, ConditionalStringCounter, Rows,
};
use crate::utils::conditional_distribution::{
    fits, tables_of, ConditionalStringFrequencyDistribution,
};
use crate::utils::counter::{
    count_of, incremented, is_counter, lemma_incremented, merged, StringCounter,
};
use crate::utils::distribution::{
    all_in_range, in_range, is_table, table_of, StringFrequencyDistribution,
};
use crate::utils::smoothing::{
    default_scale, masses_of, numbers, smoothing_masses, tag_scale, tag_scale_of, whole_of,
    Masses, Scale, ALPHA_DENOMINATOR, ALPHA_NUMERATOR,
};

verus! {

/// Why training or finalizing failed.
#[derive(Debug, Clone, Copy, PartialEq, Eq, Structural)]
pub enum TrainerError {
    /// The line of the corpus at this index holds a piece without `=`.
    MalformedLine(usize),
    /// No corpus was ever given to the trainer.
    NotTrained,
}

/// The three tables that a trainer fills.
pub struct Counts {
    /// How often each tag opened a sentence.
    pub initial: Seq<(Seq<char>, nat)>,
    /// How often each word stood under each tag.
    pub emission: Rows,
    /// How often each tag followed each tag.
    pub transition: Rows,
}

/// The tables after one more pair of a sentence: `previous` is the tag of
/// the pair before it, or none for the first pair.
pub open spec fn count_pair(
    c: Counts,
    previous: Option<Seq<char>>,
    word: Seq<char>,
    tag: Seq<char>,
) -> Counts {
    Counts {
        initial: if previous is None {
            incremented(c.initial, tag)
        } else {
            c.initial
        },
        emission: pair_incremented(c.emission, tag, lower(word)),
        transition: match previous {
            Some(p) => pair_incremented(c.transition, p, tag),
            None => c.transition,
        },
    }
}

/// The tag of the pair before the last of `sentence`, if there is one.
pub open spec fn tag_before_last(sentence: Seq<(Seq<char>, Seq<char>)>) -> Option<Seq<char>> {
    if sentence.len() >= 2 {
        Some(sentence[sentence.len() - 2].1)
    } else {
        None
    }
}

/// The tables after the pairs of one sentence.
pub open spec fn count_sentence(c: Counts, sentence: Seq<(Seq<char>, Seq<char>)>) -> Counts
    decreases sentence.len(),
{
    if sentence.len() == 0 {
        c
    } else {
        count_pair(
            count_sentence(c, sentence.drop_last()),
            tag_before_last(sentence),
            sentence.last().0,
            sentence.last().1,
        )
    }
}

/// The tables after the lines of a corpus.
pub open spec fn count_corpus(c: Counts, lines: Seq<Seq<char>>) -> Counts
    decreases lines.len(),
{
    if lines.len() == 0 {
        c
    } else {
        count_sentence(count_corpus(c, lines.drop_last()), parsed(lines.last()))
    }
}

/// The number of pairs in the lines of a corpus, terminal pairs included.
pub open spec fn corpus_pairs(lines: Seq<Seq<char>>) -> nat
    decreases lines.len(),
{
    if lines.len() == 0 {
        0
    } else {
        corpus_pairs(lines.drop_last()) + parsed(lines.last()).len()
    }
}

/// What holds of the tables of every trainer: they are counters, and
/// every tag that was followed by a tag has emitted a word.
pub open spec fn is_counts(c: Counts) -> bool {
    &&& is_counter(c.initial)
    &&& is_rows(c.emission)
    &&& is_rows(c.transition)
    &&& forall|k: Seq<char>| #[trigger] has_key(c.transition, k) ==> has_key(c.emission, k)
}

/// No count of the tables is above `n`.
pub open spec fn within(c: Counts, n: nat) -> bool {
    &&& forall|k: Seq<char>| #[trigger] count_of(c.initial, k) <= n
    &&& forall|o: Seq<char>, i: Seq<char>| #[trigger] pair_count_of(c.emission, o, i) <= n
    &&& forall|o: Seq<char>, i: Seq<char>| #[trigger] pair_count_of(c.transition, o, i) <= n
}

/// The first lines of a corpus hold no more pairs than all of it.
pub proof fn lemma_corpus_pairs_take(lines: Seq<Seq<char>>, i: int)
    requires
        0 <= i <= lines.len(),
    ensures
        corpus_pairs(lines.take(i)) <= corpus_pairs(lines),
    decreases lines.len(),
{
    if i == lines.len() {
        assert(lines.take(i) == lines);
    } else {
        assert(lines.drop_last().take(i) == lines.take(i));
        lemma_corpus_pairs_take(lines.drop_last(), i);
    }
}

/// The number of hapax words of a row: those counted exactly once.
pub open spec fn hapax_number(row: Seq<(Seq<char>, nat)>) -> nat
    decreases row.len(),
{
    if row.len() == 0 {
        0
    } else {
        hapax_number(row.drop_last()) + if row.last().1 == 1 {
            1nat
        } else {
            0nat
        }
    }
}

/// How often each artificial tag stands for a hapax word of a row.
pub open spec fn artificial_row(row: Seq<(Seq<char>, nat)>) -> Seq<(Seq<char>, nat)>
    decreases row.len(),
{
    if row.len() == 0 {
        Seq::empty()
    } else {
        let before = artificial_row(row.drop_last());
        if row.last().1 == 1 {
            match artificial_tag(row.last().0) {
                Some(a) => incremented(before, a),
                None => before,
            }
        } else {
            before
        }
    }
}

/// The number of hapax words of each tag that has any, in the order of the tags.
pub open spec fn hapax_counts(emission: Rows) -> Seq<(Seq<char>, nat)>
    decreases emission.len(),
{
    if emission.len() == 0 {
        Seq::empty()
    } else {
        let before = hapax_counts(emission.drop_last());
        let n = hapax_number(emission.last().1);
        if n > 0 {
            upsert(before, emission.last().0, n)
        } else {
            before
        }
    }
}

/// The emission counts with the artificial tags of each row's hapax words
/// counted into the row as words.
pub open spec fn augmented(emission: Rows) -> Rows {
    Seq::new(
        emission.len(),
        |i: int| (emission[i].0, merged(emission[i].1, artificial_row(emission[i].1))),
    )
}

/// The artificial tags of a row make a counter, and none of its counts is
/// above the length of the row.
pub proof fn lemma_artificial_row(row: Seq<(Seq<char>, nat)>)
    ensures
        is_counter(artificial_row(row)),
        forall|k: Seq<char>| #[trigger] count_of(artificial_row(row), k) <= row.len(),
        hapax_number(row) <= row.len(),
    decreases row.len(),
{
    if row.len() > 0 {
        lemma_artificial_row(row.drop_last());
        let before = artificial_row(row.drop_last());
        if row.last().1 == 1 {
            match artificial_tag(row.last().0) {
                Some(a) => {
                    lemma_incremented(before, a);
                    assert forall|k: Seq<char>| #[trigger]
                        count_of(artificial_row(row), k) <= row.len() by {
                        assert(count_of(before, k) <= row.len() - 1);
                    }
                },
                None => {
                    assert forall|k: Seq<char>| #[trigger]
                        count_of(artificial_row(row), k) <= row.len() by {
                        assert(count_of(before, k) <= row.len() - 1);
                    }
                },
            }
        } else {
            assert forall|k: Seq<char>| #[trigger]
                count_of(artificial_row(row), k) <= row.len() by {
                assert(count_of(before, k) <= row.len() - 1);
            }
        }
    } else {
        assert(forall|k: Seq<char>| !has_key(Seq::<(Seq<char>, nat)>::empty(), k));
    }
}

/// The hapax count of a tag is the number of words that were counted
/// exactly once under it.
pub proof fn lemma_hapax_counts(emission: Rows, tag: Seq<char>)
    requires
        is_rows(emission),
    ensures
        is_counter(hapax_counts(emission)),
        count_of(hapax_counts(emission), tag) == hapax_number(row_of(emission, tag)),
        has_key(hapax_counts(emission), tag) ==> has_key(emission, tag),
    decreases emission.len(),
{
    if emission.len() == 0 {
        assert(!has_key(hapax_counts(emission), tag));
    } else {
        let rest = emission.drop_last();
        let last = emission.last();
        let before = hapax_counts(rest);
        let n = hapax_number(last.1);
        assert(is_rows(rest)) by {
            assert forall|i: int, j: int| 0 <= i < j < rest.len() implies (#[trigger] rest[i]).0 != (
            #[trigger] rest[j]).0 by {
                assert(emission[i].0 != emission[j].0);
            }
            assert forall|i: int| 0 <= i < rest.len() implies is_counter((#[trigger] rest[i]).1) by {
                assert(rest[i] == emission[i]);
            }
        }
        lemma_hapax_counts(rest, tag);
        lemma_hapax_counts(rest, last.0);
        assert(!has_key(rest, last.0)) by {
            if has_key(rest, last.0) {
                let i = index_of_key(rest, last.0);
                assert(emission[i].0 == emission[emission.len() - 1].0);
            }
        }
        crate::utils::assoc::lemma_index_of_key(emission, last.0, emission.len() - 1);
        if tag != last.0 {
            if has_key(emission, tag) {
                let i = index_of_key(emission, tag);
                assert(rest[i] == emission[i]);
                crate::utils::assoc::lemma_index_of_key(rest, tag, i);
            } else {
                if has_key(rest, tag) {
                    let i = index_of_key(rest, tag);
                    assert(emission[i].0 == tag);
                }
            }
            assert(row_of(emission, tag) == row_of(rest, tag));
        }
        if n > 0 {
            crate::utils::assoc::lemma_upsert(before, last.0, n);
            let after = upsert(before, last.0, n);
            assert forall|i: int| 0 <= i < after.len() implies (#[trigger] after[i]).1 >= 1 by {
                if i < before.len() && !(has_key(before, last.0) && i == index_of_key(
                    before,
                    last.0,
                )) {
                    assert(after[i] == before[i]);
                }
            }
        }
    }
}

/// Whatever log-likelihoods are given to counts in which the terminal tag
/// has a row of transitions and every tag with such a row has a row of
/// emissions, the tables that come of them make a model.
pub proof fn lemma_smoothed_counts_make_model(
    c: Counts,
    initial: (Seq<i64>, i64),
    emission: (Seq<Vec<i64>>, Seq<i64>),
    transition: (Seq<Vec<i64>>, Seq<i64>),
)
    requires
        is_counts(c),
        c.transition.len() >= 1,
        initial.0.len() == c.initial.len(),
        all_in_range(initial.0),
        in_range(initial.1),
        fits(c.emission, emission.0, emission.1),
        fits(c.transition, transition.0, transition.1),
    ensures
        is_hmm(
            (Hmm {
                initial: table_of(c.initial, initial.0, initial.1),
                emission: tables_of(c.emission, emission.0, emission.1),
                transition: tables_of(c.transition, transition.0, transition.1),
            }),
        ),
{
    let m = Hmm {
        initial: table_of(c.initial, initial.0, initial.1),
        emission: tables_of(c.emission, emission.0, emission.1),
        transition: tables_of(c.transition, transition.0, transition.1),
    };
    assert forall|i: int, j: int| 0 <= i < j < m.initial.0.len() implies (
    #[trigger] m.initial.0[i]).0 != (#[trigger] m.initial.0[j]).0 by {
        assert(c.initial[i].0 != c.initial[j].0);
    }
    assert forall|i: int, j: int| 0 <= i < j < m.emission.len() implies (#[trigger] m.emission[i]).0
        != (#[trigger] m.emission[j]).0 by {
        assert(c.emission[i].0 != c.emission[j].0);
    }
    assert forall|i: int, j: int| 0 <= i < j < m.transition.len() implies (
    #[trigger] m.transition[i]).0 != (#[trigger] m.transition[j]).0 by {
        assert(c.transition[i].0 != c.transition[j].0);
    }
    assert forall|i: int| 0 <= i < m.emission.len() implies is_table(
        (#[trigger] m.emission[i]).1,
    ) by {
        let row = c.emission[i].1;
        let t = m.emission[i].1;
        assert(is_counter(row));
        assert(emission.0[i]@.len() == row.len());
        assert forall|a: int, b: int| 0 <= a < b < t.0.len() implies (#[trigger] t.0[a]).0 != (
        #[trigger] t.0[b]).0 by {
            assert(row[a].0 != row[b].0);
        }
    }
    assert forall|i: int| 0 <= i < m.transition.len() implies is_table(
        (#[trigger] m.transition[i]).1,
    ) by {
        let row = c.transition[i].1;
        let t = m.transition[i].1;
        assert(is_counter(row));
        assert(transition.0[i]@.len() == row.len());
        assert forall|a: int, b: int| 0 <= a < b < t.0.len() implies (#[trigger] t.0[a]).0 != (
        #[trigger] t.0[b]).0 by {
            assert(row[a].0 != row[b].0);
        }
    }
    assert forall|k: int| 0 <= k < m.transition.len() implies has_key(
        m.emission,
        (#[trigger] m.transition[k]).0,
    ) by {
        let key = c.transition[k].0;
        assert(has_key(c.transition, key));
        assert(has_key(c.emission, key));
        let j = index_of_key(c.emission, key);
        assert(m.emission[j].0 == key);
    }
}

/// The counts that a model is made of.
#[derive(Debug)]
pub struct TrainedCounts {
    /// How often each tag opened a sentence.
    pub initial: StringCounter,
    /// The number of hapax words of each tag.
    pub hapax: StringCounter,
    /// How often each word, and each artificial tag, stood under each tag.
    pub emission: ConditionalStringCounter,
    /// How often each tag followed each tag.
    pub transition: ConditionalStringCounter,
}

impl TrainedCounts {
    /// The masses of every table fit the machine.
    pub open spec fn masses_fit(&self) -> bool {
        &&& whole_of(self.initial@, base_scale()) <= u128::MAX
        &&& forall|i: int|
            0 <= i < self.transition@.len() ==> whole_of(
                (#[trigger] self.transition@[i]).1,
                base_scale(),
            ) <= u128::MAX
        &&& forall|i: int|
            0 <= i < self.emission@.len() ==> emission_scale_fits(
                self.hapax@,
                (#[trigger] self.emission@[i]).0,
            ) && whole_of(self.emission@[i].1, emission_scale(self.hapax@, self.emission@[i].0))
                <= u128::MAX
    }

    /// The masses of the three tables: initial tags and transitions under
    /// the default scale, the emissions of each tag under the scale that
    /// the hapax counts give the tag.
    ///
    /// Returns `None` where a mass does not fit the machine.
    pub fn masses(&self) -> (r: Option<ModelMasses>)
        requires
            self.wf(),
        ensures
            r is Some <==> self.masses_fit(),
            match r {
                Some(m) => {
                    &&& masses_are(m.initial, self.initial@, base_scale())
                    &&& m.transition@.len() == self.transition@.len()
                    &&& forall|i: int|
                        0 <= i < m.transition@.len() ==> masses_are(
                            #[trigger] m.transition@[i],
                            self.transition@[i].1,
                            base_scale(),
                        )
                    &&& m.emission@.len() == self.emission@.len()
                    &&& forall|i: int|
                        0 <= i < m.emission@.len() ==> masses_are(
                            #[trigger] m.emission@[i],
                            self.emission@[i].1,
                            emission_scale(self.hapax@, self.emission@[i].0),
                        )
                },
                None => true,
            },
    {
        let base = default_scale();
        assert(base == base_scale());
        let initial = match smoothing_masses(&self.initial, base) {
            Some(m) => m,
            None => {
                return None;
            },
        };
        let mut transition: Vec<Masses> = Vec::new();
        let mut i: usize = 0;
        while i < self.transition.len()
            invariant
                i <= self.transition@.len(),
                self.wf(),
                base == base_scale(),
                transition@.len() == i,
                forall|j: int|
                    0 <= j < i ==> masses_are(
                        #[trigger] transition@[j],
                        self.transition@[j].1,
                        base_scale(),
                    ),
                forall|j: int|
                    0 <= j < i ==> whole_of((#[trigger] self.transition@[j]).1, base_scale())
                        <= u128::MAX,
            decreases self.transition@.len() - i,
        {
            match smoothing_masses(self.transition.row_at(i), base) {
                Some(m) => {
                    transition.push(m);
                },
                None => {
                    assert(whole_of(self.transition@[i as int].1, base_scale()) > u128::MAX);
                    return None;
                },
            }
            i += 1;
        }
        let mut emission: Vec<Masses> = Vec::new();
        let mut k: usize = 0;
        while k < self.emission.len()
            invariant
                k <= self.emission@.len(),
                self.wf(),
                base == base_scale(),
                emission@.len() == k,
                forall|j: int|
                    0 <= j < k ==> masses_are(
                        #[trigger] emission@[j],
                        self.emission@[j].1,
                        emission_scale(self.hapax@, self.emission@[j].0),
                    ),
                forall|j: int|
                    0 <= j < k ==> emission_scale_fits(
                        self.hapax@,
                        (#[trigger] self.emission@[j]).0,
                    ) && whole_of(
                        self.emission@[j].1,
                        emission_scale(self.hapax@, self.emission@[j].0),
                    ) <= u128::MAX,
            decreases self.emission@.len() - k,
        {
            let scale = match tag_scale(&self.hapax, self.emission.key_at(k).as_str(), base) {
                Some(s) => s,
                None => {
                    assert(!emission_scale_fits(self.hapax@, self.emission@[k as int].0));
                    return None;
                },
            };
            assert(scale == emission_scale(self.hapax@, self.emission@[k as int].0));
            match smoothing_masses(self.emission.row_at(k), scale) {
                Some(m) => {
                    emission.push(m);
                },
                None => {
                    assert(whole_of(
                        self.emission@[k as int].1,
                        emission_scale(self.hapax@, self.emission@[k as int].0),
                    ) > u128::MAX);
                    return None;
                },
            }
            k += 1;
        }
        Some(ModelMasses { initial, emission, transition })
    }

    /// Makes the model of the counts and of the log-likelihood of every
    /// mass.
    ///
    /// Returns `None` where the log-likelihoods are not one for each mass
    /// or one of them is out of range, or where the counts have no tag or
    /// a tag without emissions.
    pub fn into_model(self, likelihoods: ModelLikelihoods) -> (r: Option<POSTaggingHMM>)
        requires
            self.wf(),
        ensures
            r is Some <==> likelihoods.initial.0@.len() == self.initial@.len() && all_in_range(
                likelihoods.initial.0@,
            ) && in_range(likelihoods.initial.1) && fits(
                self.emission@,
                likelihoods.emission.0@,
                likelihoods.emission.1@,
            ) && fits(self.transition@, likelihoods.transition.0@, likelihoods.transition.1@)
                && is_hmm(
                (Hmm {
                    initial: table_of(self.initial@, likelihoods.initial.0@, likelihoods.initial.1),
                    emission: tables_of(
                        self.emission@,
                        likelihoods.emission.0@,
                        likelihoods.emission.1@,
                    ),
                    transition: tables_of(
                        self.transition@,
                        likelihoods.transition.0@,
                        likelihoods.transition.1@,
                    ),
                }),
            ),
            r is Some ==> r->0.wf() && r->0@ == (Hmm {
                initial: table_of(self.initial@, likelihoods.initial.0@, likelihoods.initial.1),
                emission: tables_of(
                    self.emission@,
                    likelihoods.emission.0@,
                    likelihoods.emission.1@,
                ),
                transition: tables_of(
                    self.transition@,
                    likelihoods.transition.0@,
                    likelihoods.transition.1@,
                ),
            }),
            is_counts(self.counts()) && self.transition@.len() >= 1 ==> (r is Some
                <==> likelihoods.initial.0@.len() == self.initial@.len() && all_in_range(
                likelihoods.initial.0@,
            ) && in_range(likelihoods.initial.1) && fits(
                self.emission@,
                likelihoods.emission.0@,
                likelihoods.emission.1@,
            ) && fits(self.transition@, likelihoods.transition.0@, likelihoods.transition.1@)),
    {
        proof {
            if is_counts(self.counts()) && self.transition@.len() >= 1
                && likelihoods.initial.0@.len() == self.initial@.len() && all_in_range(
                likelihoods.initial.0@,
            ) && in_range(likelihoods.initial.1) && fits(
                self.emission@,
                likelihoods.emission.0@,
                likelihoods.emission.1@,
            ) && fits(self.transition@, likelihoods.transition.0@, likelihoods.transition.1@) {
                lemma_smoothed_counts_make_model(
                    self.counts(),
                    (likelihoods.initial.0@, likelihoods.initial.1),
                    (likelihoods.emission.0@, likelihoods.emission.1@),
                    (likelihoods.transition.0@, likelihoods.transition.1@),
                );
            }
        }
        let initial = match StringFrequencyDistribution::with_smoothing(
            self.initial,
            likelihoods.initial.0,
            likelihoods.initial.1,
        ) {
            Some(d) => d,
            None => {
                return None;
            },
        };
        let emission = match ConditionalStringFrequencyDistribution::with_smoothing(
            self.emission,
            likelihoods.emission.0,
            likelihoods.emission.1,
        ) {
            Some(d) => d,
            None => {
                return None;
            },
        };
        let transition = match ConditionalStringFrequencyDistribution::with_smoothing(
            self.transition,
            likelihoods.transition.0,
            likelihoods.transition.1,
        ) {
            Some(d) => d,
            None => {
                return None;
            },
        };
        POSTaggingHMM::new(initial, emission, transition)
    }

    /// The four counters are valid.
    pub open spec fn wf(&self) -> bool {
        &&& self.initial.wf()
        &&& self.hapax.wf()
        &&& self.emission.wf()
        &&& self.transition.wf()
    }

    /// The three tables that are smoothed into a model.
    pub open spec fn counts(&self) -> Counts {
        Counts { initial: self.initial@, emission: self.emission@, transition: self.transition@ }
    }
}

/// The default smoothing scale.
pub open spec fn base_scale() -> Scale {
    Scale { numerator: ALPHA_NUMERATOR, denominator: ALPHA_DENOMINATOR }
}

/// The smoothing scale of the emissions of a tag: the default scale times
/// the probability of the tag among the hapax counts.
pub open spec fn emission_scale(hapax: Seq<(Seq<char>, nat)>, tag: Seq<char>) -> Scale {
    Scale {
        numerator: tag_scale_of(hapax, tag, base_scale()).0 as u128,
        denominator: tag_scale_of(hapax, tag, base_scale()).1 as u128,
    }
}

/// The scale of the emissions of a tag fits the machine.
pub open spec fn emission_scale_fits(hapax: Seq<(Seq<char>, nat)>, tag: Seq<char>) -> bool {
    &&& tag_scale_of(hapax, tag, base_scale()).0 <= u128::MAX
    &&& tag_scale_of(hapax, tag, base_scale()).1 <= u128::MAX
}

/// `masses` are the masses of `row` under `scale`.
pub open spec fn masses_are(masses: Masses, row: Seq<(Seq<char>, nat)>, scale: Scale) -> bool {
    &&& numbers(masses.keys@) == masses_of(row, scale)
    &&& masses.unseen == scale.numerator
    &&& masses.whole == whole_of(row, scale)
}

/// The masses of the three tables of a model.
#[derive(Debug)]
pub struct ModelMasses {
    /// The masses of the initial tags, under the default scale.
    pub initial: Masses,
    /// The masses of the emissions of each tag, under the scale of the tag.
    pub emission: Vec<Masses>,
    /// The masses of the transitions from each tag, under the default scale.
    pub transition: Vec<Masses>,
}

/// The log-likelihoods of the three tables of a model: for each table
/// those of its keys and that of an unseen key.
#[derive(Debug)]
pub struct ModelLikelihoods {
    /// The log-likelihoods of the initial tags, and of an unseen one.
    pub initial: (Vec<i64>, i64),
    /// For each tag the log-likelihoods of its emissions, and of unseen ones.
    pub emission: (Vec<Vec<i64>>, Vec<i64>),
    /// For each tag the log-likelihoods of its transitions, and of unseen ones.
    pub transition: (Vec<Vec<i64>>, Vec<i64>),
}

/// The number of hapax words of a row, and how often each artificial tag
/// stands for one of them.
pub fn hapax_of_row(row: &StringCounter) -> (r: (usize, StringCounter))
    requires
        row.wf(),
    ensures
        r.0 == hapax_number(row@),
        r.1.wf(),
        r.1@ == artificial_row(row@),
{
    let mut hapax: usize = 0;
    let mut artificial = StringCounter::new();
    let mut j: usize = 0;
    assert(row@.take(0) == Seq::<(Seq<char>, nat)>::empty());
    while j < row.len()
        invariant
            j <= row@.len(),
            row.wf(),
            artificial.wf(),
            hapax == hapax_number(row@.take(j as int)),
            artificial@ == artificial_row(row@.take(j as int)),
        decreases row@.len() - j,
    {
        proof {
            assert(row@.take(j + 1).drop_last() == row@.take(j as int));
            assert(row@.take(j + 1).last() == row@[j as int]);
            lemma_artificial_row(row@.take(j as int));
        }
        if row.count_at(j) == 1 {
            hapax += 1;
            match get_matching_artificial_tag(row.key_at(j).as_str()) {
                Some(a) => {
                    assert(count_of(artificial@, a@) <= j);
                    artificial.increment(a);
                },
                None => {},
            }
        }
        j += 1;
    }
    assert(row@.take(row@.len() as int) == row@);
    (hapax, artificial)
}

/// Counts what a tagged corpus holds, and hands the counts over once.
#[derive(Debug)]
pub struct POSTaggingHMMTrainer {
    was_trained: bool,
    observed: usize,
    initial_tag_counts: StringCounter,
    tag_emission_counts: ConditionalStringCounter,
    tag_transition_counts: ConditionalStringCounter,
}

impl Default for POSTaggingHMMTrainer {
    fn default() -> (r: Self)
        ensures
            r.wf(),
            !r.trained(),
            r.observations() == 0,
    {
        POSTaggingHMMTrainer::new()
    }
}

impl POSTaggingHMMTrainer {
    /// The three tables.
    pub closed spec fn counts(&self) -> Counts {
        Counts {
            initial: self.initial_tag_counts@,
            emission: self.tag_emission_counts@,
            transition: self.tag_transition_counts@,
        }
    }

    /// A corpus was given to the trainer.
    pub closed spec fn trained(&self) -> bool {
        self.was_trained
    }

    /// The number of pairs counted so far.
    pub closed spec fn observations(&self) -> nat {
        self.observed as nat
    }

    /// Each of the three counters is valid.
    pub closed spec fn counters_wf(&self) -> bool {
        &&& self.initial_tag_counts.wf()
        &&& self.tag_emission_counts.wf()
        &&& self.tag_transition_counts.wf()
    }

    /// The trainer is valid.
    pub open spec fn wf(&self) -> bool {
        &&& self.counters_wf()
        &&& is_counts(self.counts())
        &&& within(self.counts(), self.observations())
        &&& self.observations() <= usize::MAX
    }

    /// A trainer that has counted nothing.
    pub fn new() -> (r: Self)
        ensures
            r.wf(),
            !r.trained(),
            r.observations() == 0,
            r.counts() == (Counts {
                initial: Seq::empty(),
                emission: Seq::empty(),
                transition: Seq::empty(),
            }),
    {
        let r = POSTaggingHMMTrainer {
            was_trained: false,
            observed: 0,
            initial_tag_counts: StringCounter::new(),
            tag_emission_counts: ConditionalStringCounter::new(),
            tag_transition_counts: ConditionalStringCounter::new(),
        };
        assert(forall|k: Seq<char>| !has_key(r.counts().transition, k));
        assert(forall|i: Seq<char>| !has_key(Seq::<(Seq<char>, nat)>::empty(), i));
        r
    }

    /// Tells whether a corpus was given to the trainer.
    pub fn was_trained(&self) -> (r: bool)
        ensures
            r == self.trained(),
    {
        self.was_trained
    }

    /// The number of pairs counted so far.
    pub fn observed(&self) -> (r: usize)
        ensures
            r == self.observations(),
    {
        self.observed
    }

    /// Counts the pairs of one sentence. Words are counted in lower case.
    pub fn count_pairs(&mut self, sentence: &Vec<(String, String)>)
        requires
            old(self).wf(),
            old(self).observations() + sentence@.len() <= usize::MAX,
        ensures
            final(self).wf(),
            final(self).trained() == old(self).trained(),
            final(self).observations() == old(self).observations() + sentence@.len(),
            final(self).counts() == count_sentence(old(self).counts(), pairs(sentence@)),
    {
        let ghost all = pairs(sentence@);
        let mut j: usize = 0;
        assert(all.take(0) == Seq::<(Seq<char>, Seq<char>)>::empty());
        while j < sentence.len()
            invariant
                j <= sentence@.len(),
                all == pairs(sentence@),
                self.wf(),
                self.trained() == old(self).trained(),
                self.observations() == old(self).observations() + j,
                old(self).observations() + sentence@.len() <= usize::MAX,
                self.counts() == count_sentence(old(self).counts(), all.take(j as int)),
                j >= 1 ==> has_key(self.counts().emission, all[j - 1].1),
            decreases sentence@.len() - j,
        {
            let ghost before = self.counts();
            let word = to_lowercase(sentence[j].0.as_str());
            let tag = sentence[j].1.as_str();
            proof {
                assert(all.take(j + 1).drop_last() == all.take(j as int));
                assert(all.take(j + 1).last() == all[j as int]);
                assert(all[j as int] == (sentence@[j as int].0@, sentence@[j as int].1@));
                lemma_pair_incremented(before.emission, tag@, word@);
                assert(pair_count_of(before.emission, tag@, word@) <= self.observations());
            }
            self.tag_emission_counts.increment(tag, word.as_str());
            if j == 0 {
                proof {
                    lemma_incremented(before.initial, tag@);
                    assert(count_of(before.initial, tag@) <= self.observations());
                    assert(tag_before_last(all.take(j + 1)) is None);
                }
                self.initial_tag_counts.increment(tag);
            } else {
                let previous = sentence[j - 1].1.as_str();
                proof {
                    assert(all[j - 1] == (sentence@[j - 1].0@, sentence@[j - 1].1@));
                    assert(all.take(j + 1)[j - 1] == all[j - 1]);
                    assert(tag_before_last(all.take(j + 1)) == Some(previous@));
                    lemma_pair_incremented(before.transition, previous@, tag@);
                    assert(pair_count_of(before.transition, previous@, tag@)
                        <= self.observations());
                }
                self.tag_transition_counts.increment(previous, tag);
            }
            self.observed = self.observed + 1;
            j += 1;
            proof {
                let after = self.counts();
                assert(after == count_pair(
                    before,
                    tag_before_last(all.take(j as int)),
                    all[j - 1].0,
                    all[j - 1].1,
                ));
                assert forall|k: Seq<char>| #[trigger]
                    has_key(after.transition, k) implies has_key(after.emission, k) by {
                    if has_key(before.transition, k) {
                        assert(has_key(before.emission, k));
                    }
                }
                assert forall|k: Seq<char>| #[trigger]
                    count_of(after.initial, k) <= self.observations() by {
                    assert(count_of(before.initial, k) <= self.observations() - 1);
                }
                assert forall|o: Seq<char>, i: Seq<char>| #[trigger]
                    pair_count_of(after.emission, o, i) <= self.observations() by {
                    assert(pair_count_of(before.emission, o, i) <= self.observations() - 1);
                }
                assert forall|o: Seq<char>, i: Seq<char>| #[trigger]
                    pair_count_of(after.transition, o, i) <= self.observations() by {
                    assert(pair_count_of(before.transition, o, i) <= self.observations() - 1);
                }
            }
        }
        assert(all.take(sentence@.len() as int) == all);
    }

    /// Tells whether the trainer can count the lines of a corpus: whether
    /// the pairs counted so far and those of the corpus are together no
    /// more than a counter can count.
    pub fn can_train(&self, corpus: &Vec<String>) -> (r: bool)
        ensures
            r == (self.observations() + corpus_pairs(views(corpus@)) <= usize::MAX),
    {
        let ghost lines = views(corpus@);
        let mut pairs: usize = self.observed;
        let mut i: usize = 0;
        assert(lines.take(0) == Seq::<Seq<char>>::empty());
        while i < corpus.len()
            invariant
                i <= corpus@.len(),
                lines == views(corpus@),
                pairs == self.observations() + corpus_pairs(lines.take(i as int)),
            decreases corpus@.len() - i,
        {
            proof {
                assert(lines.take(i + 1).drop_last() == lines.take(i as int));
                assert(lines.take(i + 1).last() == corpus@[i as int]@);
                lemma_corpus_pairs_take(lines, i + 1);
            }
            let more: u128 = pairs as u128 + piece_count(corpus[i].as_str()) + 1;
            if more > usize::MAX as u128 {
                return false;
            }
            pairs = more as usize;
            i += 1;
        }
        assert(lines.take(corpus@.len() as int) == lines);
        true
    }

    /// Counts the lines of a corpus and marks the trainer as trained.
    ///
    /// In each line the first tag is counted as an initial tag, every pair
    /// as an emission of its word under its tag, and every pair but the
    /// first as a transition from the tag before it; the terminal pair is
    /// a pair like any other. Fails at the first line that is malformed.
    pub fn train(self, corpus: Vec<String>) -> (r: Result<Self, TrainerError>)
        requires
            self.wf(),
            self.observations() + corpus_pairs(views(corpus@)) <= usize::MAX,
        ensures
            r is Ok <==> forall|i: int| 0 <= i < corpus@.len() ==> well_formed(#[trigger] corpus@[i]@),
            r is Ok ==> r->Ok_0.wf() && r->Ok_0.trained() && r->Ok_0.counts() == count_corpus(
                self.counts(),
                views(corpus@),
            ) && r->Ok_0.observations() == self.observations() + corpus_pairs(views(corpus@)),
            r is Err ==> exists|i: int|
                0 <= i < corpus@.len() && r->Err_0 == TrainerError::MalformedLine(i as usize)
                    && !well_formed(#[trigger] corpus@[i]@) && forall|j: int|
                    0 <= j < i ==> well_formed(#[trigger] corpus@[j]@),
    {
        let ghost lines = views(corpus@);
        let mut trainer = self;
        trainer.was_trained = true;
        let mut i: usize = 0;
        assert(lines.take(0) == Seq::<Seq<char>>::empty());
        while i < corpus.len()
            invariant
                i <= corpus@.len(),
                lines == views(corpus@),
                self.wf(),
                trainer.wf(),
                trainer.trained(),
                self.observations() + corpus_pairs(lines) <= usize::MAX,
                trainer.observations() == self.observations() + corpus_pairs(
                    lines.take(i as int),
                ),
                trainer.counts() == count_corpus(self.counts(), lines.take(i as int)),
                forall|j: int| 0 <= j < i ==> well_formed(#[trigger] corpus@[j]@),
            decreases corpus@.len() - i,
        {
            proof {
                assert(lines.take(i + 1).drop_last() == lines.take(i as int));
                assert(lines.take(i + 1).last() == corpus@[i as int]@);
                lemma_corpus_pairs_take(lines, i + 1);
            }
            match parse_line(corpus[i].as_str()) {
                Some(sentence) => {
                    assert(pairs(sentence@).len() == sentence@.len());
                    trainer.count_pairs(&sentence);
                },
                None => {
                    return Err(TrainerError::MalformedLine(i));
                },
            }
            i += 1;
        }
        assert(lines.take(corpus@.len() as int) == lines);
        Ok(trainer)
    }

    /// Hands over the counts that a model is made of.
    ///
    /// Fails where no corpus was given. Otherwise the hapax words of each
    /// tag are counted, the artificial tags of those words are counted into
    /// the emissions of the tag as words, and the terminal tag is given a
    /// row of emissions and a row of transitions where it had none.
    pub fn finalize(self) -> (r: Result<TrainedCounts, TrainerError>)
        requires
            self.wf(),
        ensures
            r is Ok <==> self.trained(),
            r is Err ==> r->Err_0 == TrainerError::NotTrained,
            r is Ok ==> r->Ok_0.wf() && r->Ok_0.initial@ == self.counts().initial
                && r->Ok_0.hapax@ == hapax_counts(self.counts().emission) && r->Ok_0.emission@
                == with_key(augmented(self.counts().emission), END_TAG@)
                && r->Ok_0.transition@ == with_key(self.counts().transition, END_TAG@)
                && is_counts(r->Ok_0.counts()) && r->Ok_0.transition@.len() >= 1,
    {
        if !self.was_trained {
            return Err(TrainerError::NotTrained);
        }
        let ghost e0 = self.counts().emission;
        let ghost t0 = self.counts().transition;
        let mut hapax = StringCounter::new();
        let mut emission = self.tag_emission_counts;
        let mut transition = self.tag_transition_counts;
        let mut i: usize = 0;
        assert(e0.take(0) == Seq::<(Seq<char>, Seq<(Seq<char>, nat)>)>::empty());
        while i < emission.len()
            invariant
                i <= e0.len(),
                is_rows(e0),
                emission.wf(),
                hapax.wf(),
                emission@.len() == e0.len(),
                forall|j: int| 0 <= j < i ==> #[trigger] emission@[j] == augmented(e0)[j],
                forall|j: int| i <= j < e0.len() ==> #[trigger] emission@[j] == e0[j],
                hapax@ == hapax_counts(e0.take(i as int)),
            decreases e0.len() - i,
        {
            proof {
                assert(e0.take(i + 1).drop_last() == e0.take(i as int));
                assert(e0.take(i + 1).last() == e0[i as int]);
                lemma_artificial_row(e0[i as int].1);
            }
            let (n, artificial) = hapax_of_row(emission.row_at(i));
            if n > 0 {
                hapax.insert(emission.key_at(i).clone(), n);
            }
            let mut row = emission.row_at(i).clone();
            row.extend(artificial);
            emission.replace_row(i, row);
            i += 1;
        }
        assert(e0.take(e0.len() as int) == e0);
        assert(emission@ =~= augmented(e0));
        proof {
            lemma_rows_upsert(emission@, END_TAG@, row_of(emission@, END_TAG@));
            lemma_rows_upsert(transition@, END_TAG@, row_of(transition@, END_TAG@));
            assert forall|k: Seq<char>| has_key(e0, k) implies has_key(augmented(e0), k) by {
                let j = index_of_key(e0, k);
                assert(augmented(e0)[j].0 == k);
            }
        }
        let at_emission = emission.ensure_key(END_TAG);
        let at_transition = transition.ensure_key(END_TAG);
        let counts = TrainedCounts {
            initial: self.initial_tag_counts,
            hapax,
            emission,
            transition,
        };
        proof {
            assert forall|k: Seq<char>| #[trigger]
                has_key(counts.transition@, k) implies has_key(counts.emission@, k) by {
                if k != END_TAG@ {
                    assert(has_key(t0, k));
                    assert(has_key(e0, k));
                }
            }
        }
        Ok(counts)
    }
}

} // verus!
