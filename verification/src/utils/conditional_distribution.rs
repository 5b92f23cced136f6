//! Log-likelihood tables keyed by an outer key: one smoothed distribution
//! under each.

use vstd::prelude::*;
use crate::text::position;
use crate::utils::assoc::{distinct_keys, has_key, index_of_key, lemma_index_of_key};
use crate::utils::conditional_counter::{ConditionalStringCounter, Rows};
use crate::utils::distribution::{all_in_range, in_range, is_table, likelihood_of, table_of, StringFrequencyDistribution, Table};

verus! {

/// The model of a conditional distribution: outer keys in order, each with
/// the table that stands under it.
pub type Tables = Seq<(Seq<char>, Table)>;

/// The log-likelihood of `inner` under `outer`: none where `outer` has no table.
pub open spec fn pair_likelihood_of(m: Tables, outer: Seq<char>, inner: Seq<char>) -> Option<i64> {
    if has_key(m, outer) {
        Some(likelihood_of(m[index_of_key(m, outer)].1, inner))
    } else {
        None
    }
}

/// `inner` has an entry in the table of some outer key.
pub open spec fn inner_key_in(m: Tables, inner: Seq<char>) -> bool {
    exists|i: int| 0 <= i < m.len() && has_key((#[trigger] m[i]).1.0, inner)
}

/// What holds of every conditional distribution: no outer key twice, and a
/// table under each.
pub open spec fn is_tables(m: Tables) -> bool {
    &&& distinct_keys(m)
    &&& forall|i: int| 0 <= i < m.len() ==> is_table((#[trigger] m[i]).1)
}

/// The values fit the counter: one list and one default for each row, one
/// value for each entry of a row, and all of them in range.
pub open spec fn fits(counter: Rows, likelihoods: Seq<Vec<i64>>, defaults: Seq<i64>) -> bool {
    &&& likelihoods.len() == counter.len()
    &&& defaults.len() == counter.len()
    &&& forall|i: int|
        0 <= i < counter.len() ==> (#[trigger] likelihoods[i])@.len() == counter[i].1.len()
            && all_in_range(likelihoods[i]@) && in_range(defaults[i])
}

/// The conditional distribution that gives each row of `counter` the table
/// made of the values that stand at the same place.
pub open spec fn tables_of(counter: Rows, likelihoods: Seq<Vec<i64>>, defaults: Seq<i64>) -> Tables {
    Seq::new(
        counter.len(),
        |i: int| (counter[i].0, table_of(counter[i].1, likelihoods[i]@, defaults[i])),
    )
}

/// The rows that pairs of a string and a distribution stand for.
pub open spec fn rows_of(rows: Seq<(String, StringFrequencyDistribution)>) -> Tables {
    Seq::new(rows.len(), |i: int| (rows[i].0@, rows[i].1@))
}

/// A conditional distribution: for each outer key the smoothed distribution
/// of the inner keys counted under it.
#[derive(Debug)]
pub struct ConditionalStringFrequencyDistribution {
    keys: Vec<String>,
    rows: Vec<StringFrequencyDistribution>,
}

impl View for ConditionalStringFrequencyDistribution {
    type V = Tables;

    closed spec fn view(&self) -> Tables {
        Seq::new(self.keys@.len(), |i: int| (self.keys@[i]@, self.rows@[i]@))
    }
}

impl Clone for ConditionalStringFrequencyDistribution {
    fn clone(&self) -> (r: Self)
        ensures
            self.aligned() ==> r.aligned() && r@ == self@,
    {
        let mut keys: Vec<String> = Vec::new();
        let mut rows: Vec<StringFrequencyDistribution> = Vec::new();
        let n: usize = if self.keys.len() < self.rows.len() {
            self.keys.len()
        } else {
            self.rows.len()
        };
        let mut i: usize = 0;
        while i < n
            invariant
                i <= n <= self.keys.len(),
                n <= self.rows.len(),
                keys@.len() == i,
                rows@.len() == i,
                forall|j: int| 0 <= j < i ==> (#[trigger] keys@[j])@ == self.keys@[j]@,
                forall|j: int|
                    0 <= j < i && self.rows@[j].wf() ==> (#[trigger] rows@[j]).wf() && rows@[j]@
                        == self.rows@[j]@,
            decreases n - i,
        {
            keys.push(self.keys[i].clone());
            rows.push(self.rows[i].clone());
            i += 1;
        }
        let r = ConditionalStringFrequencyDistribution { keys, rows };
        assert(self.aligned() ==> r@ =~= self@);
        r
    }
}

impl ConditionalStringFrequencyDistribution {
    /// The two columns have one length, and every row is valid.
    pub closed spec fn aligned(&self) -> bool {
        &&& self.keys@.len() == self.rows@.len()
        &&& forall|i: int| 0 <= i < self.rows@.len() ==> (#[trigger] self.rows@[i]).wf()
    }

    /// The distribution is valid.
    pub open spec fn wf(&self) -> bool {
        &&& self.aligned()
        &&& is_tables(self@)
    }

    /// The log-likelihood of `inner` under `outer`: none where `outer` was
    /// never an outer key.
    pub open spec fn likelihood(&self, outer: Seq<char>, inner: Seq<char>) -> Option<i64> {
        pair_likelihood_of(self@, outer, inner)
    }

    /// Builds the conditional distribution of a two-level counter from the
    /// smoothed log-likelihoods of each row, given in the counter's order,
    /// and each row's log-likelihood of an unseen key.
    ///
    /// Returns `None` where the values do not fit the counter.
    pub fn with_smoothing(
        counter: ConditionalStringCounter,
        likelihoods: Vec<Vec<i64>>,
        smoothed_defaults: Vec<i64>,
    ) -> (r: Option<Self>)
        requires
            counter.wf(),
        ensures
            r is Some <==> fits(counter@, likelihoods@, smoothed_defaults@),
            r is Some ==> r->0.wf() && r->0@ == tables_of(
                counter@,
                likelihoods@,
                smoothed_defaults@,
            ),
    {
        if likelihoods.len() != counter.len() || smoothed_defaults.len() != counter.len() {
            return None;
        }
        let mut keys: Vec<String> = Vec::new();
        let mut rows: Vec<StringFrequencyDistribution> = Vec::new();
        let mut i: usize = 0;
        while i < counter.len()
            invariant
                i <= counter@.len(),
                counter.wf(),
                likelihoods@.len() == counter@.len(),
                smoothed_defaults@.len() == counter@.len(),
                keys@.len() == i,
                rows@.len() == i,
                forall|j: int|
                    0 <= j < i ==> (#[trigger] likelihoods@[j])@.len() == counter@[j].1.len(),
                forall|j: int| 0 <= j < i ==> all_in_range((#[trigger] likelihoods@[j])@),
                forall|j: int| 0 <= j < i ==> in_range(#[trigger] smoothed_defaults@[j]),
                forall|j: int| 0 <= j < i ==> (#[trigger] keys@[j])@ == counter@[j].0,
                forall|j: int|
                    0 <= j < i ==> (#[trigger] rows@[j]).wf() && rows@[j]@ == table_of(
                        counter@[j].1,
                        likelihoods@[j]@,
                        smoothed_defaults@[j],
                    ),
            decreases counter@.len() - i,
        {
            let values = likelihoods[i].clone();
            assert(values@ =~= likelihoods@[i as int]@);
            let row = StringFrequencyDistribution::with_smoothing(
                counter.row_at(i).clone(),
                values,
                smoothed_defaults[i],
            );
            match row {
                Some(d) => {
                    keys.push(counter.key_at(i).clone());
                    rows.push(d);
                },
                None => {
                    assert(!(likelihoods@[i as int]@.len() == counter@[i as int].1.len()
                        && all_in_range(likelihoods@[i as int]@) && in_range(
                        smoothed_defaults@[i as int],
                    )));
                    return None;
                },
            }
            i += 1;
        }
        let r = ConditionalStringFrequencyDistribution { keys, rows };
        assert(r@ =~= tables_of(counter@, likelihoods@, smoothed_defaults@));
        assert forall|a: int, b: int| 0 <= a < b < r@.len() implies (#[trigger] r@[a]).0 != (
        #[trigger] r@[b]).0 by {
            assert(counter@[a].0 != counter@[b].0);
        }
        Some(r)
    }

    /// Builds a conditional distribution of its rows.
    ///
    /// Returns `None` where an outer key stands twice.
    pub fn from_rows(rows: Vec<(String, StringFrequencyDistribution)>) -> (r: Option<Self>)
        requires
            forall|i: int| 0 <= i < rows@.len() ==> (#[trigger] rows@[i]).1.wf(),
        ensures
            r is Some <==> distinct_keys(rows_of(rows@)),
            r is Some ==> r->0.wf() && r->0@ == rows_of(rows@),
    {
        let ghost want = rows_of(rows@);
        let mut keys: Vec<String> = Vec::new();
        let mut tables: Vec<StringFrequencyDistribution> = Vec::new();
        let mut i: usize = 0;
        while i < rows.len()
            invariant
                i <= rows@.len(),
                want == rows_of(rows@),
                forall|j: int| 0 <= j < rows@.len() ==> (#[trigger] rows@[j]).1.wf(),
                keys@.len() == i,
                tables@.len() == i,
                forall|j: int| 0 <= j < i ==> (#[trigger] keys@[j])@ == want[j].0,
                forall|j: int|
                    0 <= j < i ==> (#[trigger] tables@[j])@ == want[j].1 && tables@[j].wf(),
                forall|a: int, b: int|
                    0 <= a < b < i ==> (#[trigger] want[a]).0 != (#[trigger] want[b]).0,
            decreases rows@.len() - i,
        {
            match position(&keys, &rows[i].0) {
                Some(at) => {
                    assert(want[at as int].0 == want[i as int].0);
                    return None;
                },
                None => {
                    assert forall|a: int| 0 <= a < i implies (#[trigger] want[a]).0
                        != want[i as int].0 by {
                        assert(keys@[a]@ == want[a].0);
                    }
                },
            }
            assert(rows@[i as int].1.wf());
            keys.push(rows[i].0.clone());
            tables.push(rows[i].1.clone());
            i += 1;
        }
        let r = ConditionalStringFrequencyDistribution { keys, rows: tables };
        assert(r@ =~= want);
        assert forall|j: int| 0 <= j < r@.len() implies is_table((#[trigger] r@[j]).1) by {
            assert(tables@[j].wf());
        }
        Some(r)
    }

    /// Where `outer` stands among the outer keys, if it does.
    pub fn find(&self, outer: &str) -> (r: Option<usize>)
        requires
            self.wf(),
        ensures
            r is Some == has_key(self@, outer@),
            r is Some ==> r->0 < self@.len() && r->0 == index_of_key(self@, outer@),
    {
        let owned = outer.to_owned();
        let r = position(&self.keys, &owned);
        proof {
            match r {
                Some(i) => {
                    assert(self@[i as int].0 == outer@);
                    lemma_index_of_key(self@, outer@, i as int);
                },
                None => {
                    if has_key(self@, outer@) {
                        let j = index_of_key(self@, outer@);
                        assert(self@[j].0 == self.keys@[j]@);
                    }
                },
            }
        }
        r
    }

    /// The outer key of the row at `i`.
    pub fn key_at(&self, i: usize) -> (r: &String)
        requires
            self.wf(),
            i < self@.len(),
        ensures
            r@ == self@[i as int].0,
    {
        &self.keys[i]
    }

    /// The distribution of the row at `i`.
    pub fn row_at(&self, i: usize) -> (r: &StringFrequencyDistribution)
        requires
            self.wf(),
            i < self@.len(),
        ensures
            r@ == self@[i as int].1,
            r.wf(),
    {
        assert(self@[i as int].1 == self.rows@[i as int]@);
        &self.rows[i]
    }

    /// The log-likelihood of `inner_key` under `outer_key`, or `None` where
    /// `outer_key` was never an outer key.
    pub fn get_likelihood(&self, outer_key: &str, inner_key: &str) -> (r: Option<i64>)
        requires
            self.wf(),
        ensures
            r == self.likelihood(outer_key@, inner_key@),
            r is Some ==> in_range(r->0),
    {
        match self.find(outer_key) {
            Some(i) => Some(self.row_at(i).get_likelihood(inner_key)),
            None => None,
        }
    }

    /// Tells whether `inner_key` has an entry under any outer key.
    pub fn inner_key_exists(&self, inner_key: &str) -> (r: bool)
        requires
            self.wf(),
        ensures
            r == inner_key_in(self@, inner_key@),
    {
        let mut i: usize = 0;
        while i < self.keys.len()
            invariant
                i <= self.keys.len(),
                self.wf(),
                forall|j: int| 0 <= j < i ==> !has_key((#[trigger] self@[j]).1.0, inner_key@),
            decreases self.keys.len() - i,
        {
            if self.row_at(i).contains_key(inner_key) {
                return true;
            }
            i += 1;
        }
        false
    }

    /// The number of outer keys.
    pub fn len(&self) -> (r: usize)
        requires
            self.wf(),
        ensures
            r == self@.len(),
    {
        self.keys.len()
    }

    /// The rows, in the order of their outer keys.
    pub fn iter(&self) -> (r: Vec<(String, StringFrequencyDistribution)>)
        requires
            self.wf(),
        ensures
            r@.len() == self@.len(),
            forall|i: int|
                0 <= i < r@.len() ==> (#[trigger] r@[i]).0@ == self@[i].0 && r@[i].1@
                    == self@[i].1 && r@[i].1.wf(),
    {
        let mut out: Vec<(String, StringFrequencyDistribution)> = Vec::new();
        let mut i: usize = 0;
        while i < self.keys.len()
            invariant
                i <= self.keys.len(),
                self.wf(),
                out@.len() == i,
                forall|j: int|
                    0 <= j < i ==> (#[trigger] out@[j]).0@ == self@[j].0 && out@[j].1@
                        == self@[j].1 && out@[j].1.wf(),
            decreases self.keys.len() - i,
        {
            let row = self.row_at(i).clone();
            out.push((self.keys[i].clone(), row));
            i += 1;
        }
        out
    }

    /// The rows, by value.
    pub fn into_iter(self) -> (r: Vec<(String, StringFrequencyDistribution)>)
        requires
            self.wf(),
        ensures
            r@.len() == self@.len(),
            forall|i: int|
                0 <= i < r@.len() ==> (#[trigger] r@[i]).0@ == self@[i].0 && r@[i].1@
                    == self@[i].1 && r@[i].1.wf(),
    {
        self.iter()
    }

    /// The outer keys, in order.
    pub fn keys(&self) -> (r: Vec<String>)
        requires
            self.wf(),
        ensures
            r@.len() == self@.len(),
            forall|i: int| 0 <= i < r@.len() ==> (#[trigger] r@[i])@ == self@[i].0,
    {
        let mut out: Vec<String> = Vec::new();
        let mut i: usize = 0;
        while i < self.keys.len()
            invariant
                i <= self.keys.len(),
                self.wf(),
                out@.len() == i,
                forall|j: int| 0 <= j < i ==> (#[trigger] out@[j])@ == self@[j].0,
            decreases self.keys.len() - i,
        {
            out.push(self.keys[i].clone());
            i += 1;
        }
        out
    }

    /// The distributions, in the order of their outer keys.
    pub fn values(&self) -> (r: Vec<StringFrequencyDistribution>)
        requires
            self.wf(),
        ensures
            r@.len() == self@.len(),
            forall|i: int| 0 <= i < r@.len() ==> (#[trigger] r@[i])@ == self@[i].1 && r@[i].wf(),
    {
        let mut out: Vec<StringFrequencyDistribution> = Vec::new();
        let mut i: usize = 0;
        while i < self.keys.len()
            invariant
                i <= self.keys.len(),
                self.wf(),
                out@.len() == i,
                forall|j: int| 0 <= j < i ==> (#[trigger] out@[j])@ == self@[j].1 && out@[j].wf(),
            decreases self.keys.len() - i,
        {
            let row = self.row_at(i).clone();
            out.push(row);
            i += 1;
        }
        out
    }
}

} // verus!
