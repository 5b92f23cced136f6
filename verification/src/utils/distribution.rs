//! Log-likelihood tables with a fallback for keys that were never counted.
//!
//! A log-likelihood is a natural logarithm of a probability in fixed point:
//! an integer number of equal fractions of a nat. Sums of log-likelihoods are
//! therefore exact, and two scores compare the same on every machine.

use vstd::prelude::*;
use crate::text::position;
use crate::utils::assoc::{distinct_keys, has_key, index_of_key, lemma_index_of_key};
use crate::utils::counter::StringCounter;

verus! {

/// The number of fixed-point units in one nat: a log-likelihood `x` stands
/// for the natural logarithm `x / UNITS_PER_NAT`.
pub const UNITS_PER_NAT: i64 = 0x1_0000_0000;

/// The largest log-likelihood that a table holds.
pub const MAX_LIKELIHOOD: i64 = 0x4000_0000_0000_0000;

/// The smallest log-likelihood that a table holds.
pub const MIN_LIKELIHOOD: i64 = -0x4000_0000_0000_0000;

/// `x` is a log-likelihood that a table can hold.
pub open spec fn in_range(x: i64) -> bool {
    MIN_LIKELIHOOD <= x <= MAX_LIKELIHOOD
}

/// The model of a log-likelihood table: its entries in order, and the
/// log-likelihood of every key without an entry.
pub type Table = (Seq<(Seq<char>, i64)>, i64);

/// The log-likelihood of `key` in a table: that of its entry, or the
/// default where it has none.
pub open spec fn likelihood_of(t: Table, key: Seq<char>) -> i64 {
    if has_key(t.0, key) {
        t.0[index_of_key(t.0, key)].1
    } else {
        t.1
    }
}

/// What holds of every table: no key twice, and every value in range.
pub open spec fn is_table(t: Table) -> bool {
    &&& distinct_keys(t.0)
    &&& in_range(t.1)
    &&& forall|i: int| 0 <= i < t.0.len() ==> in_range((#[trigger] t.0[i]).1)
}

/// The table that gives the key of each entry of `counter` the value that
/// stands at the same place in `likelihoods`.
pub open spec fn table_of(
    counter: Seq<(Seq<char>, nat)>,
    likelihoods: Seq<i64>,
    smoothed_default: i64,
) -> Table {
    (Seq::new(counter.len(), |i: int| (counter[i].0, likelihoods[i])), smoothed_default)
}

/// The entries that pairs of a string and a value stand for.
pub open spec fn entries_of(entries: Seq<(String, i64)>) -> Seq<(Seq<char>, i64)> {
    Seq::new(entries.len(), |i: int| (entries[i].0@, entries[i].1))
}

/// All of `values` are in range.
pub open spec fn all_in_range(values: Seq<i64>) -> bool {
    forall|i: int| 0 <= i < values.len() ==> in_range(#[trigger] values[i])
}

/// Tells whether every value is in range.
pub fn check_range(values: &Vec<i64>) -> (r: bool)
    ensures
        r == all_in_range(values@),
{
    let mut i: usize = 0;
    while i < values.len()
        invariant
            i <= values.len(),
            forall|j: int| 0 <= j < i ==> in_range(#[trigger] values@[j]),
        decreases values.len() - i,
    {
        if values[i] < MIN_LIKELIHOOD || values[i] > MAX_LIKELIHOOD {
            return false;
        }
        i += 1;
    }
    true
}

/// A smoothed distribution: the log-likelihood of each counted key, and one
/// log-likelihood for every key that was never counted.
#[derive(Debug)]
pub struct StringFrequencyDistribution {
    keys: Vec<String>,
    likelihoods: Vec<i64>,
    smoothed_default: i64,
}

impl View for StringFrequencyDistribution {
    type V = Table;

    closed spec fn view(&self) -> Table {
        (
            Seq::new(self.keys@.len(), |i: int| (self.keys@[i]@, self.likelihoods@[i])),
            self.smoothed_default,
        )
    }
}

impl Clone for StringFrequencyDistribution {
    fn clone(&self) -> (r: Self)
        ensures
            self.aligned() ==> r.aligned() && r@ == self@,
    {
        let mut keys: Vec<String> = Vec::new();
        let mut likelihoods: Vec<i64> = Vec::new();
        let n: usize = if self.keys.len() < self.likelihoods.len() {
            self.keys.len()
        } else {
            self.likelihoods.len()
        };
        let mut i: usize = 0;
        while i < n
            invariant
                i <= n <= self.keys.len(),
                n <= self.likelihoods.len(),
                keys@.len() == i,
                likelihoods@.len() == i,
                forall|j: int| 0 <= j < i ==> (#[trigger] keys@[j])@ == self.keys@[j]@,
                forall|j: int| 0 <= j < i ==> (#[trigger] likelihoods@[j]) == self.likelihoods@[j],
            decreases n - i,
        {
            keys.push(self.keys[i].clone());
            likelihoods.push(self.likelihoods[i]);
            i += 1;
        }
        let r = StringFrequencyDistribution {
            keys,
            likelihoods,
            smoothed_default: self.smoothed_default,
        };
        assert(self.aligned() ==> r@.0 =~= self@.0);
        r
    }
}

impl StringFrequencyDistribution {
    /// The two columns of the table have one length.
    pub closed spec fn aligned(&self) -> bool {
        self.keys@.len() == self.likelihoods@.len()
    }

    /// The distribution is valid.
    pub open spec fn wf(&self) -> bool {
        &&& self.aligned()
        &&& is_table(self@)
    }

    /// The log-likelihood of `key`.
    pub open spec fn likelihood(&self, key: Seq<char>) -> i64 {
        likelihood_of(self@, key)
    }

    /// Builds the distribution of a counter from the smoothed log-likelihood
    /// of each of its entries, given in the counter's order, and that of an
    /// unseen key.
    ///
    /// Returns `None` where the values are not one per entry, or one of them
    /// is out of range.
    pub fn with_smoothing(
        counter: StringCounter,
        likelihoods: Vec<i64>,
        smoothed_default: i64,
    ) -> (r: Option<Self>)
        requires
            counter.wf(),
        ensures
            r is Some <==> likelihoods@.len() == counter@.len() && all_in_range(likelihoods@)
                && in_range(smoothed_default),
            r is Some ==> r->0.wf() && r->0@ == table_of(
                counter@,
                likelihoods@,
                smoothed_default,
            ),
    {
        if likelihoods.len() != counter.len() || !check_range(&likelihoods)
            || smoothed_default < MIN_LIKELIHOOD || smoothed_default > MAX_LIKELIHOOD {
            return None;
        }
        let keys = counter.keys();
        let r = StringFrequencyDistribution { keys, likelihoods, smoothed_default };
        assert(r@.0 =~= table_of(counter@, likelihoods@, smoothed_default).0);
        assert forall|i: int, j: int| 0 <= i < j < r@.0.len() implies (#[trigger] r@.0[i]).0 != (
        #[trigger] r@.0[j]).0 by {
            assert(counter@[i].0 != counter@[j].0);
        }
        Some(r)
    }

    /// Builds a distribution of its entries and its default.
    ///
    /// Returns `None` where a key stands twice or a value is out of range.
    pub fn from_entries(entries: Vec<(String, i64)>, smoothed_default: i64) -> (r: Option<Self>)
        ensures
            r is Some <==> is_table((entries_of(entries@), smoothed_default)),
            r is Some ==> r->0.wf() && r->0@ == (entries_of(entries@), smoothed_default),
    {
        let ghost want = entries_of(entries@);
        if smoothed_default < MIN_LIKELIHOOD || smoothed_default > MAX_LIKELIHOOD {
            return None;
        }
        let mut keys: Vec<String> = Vec::new();
        let mut likelihoods: Vec<i64> = Vec::new();
        let mut i: usize = 0;
        while i < entries.len()
            invariant
                i <= entries@.len(),
                want == entries_of(entries@),
                keys@.len() == i,
                likelihoods@.len() == i,
                forall|j: int| 0 <= j < i ==> (#[trigger] keys@[j])@ == want[j].0,
                forall|j: int| 0 <= j < i ==> (#[trigger] likelihoods@[j]) == want[j].1,
                forall|j: int| 0 <= j < i ==> in_range((#[trigger] want[j]).1),
                forall|a: int, b: int|
                    0 <= a < b < i ==> (#[trigger] want[a]).0 != (#[trigger] want[b]).0,
            decreases entries@.len() - i,
        {
            let value: i64 = entries[i].1;
            if value < MIN_LIKELIHOOD || value > MAX_LIKELIHOOD {
                assert(!in_range(want[i as int].1));
                return None;
            }
            match position(&keys, &entries[i].0) {
                Some(at) => {
                    assert(want[at as int].0 == want[i as int].0);
                    return None;
                },
                None => {
                    assert forall|a: int| 0 <= a < i implies (#[trigger] want[a]).0
                        != want[i as int].0 by {
                        assert(keys@[a]@ == want[a].0);
                    }
                },
            }
            keys.push(entries[i].0.clone());
            likelihoods.push(value);
            i += 1;
        }
        let r = StringFrequencyDistribution { keys, likelihoods, smoothed_default };
        assert(r@.0 =~= want);
        Some(r)
    }

    /// Where `key` stands in the table, if it does.
    pub fn find(&self, key: &str) -> (r: Option<usize>)
        requires
            self.wf(),
        ensures
            r is Some == has_key(self@.0, key@),
            r is Some ==> r->0 < self@.0.len() && r->0 == index_of_key(self@.0, key@),
    {
        let owned = key.to_owned();
        let r = position(&self.keys, &owned);
        proof {
            match r {
                Some(i) => {
                    assert(self@.0[i as int].0 == key@);
                    lemma_index_of_key(self@.0, key@, i as int);
                },
                None => {
                    if has_key(self@.0, key@) {
                        let j = index_of_key(self@.0, key@);
                        assert(self@.0[j].0 == self.keys@[j]@);
                    }
                },
            }
        }
        r
    }

    /// The log-likelihood of `key`: that of its entry, or the default where
    /// it was never counted.
    pub fn get_likelihood(&self, key: &str) -> (r: i64)
        requires
            self.wf(),
        ensures
            r == self.likelihood(key@),
            in_range(r),
    {
        match self.find(key) {
            Some(i) => {
                assert(self@.0[i as int].1 == self.likelihoods@[i as int]);
                self.likelihoods[i]
            },
            None => self.smoothed_default,
        }
    }

    /// Tells whether `key` was counted.
    pub fn contains_key(&self, key: &str) -> (r: bool)
        requires
            self.wf(),
        ensures
            r == has_key(self@.0, key@),
    {
        self.find(key).is_some()
    }

    /// The log-likelihood of every key that was never counted.
    pub fn smoothed_default(&self) -> (r: i64)
        ensures
            r == self@.1,
    {
        self.smoothed_default
    }

    /// The number of counted keys.
    pub fn len(&self) -> (r: usize)
        requires
            self.wf(),
        ensures
            r == self@.0.len(),
    {
        self.keys.len()
    }

    /// The entries, in the order of the counter that the table was built from.
    pub fn iter(&self) -> (r: Vec<(String, i64)>)
        requires
            self.wf(),
        ensures
            r@.len() == self@.0.len(),
            forall|i: int|
                0 <= i < r@.len() ==> (#[trigger] r@[i]).0@ == self@.0[i].0 && r@[i].1
                    == self@.0[i].1,
    {
        let mut out: Vec<(String, i64)> = Vec::new();
        let mut i: usize = 0;
        while i < self.keys.len()
            invariant
                i <= self.keys.len(),
                self.wf(),
                out@.len() == i,
                forall|j: int|
                    0 <= j < i ==> (#[trigger] out@[j]).0@ == self@.0[j].0 && out@[j].1
                        == self@.0[j].1,
            decreases self.keys.len() - i,
        {
            out.push((self.keys[i].clone(), self.likelihoods[i]));
            i += 1;
        }
        out
    }

    /// The entries, by value.
    pub fn into_iter(self) -> (r: Vec<(String, i64)>)
        requires
            self.wf(),
        ensures
            r@.len() == self@.0.len(),
            forall|i: int|
                0 <= i < r@.len() ==> (#[trigger] r@[i]).0@ == self@.0[i].0 && r@[i].1
                    == self@.0[i].1,
    {
        self.iter()
    }

    /// The counted keys, in order.
    pub fn keys(&self) -> (r: Vec<String>)
        requires
            self.wf(),
        ensures
            r@.len() == self@.0.len(),
            forall|i: int| 0 <= i < r@.len() ==> (#[trigger] r@[i])@ == self@.0[i].0,
    {
        let mut out: Vec<String> = Vec::new();
        let mut i: usize = 0;
        while i < self.keys.len()
            invariant
                i <= self.keys.len(),
                self.wf(),
                out@.len() == i,
                forall|j: int| 0 <= j < i ==> (#[trigger] out@[j])@ == self@.0[j].0,
            decreases self.keys.len() - i,
        {
            out.push(self.keys[i].clone());
            i += 1;
        }
        out
    }

    /// The log-likelihoods of the counted keys, in the order of the keys.
    pub fn values(&self) -> (r: Vec<i64>)
        requires
            self.wf(),
        ensures
            r@.len() == self@.0.len(),
            forall|i: int| 0 <= i < r@.len() ==> (#[trigger] r@[i]) == self@.0[i].1,
    {
        let mut out: Vec<i64> = Vec::new();
        let mut i: usize = 0;
        while i < self.likelihoods.len()
            invariant
                i <= self.likelihoods.len(),
                self.wf(),
                out@.len() == i,
                forall|j: int| 0 <= j < i ==> (#[trigger] out@[j]) == self@.0[j].1,
            decreases self.likelihoods.len() - i,
        {
            out.push(self.likelihoods[i]);
            i += 1;
        }
        out
    }
}

} // verus!
