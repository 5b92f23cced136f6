//! Occurrence counts keyed by string.

use vstd::prelude::*;
use crate::text::position;
use crate::utils::assoc::{
    distinct_keys, has_key, index_of_key, lemma_index_of_key, lemma_upsert, upsert,
};

verus! {

/// How often `k` was counted in `m`: zero where it has no entry.
pub open spec fn count_of(m: Seq<(Seq<char>, nat)>, k: Seq<char>) -> nat {
    if has_key(m, k) {
        m[index_of_key(m, k)].1
    } else {
        0
    }
}

/// `m` after one more occurrence of `k`.
pub open spec fn incremented(m: Seq<(Seq<char>, nat)>, k: Seq<char>) -> Seq<(Seq<char>, nat)> {
    upsert(m, k, count_of(m, k) + 1)
}

/// `m` after `n` more occurrences of `k`.
pub open spec fn incremented_by(m: Seq<(Seq<char>, nat)>, k: Seq<char>, n: nat) -> Seq<
    (Seq<char>, nat),
>
    decreases n,
{
    if n == 0 {
        m
    } else {
        incremented(incremented_by(m, k, (n - 1) as nat), k)
    }
}

/// `m` after the entries of `other` were stored into it one by one, each
/// replacing the count that its key had.
pub open spec fn merged(m: Seq<(Seq<char>, nat)>, other: Seq<(Seq<char>, nat)>) -> Seq<
    (Seq<char>, nat),
>
    decreases other.len(),
{
    if other.len() == 0 {
        m
    } else {
        upsert(merged(m, other.drop_last()), other.last().0, other.last().1)
    }
}

/// The sum of all counts of `m`.
pub open spec fn total_of(m: Seq<(Seq<char>, nat)>) -> nat
    decreases m.len(),
{
    if m.len() == 0 {
        0
    } else {
        total_of(m.drop_last()) + m.last().1
    }
}

/// What holds of every counter: no key twice, no count of zero.
pub open spec fn is_counter(m: Seq<(Seq<char>, nat)>) -> bool {
    &&& distinct_keys(m)
    &&& forall|i: int| 0 <= i < m.len() ==> (#[trigger] m[i]).1 >= 1
}

/// One more occurrence adds one to the count of its key and leaves every
/// other count as it was.
pub proof fn lemma_incremented(m: Seq<(Seq<char>, nat)>, k: Seq<char>)
    requires
        is_counter(m),
    ensures
        is_counter(incremented(m, k)),
        count_of(incremented(m, k), k) == count_of(m, k) + 1,
        forall|o: Seq<char>| o != k ==> count_of(incremented(m, k), o) == count_of(m, o),
{
    let v = count_of(m, k) + 1;
    let r = incremented(m, k);
    lemma_upsert(m, k, v);
    assert forall|i: int| 0 <= i < r.len() implies (#[trigger] r[i]).1 >= 1 by {
        if i < m.len() && !(has_key(m, k) && i == index_of_key(m, k)) {
            assert(r[i] == m[i]);
        }
    }
}

/// After `n` increments of one key its count has grown by `n`, and the count
/// of every other key is unchanged.
pub proof fn lemma_incremented_by(m: Seq<(Seq<char>, nat)>, k: Seq<char>, n: nat)
    requires
        is_counter(m),
    ensures
        is_counter(incremented_by(m, k, n)),
        count_of(incremented_by(m, k, n), k) == count_of(m, k) + n,
        forall|o: Seq<char>| o != k ==> count_of(incremented_by(m, k, n), o) == count_of(m, o),
    decreases n,
{
    if n > 0 {
        lemma_incremented_by(m, k, (n - 1) as nat);
        lemma_incremented(incremented_by(m, k, (n - 1) as nat), k);
    }
}

/// Merging counters gives a counter.
pub proof fn lemma_merged(m: Seq<(Seq<char>, nat)>, other: Seq<(Seq<char>, nat)>)
    requires
        is_counter(m),
        is_counter(other),
    ensures
        is_counter(merged(m, other)),
    decreases other.len(),
{
    if other.len() > 0 {
        let prev = merged(m, other.drop_last());
        lemma_merged(m, other.drop_last());
        let k = other.last().0;
        let v = other.last().1;
        let r = upsert(prev, k, v);
        lemma_upsert(prev, k, v);
        assert forall|i: int| 0 <= i < r.len() implies (#[trigger] r[i]).1 >= 1 by {
            if i < prev.len() && !(has_key(prev, k) && i == index_of_key(prev, k)) {
                assert(r[i] == prev[i]);
            }
        }
    }
}

/// A table from string keys to the number of times each was counted.
///
/// Keys stand in the order in which they were first counted. No key stands
/// twice and no count is zero.
#[derive(Debug)]
pub struct StringCounter {
    keys: Vec<String>,
    counts: Vec<usize>,
}

impl View for StringCounter {
    type V = Seq<(Seq<char>, nat)>;

    closed spec fn view(&self) -> Seq<(Seq<char>, nat)> {
        Seq::new(self.keys@.len(), |i: int| (self.keys@[i]@, self.counts@[i] as nat))
    }
}

impl Clone for StringCounter {
    fn clone(&self) -> (r: Self)
        ensures
            self.aligned() ==> r.aligned() && r@ == self@,
    {
        let mut keys: Vec<String> = Vec::new();
        let mut counts: Vec<usize> = Vec::new();
        let n: usize = if self.keys.len() < self.counts.len() {
            self.keys.len()
        } else {
            self.counts.len()
        };
        let mut i: usize = 0;
        while i < n
            invariant
                i <= n <= self.keys.len(),
                n <= self.counts.len(),
                keys@.len() == i,
                counts@.len() == i,
                forall|j: int| 0 <= j < i ==> (#[trigger] keys@[j])@ == self.keys@[j]@,
                forall|j: int| 0 <= j < i ==> (#[trigger] counts@[j]) == self.counts@[j],
            decreases n - i,
        {
            keys.push(self.keys[i].clone());
            counts.push(self.counts[i]);
            i += 1;
        }
        let r = StringCounter { keys, counts };
        assert(self.aligned() ==> r@ =~= self@);
        r
    }
}

impl Default for StringCounter {
    fn default() -> (r: Self)
        ensures
            r.wf(),
            r@ == Seq::<(Seq<char>, nat)>::empty(),
    {
        StringCounter::new()
    }
}

impl StringCounter {
    /// The two columns of the table have one length.
    pub closed spec fn aligned(&self) -> bool {
        self.keys@.len() == self.counts@.len()
    }

    /// The counter is valid: its model is a counter whose counts fit a machine word.
    pub open spec fn wf(&self) -> bool {
        &&& self.aligned()
        &&& is_counter(self@)
        &&& forall|i: int| 0 <= i < self@.len() ==> (#[trigger] self@[i]).1 <= usize::MAX
    }

    /// The count of `key`: zero where it was never counted.
    pub open spec fn count(&self, key: Seq<char>) -> nat {
        count_of(self@, key)
    }

    /// An empty counter.
    pub fn new() -> (r: Self)
        ensures
            r.wf(),
            r@ == Seq::<(Seq<char>, nat)>::empty(),
    {
        let r = StringCounter { keys: Vec::new(), counts: Vec::new() };
        assert(r@ =~= Seq::<(Seq<char>, nat)>::empty());
        r
    }

    /// Where `key` stands in the table, if it does.
    pub fn find(&self, key: &str) -> (r: Option<usize>)
        requires
            self.wf(),
        ensures
            r is Some == has_key(self@, key@),
            r is Some ==> r->0 < self@.len() && r->0 == index_of_key(self@, key@),
    {
        let owned = key.to_owned();
        let r = position(&self.keys, &owned);
        proof {
            match r {
                Some(i) => {
                    assert(self@[i as int].0 == key@);
                    lemma_index_of_key(self@, key@, i as int);
                },
                None => {
                    if has_key(self@, key@) {
                        let j = index_of_key(self@, key@);
                        assert(self@[j].0 == self.keys@[j]@);
                    }
                },
            }
        }
        r
    }

    /// The count of `key`: zero where it was never counted.
    pub fn get(&self, key: &str) -> (r: usize)
        requires
            self.wf(),
        ensures
            r == self.count(key@),
    {
        match self.find(key) {
            Some(i) => {
                assert(self@[i as int].1 == self.counts@[i as int]);
                self.counts[i]
            },
            None => 0,
        }
    }

    /// Counts one more occurrence of `key`: a new key enters with count 1 at
    /// the end of the table, a known key has 1 added where it stands.
    pub fn increment(&mut self, key: &str)
        requires
            old(self).wf(),
            old(self).count(key@) < usize::MAX,
        ensures
            final(self).wf(),
            final(self)@ == incremented(old(self)@, key@),
            final(self).count(key@) == old(self).count(key@) + 1,
            forall|o: Seq<char>| o != key@ ==> final(self).count(o) == old(self).count(o),
    {
        proof {
            lemma_incremented(self@, key@);
        }
        match self.find(key) {
            Some(i) => {
                assert(self@[i as int].1 == self.counts@[i as int]);
                let c: usize = self.counts[i];
                self.counts.set(i, c + 1);
            },
            None => {
                self.keys.push(key.to_owned());
                self.counts.push(1);
            },
        }
        assert(self@ =~= incremented(old(self)@, key@));
    }

    /// Stores `count` under `key`, replacing the count that the key had.
    pub fn insert(&mut self, key: String, count: usize)
        requires
            old(self).wf(),
            count >= 1,
        ensures
            final(self).wf(),
            final(self)@ == upsert(old(self)@, key@, count as nat),
    {
        proof {
            lemma_upsert(self@, key@, count as nat);
        }
        let found = self.find(key.as_str());
        match found {
            Some(i) => {
                self.counts.set(i, count);
            },
            None => {
                self.keys.push(key);
                self.counts.push(count);
            },
        }
        assert(self@ =~= upsert(old(self)@, key@, count as nat));
        assert forall|i: int| 0 <= i < self@.len() implies 1 <= (#[trigger] self@[i]).1
            <= usize::MAX by {
            if i < old(self)@.len() && !(found is Some && i == found->0) {
                assert(self@[i] == old(self)@[i]);
            }
        }
    }

    /// Takes over every entry of `other`: a key of `other` gets the count it
    /// has there, whether or not it was counted here before.
    pub fn extend(&mut self, other: StringCounter)
        requires
            old(self).wf(),
            other.wf(),
        ensures
            final(self).wf(),
            final(self)@ == merged(old(self)@, other@),
    {
        let entries = other.into_iter();
        let mut i: usize = 0;
        while i < entries.len()
            invariant
                i <= entries.len(),
                self.wf(),
                entries@.len() == other@.len(),
                forall|j: int|
                    0 <= j < entries.len() ==> (#[trigger] entries[j]).0@ == other@[j].0
                        && entries[j].1 == other@[j].1,
                other.wf(),
                self@ == merged(old(self)@, other@.take(i as int)),
            decreases entries.len() - i,
        {
            let key: String = entries[i].0.clone();
            let count: usize = entries[i].1;
            assert(other@[i as int].1 >= 1);
            self.insert(key, count);
            proof {
                assert(other@.take(i + 1).drop_last() == other@.take(i as int));
                assert(other@.take(i + 1).last() == other@[i as int]);
            }
            i += 1;
        }
        assert(other@.take(entries.len() as int) == other@);
    }

    /// The key of the entry at `i`.
    pub fn key_at(&self, i: usize) -> (r: &String)
        requires
            self.wf(),
            i < self@.len(),
        ensures
            r@ == self@[i as int].0,
    {
        &self.keys[i]
    }

    /// The count of the entry at `i`.
    pub fn count_at(&self, i: usize) -> (r: usize)
        requires
            self.wf(),
            i < self@.len(),
        ensures
            r == self@[i as int].1,
            r >= 1,
    {
        assert(self@[i as int].1 == self.counts@[i as int]);
        self.counts[i]
    }

    /// The number of distinct keys.
    pub fn len(&self) -> (r: usize)
        requires
            self.wf(),
        ensures
            r == self@.len(),
    {
        self.keys.len()
    }

    /// The sum of all counts.
    pub fn total(&self) -> (r: u128)
        requires
            self.wf(),
        ensures
            r == total_of(self@),
    {
        let mut sum: u128 = 0;
        let mut i: usize = 0;
        while i < self.counts.len()
            invariant
                i <= self.counts.len(),
                self.wf(),
                sum == total_of(self@.take(i as int)),
                sum <= i * usize::MAX,
            decreases self.counts.len() - i,
        {
            proof {
                assert(self@.take(i + 1).drop_last() == self@.take(i as int));
                assert(self@.take(i + 1).last() == self@[i as int]);
                assert(self@[i as int].1 == self.counts@[i as int]);
                assert((i + 1) * usize::MAX == i * usize::MAX + usize::MAX) by (nonlinear_arith);
                assert(i * usize::MAX + usize::MAX <= u128::MAX) by (nonlinear_arith)
                    requires
                        i < usize::MAX,
                        usize::MAX <= u64::MAX,
                ;
            }
            sum = sum + self.counts[i] as u128;
            i += 1;
        }
        assert(self@.take(self.counts.len() as int) == self@);
        sum
    }

    /// The entries, in the order in which their keys were first counted.
    pub fn iter(&self) -> (r: Vec<(String, usize)>)
        requires
            self.wf(),
        ensures
            r@.len() == self@.len(),
            forall|i: int|
                0 <= i < r@.len() ==> (#[trigger] r@[i]).0@ == self@[i].0 && r@[i].1
                    == self@[i].1,
    {
        let mut out: Vec<(String, usize)> = Vec::new();
        let mut i: usize = 0;
        while i < self.keys.len()
            invariant
                i <= self.keys.len(),
                self.wf(),
                out@.len() == i,
                forall|j: int|
                    0 <= j < i ==> (#[trigger] out@[j]).0@ == self@[j].0 && out@[j].1
                        == self@[j].1,
            decreases self.keys.len() - i,
        {
            out.push((self.keys[i].clone(), self.counts[i]));
            i += 1;
        }
        out
    }

    /// The entries, by value, in the order in which their keys were first counted.
    pub fn into_iter(self) -> (r: Vec<(String, usize)>)
        requires
            self.wf(),
        ensures
            r@.len() == self@.len(),
            forall|i: int|
                0 <= i < r@.len() ==> (#[trigger] r@[i]).0@ == self@[i].0 && r@[i].1
                    == self@[i].1,
    {
        self.iter()
    }

    /// The keys, in the order in which they were first counted.
    pub fn keys(&self) -> (r: Vec<String>)
        requires
            self.wf(),
        ensures
            r@.len() == self@.len(),
            forall|i: int| 0 <= i < r@.len() ==> (#[trigger] r@[i])@ == self@[i].0,
    {
        let mut out: Vec<String> = Vec::new();
        let mut i: usize = 0;
        while i < self.keys.len()
            invariant
                i <= self.keys.len(),
                self.wf(),
                out@.len() == i,
                forall|j: int| 0 <= j < i ==> (#[trigger] out@[j])@ == self@[j].0,
            decreases self.keys.len() - i,
        {
            out.push(self.keys[i].clone());
            i += 1;
        }
        out
    }

    /// The counts, in the order of their keys.
    pub fn values(&self) -> (r: Vec<usize>)
        requires
            self.wf(),
        ensures
            r@.len() == self@.len(),
            forall|i: int| 0 <= i < r@.len() ==> (#[trigger] r@[i]) == self@[i].1,
    {
        let mut out: Vec<usize> = Vec::new();
        let mut i: usize = 0;
        while i < self.counts.len()
            invariant
                i <= self.counts.len(),
                self.wf(),
                out@.len() == i,
                forall|j: int| 0 <= j < i ==> (#[trigger] out@[j]) == self@[j].1,
            decreases self.counts.len() - i,
        {
            out.push(self.counts[i]);
            i += 1;
        }
        out
    }
}

} // verus!
