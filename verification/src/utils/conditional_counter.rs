//! Occurrence counts keyed by a pair of strings: an outer key and, under it,
//! an inner key.

use vstd::prelude::*;
use crate::text::position;
use crate::utils::assoc::{
    distinct_keys, has_key, index_of_key, lemma_index_of_key, lemma_upsert, upsert,
};
use crate::utils::counter::{
    count_of, incremented, is_counter, lemma_incremented, lemma_merged, merged, StringCounter,
};

verus! {

/// The model of a two-level counter: outer keys in order, each with the
/// counter that stands under it.
pub type Rows = Seq<(Seq<char>, Seq<(Seq<char>, nat)>)>;

/// The counter under `outer`: empty where `outer` has no entry.
pub open spec fn row_of(m: Rows, outer: Seq<char>) -> Seq<(Seq<char>, nat)> {
    if has_key(m, outer) {
        m[index_of_key(m, outer)].1
    } else {
        Seq::empty()
    }
}

/// How often `inner` was counted under `outer`.
pub open spec fn pair_count_of(m: Rows, outer: Seq<char>, inner: Seq<char>) -> nat {
    count_of(row_of(m, outer), inner)
}

/// `m` after one more occurrence of `inner` under `outer`.
pub open spec fn pair_incremented(m: Rows, outer: Seq<char>, inner: Seq<char>) -> Rows {
    upsert(m, outer, incremented(row_of(m, outer), inner))
}

/// `m` with an entry for `outer`: an empty counter where it had none.
pub open spec fn with_key(m: Rows, outer: Seq<char>) -> Rows {
    upsert(m, outer, row_of(m, outer))
}

/// `m` after the rows of `other` were merged into it one by one, each into
/// the row of its outer key.
pub open spec fn rows_merged(m: Rows, other: Rows) -> Rows
    decreases other.len(),
{
    if other.len() == 0 {
        m
    } else {
        let acc = rows_merged(m, other.drop_last());
        let k = other.last().0;
        upsert(acc, k, merged(row_of(acc, k), other.last().1))
    }
}

/// What holds of every two-level counter: no outer key twice, and a counter
/// under each.
pub open spec fn is_rows(m: Rows) -> bool {
    &&& distinct_keys(m)
    &&& forall|i: int| 0 <= i < m.len() ==> is_counter((#[trigger] m[i]).1)
}

/// The counter under any key of a two-level counter is a counter.
pub proof fn lemma_row_of(m: Rows, outer: Seq<char>)
    requires
        is_rows(m),
    ensures
        is_counter(row_of(m, outer)),
{
}

/// Storing a counter under an outer key gives a two-level counter in which
/// every other row is as before.
pub proof fn lemma_rows_upsert(m: Rows, outer: Seq<char>, row: Seq<(Seq<char>, nat)>)
    requires
        is_rows(m),
        is_counter(row),
    ensures
        is_rows(upsert(m, outer, row)),
        row_of(upsert(m, outer, row), outer) == row,
        forall|o: Seq<char>| o != outer ==> row_of(upsert(m, outer, row), o) == row_of(m, o),
        forall|o: Seq<char>|
            has_key(upsert(m, outer, row), o) == (o == outer || has_key(m, o)),
{
    let r = upsert(m, outer, row);
    lemma_upsert(m, outer, row);
    assert forall|i: int| 0 <= i < r.len() implies is_counter((#[trigger] r[i]).1) by {
        if i < m.len() && !(has_key(m, outer) && i == index_of_key(m, outer)) {
            assert(r[i] == m[i]);
        }
    }
}

/// One more occurrence of a pair adds one to its count and leaves the count
/// of every other pair as it was.
pub proof fn lemma_pair_incremented(m: Rows, outer: Seq<char>, inner: Seq<char>)
    requires
        is_rows(m),
    ensures
        is_rows(pair_incremented(m, outer, inner)),
        pair_count_of(pair_incremented(m, outer, inner), outer, inner) == pair_count_of(
            m,
            outer,
            inner,
        ) + 1,
        forall|o: Seq<char>, i: Seq<char>|
            o != outer || i != inner ==> pair_count_of(pair_incremented(m, outer, inner), o, i)
                == pair_count_of(m, o, i),
        forall|o: Seq<char>|
            has_key(pair_incremented(m, outer, inner), o) == (o == outer || has_key(m, o)),
{
    lemma_incremented(row_of(m, outer), inner);
    lemma_rows_upsert(m, outer, incremented(row_of(m, outer), inner));
}

/// A table from pairs of string keys to the number of times each pair was
/// counted, held as one counter per outer key.
///
/// Outer keys stand in the order in which they were first counted, and no
/// outer key stands twice.
#[derive(Debug)]
pub struct ConditionalStringCounter {
    keys: Vec<String>,
    counters: Vec<StringCounter>,
}

impl View for ConditionalStringCounter {
    type V = Rows;

    closed spec fn view(&self) -> Rows {
        Seq::new(self.keys@.len(), |i: int| (self.keys@[i]@, self.counters@[i]@))
    }
}

impl Clone for ConditionalStringCounter {
    fn clone(&self) -> (r: Self)
        ensures
            self.aligned() ==> r.aligned() && r@ == self@,
    {
        let mut keys: Vec<String> = Vec::new();
        let mut counters: Vec<StringCounter> = Vec::new();
        let n: usize = if self.keys.len() < self.counters.len() {
            self.keys.len()
        } else {
            self.counters.len()
        };
        let mut i: usize = 0;
        while i < n
            invariant
                i <= n <= self.keys.len(),
                n <= self.counters.len(),
                keys@.len() == i,
                counters@.len() == i,
                forall|j: int| 0 <= j < i ==> (#[trigger] keys@[j])@ == self.keys@[j]@,
                forall|j: int|
                    0 <= j < i && self.counters@[j].wf() ==> (#[trigger] counters@[j]).wf()
                        && counters@[j]@ == self.counters@[j]@,
            decreases n - i,
        {
            keys.push(self.keys[i].clone());
            counters.push(self.counters[i].clone());
            i += 1;
        }
        let r = ConditionalStringCounter { keys, counters };
        assert(self.aligned() ==> r@ =~= self@);
        r
    }
}

impl Default for ConditionalStringCounter {
    fn default() -> (r: Self)
        ensures
            r.wf(),
            r@ == Seq::<(Seq<char>, Seq<(Seq<char>, nat)>)>::empty(),
    {
        ConditionalStringCounter::new()
    }
}

impl ConditionalStringCounter {
    /// The two columns of the table have one length, and every counter in it is valid.
    pub closed spec fn aligned(&self) -> bool {
        &&& self.keys@.len() == self.counters@.len()
        &&& forall|i: int| 0 <= i < self.counters@.len() ==> (#[trigger] self.counters@[i]).wf()
    }

    /// The counter is valid.
    pub open spec fn wf(&self) -> bool {
        &&& self.aligned()
        &&& is_rows(self@)
    }

    /// The count of `inner` under `outer`: zero where the pair was never counted.
    pub open spec fn count(&self, outer: Seq<char>, inner: Seq<char>) -> nat {
        pair_count_of(self@, outer, inner)
    }

    /// An empty counter.
    pub fn new() -> (r: Self)
        ensures
            r.wf(),
            r@ == Seq::<(Seq<char>, Seq<(Seq<char>, nat)>)>::empty(),
    {
        let r = ConditionalStringCounter { keys: Vec::new(), counters: Vec::new() };
        assert(r@ =~= Seq::<(Seq<char>, Seq<(Seq<char>, nat)>)>::empty());
        r
    }

    /// Where `outer` stands in the table, if it does.
    pub fn find(&self, outer: &str) -> (r: Option<usize>)
        requires
            self.wf(),
        ensures
            r is Some == has_key(self@, outer@),
            r is Some ==> r->0 < self@.len() && r->0 == index_of_key(self@, outer@),
    {
        let owned = outer.to_owned();
        let r = position(&self.keys, &owned);
        proof {
            match r {
                Some(i) => {
                    assert(self@[i as int].0 == outer@);
                    lemma_index_of_key(self@, outer@, i as int);
                },
                None => {
                    if has_key(self@, outer@) {
                        let j = index_of_key(self@, outer@);
                        assert(self@[j].0 == self.keys@[j]@);
                    }
                },
            }
        }
        r
    }

    /// The outer key of the row at `i`.
    pub fn key_at(&self, i: usize) -> (r: &String)
        requires
            self.wf(),
            i < self@.len(),
        ensures
            r@ == self@[i as int].0,
    {
        &self.keys[i]
    }

    /// The counter of the row at `i`.
    pub fn row_at(&self, i: usize) -> (r: &StringCounter)
        requires
            self.wf(),
            i < self@.len(),
        ensures
            r@ == self@[i as int].1,
            r.wf(),
    {
        assert(self@[i as int].1 == self.counters@[i as int]@);
        &self.counters[i]
    }

    /// The count of `inner` under `outer`: zero where the pair was never counted.
    pub fn get(&self, outer: &str, inner: &str) -> (r: usize)
        requires
            self.wf(),
        ensures
            r == self.count(outer@, inner@),
    {
        match self.find(outer) {
            Some(i) => self.row_at(i).get(inner),
            None => {
                assert(!has_key(Seq::<(Seq<char>, nat)>::empty(), inner@));
                0
            },
        }
    }

    /// Makes sure that `outer` has a row: an empty one is added at the end
    /// where it had none.
    pub fn ensure_key(&mut self, outer: &str) -> (at: usize)
        requires
            old(self).wf(),
        ensures
            final(self).wf(),
            final(self)@ == with_key(old(self)@, outer@),
            at < final(self)@.len(),
            at == index_of_key(final(self)@, outer@),
            final(self)@[at as int].0 == outer@,
    {
        proof {
            lemma_row_of(self@, outer@);
            lemma_rows_upsert(self@, outer@, row_of(self@, outer@));
        }
        let at: usize = match self.find(outer) {
            Some(i) => i,
            None => {
                self.keys.push(outer.to_owned());
                self.counters.push(StringCounter::new());
                self.keys.len() - 1
            },
        };
        assert(self@ =~= with_key(old(self)@, outer@));
        assert(self@[at as int].0 == outer@);
        proof {
            lemma_index_of_key(self@, outer@, at as int);
        }
        at
    }

    /// Puts `row` in the place of the counter of the row at `i`.
    pub fn replace_row(&mut self, i: usize, row: StringCounter)
        requires
            old(self).wf(),
            i < old(self)@.len(),
            row.wf(),
        ensures
            final(self).wf(),
            final(self)@ == old(self)@.update(i as int, (old(self)@[i as int].0, row@)),
    {
        self.counters.set(i, row);
        assert(self@ =~= old(self)@.update(i as int, (old(self)@[i as int].0, row@)));
        assert forall|a: int, b: int| 0 <= a < b < self@.len() implies (#[trigger] self@[a]).0 != (
        #[trigger] self@[b]).0 by {
            assert(old(self)@[a].0 != old(self)@[b].0);
        }
        assert forall|j: int| 0 <= j < self@.len() implies is_counter((#[trigger] self@[j]).1) by {
            if j != i {
                assert(self@[j] == old(self)@[j]);
            }
        }
    }

    /// Counts one more occurrence of `inner` under `outer`; the row of a new
    /// outer key is made on the way.
    pub fn increment(&mut self, outer_key: &str, inner_key: &str)
        requires
            old(self).wf(),
            old(self).count(outer_key@, inner_key@) < usize::MAX,
        ensures
            final(self).wf(),
            final(self)@ == pair_incremented(old(self)@, outer_key@, inner_key@),
            final(self).count(outer_key@, inner_key@) == old(self).count(outer_key@, inner_key@)
                + 1,
            forall|o: Seq<char>, i: Seq<char>|
                o != outer_key@ || i != inner_key@ ==> final(self).count(o, i) == old(
                    self,
                ).count(o, i),
            forall|o: Seq<char>|
                has_key(final(self)@, o) == (o == outer_key@ || has_key(old(self)@, o)),
    {
        proof {
            lemma_pair_incremented(self@, outer_key@, inner_key@);
            lemma_upsert(self@, outer_key@, row_of(self@, outer_key@));
        }
        let at = self.ensure_key(outer_key);
        let ghost mid = self@;
        assert(mid[at as int].1 == row_of(old(self)@, outer_key@));
        assert(self.counters@[at as int]@ == mid[at as int].1);
        let mut row = StringCounter::new();
        std::mem::swap(&mut row, &mut self.counters[at]);
        row.increment(inner_key);
        self.counters.set(at, row);
        assert(self@ =~= pair_incremented(old(self)@, outer_key@, inner_key@)) by {
            let want = pair_incremented(old(self)@, outer_key@, inner_key@);
            assert(self@.len() == want.len());
            assert forall|i: int| 0 <= i < self@.len() implies self@[i] == want[i] by {
                if i != at {
                    assert(self@[i] == mid[i]);
                }
            }
        }
    }

    /// Merges `other` into this counter: each of its rows is taken over into
    /// the row of the same outer key, count by count.
    pub fn extend(&mut self, other: ConditionalStringCounter)
        requires
            old(self).wf(),
            other.wf(),
        ensures
            final(self).wf(),
            final(self)@ == rows_merged(old(self)@, other@),
    {
        let mut i: usize = 0;
        while i < other.len()
            invariant
                i <= other@.len(),
                self.wf(),
                other.wf(),
                self@ == rows_merged(old(self)@, other@.take(i as int)),
            decreases other@.len() - i,
        {
            let ghost acc = self@;
            let key = other.key_at(i);
            let at = self.ensure_key(key.as_str());
            let ghost mid = self@;
            proof {
                lemma_row_of(acc, key@);
                lemma_upsert(acc, key@, row_of(acc, key@));
                lemma_merged(row_of(acc, key@), other@[i as int].1);
                lemma_rows_upsert(acc, key@, merged(row_of(acc, key@), other@[i as int].1));
                assert(other@.take(i + 1).drop_last() == other@.take(i as int));
                assert(other@.take(i + 1).last() == other@[i as int]);
            }
            assert(mid[at as int].1 == row_of(acc, key@));
            assert(self.counters@[at as int]@ == mid[at as int].1);
            let mut row = StringCounter::new();
            std::mem::swap(&mut row, &mut self.counters[at]);
            row.extend(other.row_at(i).clone());
            self.counters.set(at, row);
            assert(self@ =~= rows_merged(old(self)@, other@.take(i + 1))) by {
                let want = upsert(acc, key@, merged(row_of(acc, key@), other@[i as int].1));
                assert(self@.len() == want.len());
                assert forall|j: int| 0 <= j < self@.len() implies self@[j] == want[j] by {
                    if j != at {
                        assert(self@[j] == mid[j]);
                    }
                }
            }
            i += 1;
        }
        assert(other@.take(other@.len() as int) == other@);
    }

    /// The number of outer keys.
    pub fn len(&self) -> (r: usize)
        requires
            self.wf(),
        ensures
            r == self@.len(),
    {
        self.keys.len()
    }

    /// The rows, in the order in which their outer keys were first counted.
    pub fn iter(&self) -> (r: Vec<(String, StringCounter)>)
        requires
            self.wf(),
        ensures
            r@.len() == self@.len(),
            forall|i: int|
                0 <= i < r@.len() ==> (#[trigger] r@[i]).0@ == self@[i].0 && r@[i].1@
                    == self@[i].1 && r@[i].1.wf(),
    {
        let mut out: Vec<(String, StringCounter)> = Vec::new();
        let mut i: usize = 0;
        while i < self.keys.len()
            invariant
                i <= self.keys.len(),
                self.wf(),
                out@.len() == i,
                forall|j: int|
                    0 <= j < i ==> (#[trigger] out@[j]).0@ == self@[j].0 && out@[j].1@
                        == self@[j].1 && out@[j].1.wf(),
            decreases self.keys.len() - i,
        {
            let row = self.row_at(i).clone();
            out.push((self.keys[i].clone(), row));
            i += 1;
        }
        out
    }

    /// The rows, by value, in the order in which their outer keys were first counted.
    pub fn into_iter(self) -> (r: Vec<(String, StringCounter)>)
        requires
            self.wf(),
        ensures
            r@.len() == self@.len(),
            forall|i: int|
                0 <= i < r@.len() ==> (#[trigger] r@[i]).0@ == self@[i].0 && r@[i].1@
                    == self@[i].1 && r@[i].1.wf(),
    {
        self.iter()
    }

    /// The outer keys, in the order in which they were first counted.
    pub fn keys(&self) -> (r: Vec<String>)
        requires
            self.wf(),
        ensures
            r@.len() == self@.len(),
            forall|i: int| 0 <= i < r@.len() ==> (#[trigger] r@[i])@ == self@[i].0,
    {
        let mut out: Vec<String> = Vec::new();
        let mut i: usize = 0;
        while i < self.keys.len()
            invariant
                i <= self.keys.len(),
                self.wf(),
                out@.len() == i,
                forall|j: int| 0 <= j < i ==> (#[trigger] out@[j])@ == self@[j].0,
            decreases self.keys.len() - i,
        {
            out.push(self.keys[i].clone());
            i += 1;
        }
        out
    }

    /// The counters, in the order of their outer keys.
    pub fn values(&self) -> (r: Vec<StringCounter>)
        requires
            self.wf(),
        ensures
            r@.len() == self@.len(),
            forall|i: int| 0 <= i < r@.len() ==> (#[trigger] r@[i])@ == self@[i].1 && r@[i].wf(),
    {
        let mut out: Vec<StringCounter> = Vec::new();
        let mut i: usize = 0;
        while i < self.keys.len()
            invariant
                i <= self.keys.len(),
                self.wf(),
                out@.len() == i,
                forall|j: int| 0 <= j < i ==> (#[trigger] out@[j])@ == self@[j].1 && out@[j].wf(),
            decreases self.keys.len() - i,
        {
            let row = self.row_at(i).clone();
            out.push(row);
            i += 1;
        }
        out
    }
}

} // verus!
