//! Association lists keyed by character sequences: the model shared by the
//! counters and the likelihood tables.

use vstd::prelude::*;

verus! {

/// `m` has an entry under `k`.
pub open spec fn has_key<V>(m: Seq<(Seq<char>, V)>, k: Seq<char>) -> bool {
    exists|i: int| 0 <= i < m.len() && (#[trigger] m[i]).0 == k
}

/// The index of an entry under `k`, where there is one.
pub open spec fn index_of_key<V>(m: Seq<(Seq<char>, V)>, k: Seq<char>) -> int {
    choose|i: int| 0 <= i < m.len() && (#[trigger] m[i]).0 == k
}

/// No two entries of `m` share a key.
pub open spec fn distinct_keys<V>(m: Seq<(Seq<char>, V)>) -> bool {
    forall|i: int, j: int|
        0 <= i < j < m.len() ==> (#[trigger] m[i]).0 != (#[trigger] m[j]).0
}

/// `m` with `v` stored under `k`: in place where `k` has an entry, at the end
/// otherwise.
pub open spec fn upsert<V>(m: Seq<(Seq<char>, V)>, k: Seq<char>, v: V) -> Seq<(Seq<char>, V)> {
    if has_key(m, k) {
        m.update(index_of_key(m, k), (k, v))
    } else {
        m.push((k, v))
    }
}

/// With distinct keys, the entry under a key is the only one.
pub proof fn lemma_index_of_key<V>(m: Seq<(Seq<char>, V)>, k: Seq<char>, i: int)
    requires
        distinct_keys(m),
        0 <= i < m.len(),
        m[i].0 == k,
    ensures
        has_key(m, k),
        index_of_key(m, k) == i,
{
    let j = index_of_key(m, k);
    assert(0 <= j < m.len() && m[j].0 == k);
    if j < i {
        assert(m[j].0 != m[i].0);
    } else if i < j {
        assert(m[i].0 != m[j].0);
    }
}

/// Storing under a key keeps the keys distinct and changes no other entry.
pub proof fn lemma_upsert<V>(m: Seq<(Seq<char>, V)>, k: Seq<char>, v: V)
    requires
        distinct_keys(m),
    ensures
        distinct_keys(upsert(m, k, v)),
        has_key(upsert(m, k, v), k),
        upsert(m, k, v)[index_of_key(upsert(m, k, v), k)].1 == v,
        forall|o: Seq<char>| o != k ==> has_key(upsert(m, k, v), o) == has_key(m, o),
        forall|o: Seq<char>|
            o != k && has_key(m, o) ==> upsert(m, k, v)[index_of_key(upsert(m, k, v), o)]
                == m[index_of_key(m, o)],
{
    let r = upsert(m, k, v);
    let at: int = if has_key(m, k) { index_of_key(m, k) } else { m.len() as int };
    assert(0 <= at < r.len() && r[at] == (k, v));
    assert forall|i: int, j: int| 0 <= i < j < r.len() implies (#[trigger] r[i]).0 != (
    #[trigger] r[j]).0 by {
        if has_key(m, k) {
            assert(r[i].0 == m[i].0 && r[j].0 == m[j].0);
        } else {
            if j == m.len() {
                assert(r[i] == m[i]);
                if m[i].0 == k {
                    assert(has_key(m, k));
                }
            } else {
                assert(r[i] == m[i] && r[j] == m[j]);
            }
        }
    }
    lemma_index_of_key(r, k, at);
    assert forall|o: Seq<char>| o != k implies has_key(r, o) == has_key(m, o) by {
        if has_key(m, o) {
            let i = index_of_key(m, o);
            assert(r[i] == m[i]);
        }
        if has_key(r, o) {
            let i = index_of_key(r, o);
            assert(i != at);
            assert(r[i] == m[i]);
        }
    }
    assert forall|o: Seq<char>| o != k && has_key(m, o) implies r[index_of_key(r, o)]
        == m[index_of_key(m, o)] by {
        let i = index_of_key(m, o);
        assert(r[i] == m[i]);
        lemma_index_of_key(r, o, i);
    }
}

} // verus!
