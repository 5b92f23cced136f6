//! Tagging a batch of sentences, in one piece or in shards.
//!
//! A batch is dealt out to workers round-robin: sentence `i` goes to worker
//! `i % workers`. Each worker tags its shard and hands back every tagging
//! with the index of its sentence; the taggings are then put back in the
//! order of the batch, whatever order they arrived in.

use vstd::prelude::*;
use crate::hmm::model::POSTaggingHMM;
use crate::hmm::viterbi::decoded;
use crate::text::{pairs, views};

verus! {

/// `num_cpus::get`: the number of logical cores that this process may run
/// on. Nothing is claimed of the number.
#[verifier::external_body]
fn available_cpus() -> (n: usize) {
    num_cpus::get()
}

/// The number of workers for a machine with `cpus` cores: one less than
/// the cores, and at least one.
pub fn workers_for(cpus: usize) -> (r: usize)
    ensures
        r >= 1,
        cpus >= 2 ==> r == cpus - 1,
        cpus < 2 ==> r == 1,
{
    if cpus >= 2 {
        cpus - 1
    } else {
        1
    }
}

/// The number of workers for this machine.
pub fn worker_count() -> (r: usize)
    ensures
        r >= 1,
{
    workers_for(available_cpus())
}

/// The index `i` stands in `shard`.
pub open spec fn holds(shard: Seq<usize>, i: int) -> bool {
    exists|j: int| 0 <= j < shard.len() && #[trigger] shard[j] == i
}

/// The index `i` stands in the shard that round-robin dealing gives it to.
pub open spec fn dealt(shards: Seq<Vec<usize>>, i: int) -> bool {
    holds(shards[i % (shards.len() as int)]@, i)
}

/// The shards deal out the indices below `n` round-robin: shard `s` holds,
/// in rising order, the indices that leave `s` when divided by the number
/// of shards.
pub open spec fn is_partition(shards: Seq<Vec<usize>>, n: nat) -> bool {
    &&& forall|s: int, j: int|
        0 <= s < shards.len() && 0 <= j < shards[s]@.len() ==> (#[trigger] shards[s]@[j]) < n
            && shards[s]@[j] % (shards.len() as usize) == s
    &&& forall|s: int, j: int, k: int|
        0 <= s < shards.len() && 0 <= j < k < shards[s]@.len() ==> (#[trigger] shards[s]@[j]) < (
        #[trigger] shards[s]@[k])
    &&& forall|i: int| 0 <= i < n ==> #[trigger] dealt(shards, i)
}

/// Deals the indices below `n` out to `workers` shards, round-robin.
pub fn partition(n: usize, workers: usize) -> (r: Vec<Vec<usize>>)
    requires
        workers >= 1,
    ensures
        r@.len() == workers,
        is_partition(r@, n as nat),
{
    let mut shards: Vec<Vec<usize>> = Vec::new();
    let mut s: usize = 0;
    while s < workers
        invariant
            s <= workers,
            shards@.len() == s,
            forall|k: int| 0 <= k < s ==> (#[trigger] shards@[k])@.len() == 0,
        decreases workers - s,
    {
        shards.push(Vec::new());
        s += 1;
    }
    let mut i: usize = 0;
    while i < n
        invariant
            i <= n,
            workers >= 1,
            shards@.len() == workers,
            is_partition(shards@, i as nat),
        decreases n - i,
    {
        let w: usize = i % workers;
        let ghost before = shards@;
        let mut shard: Vec<usize> = Vec::new();
        std::mem::swap(&mut shard, &mut shards[w]);
        shard.push(i);
        shards.set(w, shard);
        proof {
            let after = shards@;
            assert(after[w as int]@ == before[w as int]@.push(i));
            assert forall|s: int| 0 <= s < workers && s != w implies after[s] == before[s] by {}
            assert forall|s: int, j: int|
                0 <= s < after.len() && 0 <= j < after[s]@.len() implies (
            #[trigger] after[s]@[j]) < i + 1 && after[s]@[j] % (after.len() as usize) == s by {
                if s == w && j == before[w as int]@.len() {
                } else {
                    assert(after[s]@[j] == before[s]@[j]);
                }
            }
            assert forall|s: int, j: int, k: int|
                0 <= s < after.len() && 0 <= j < k < after[s]@.len() implies (
            #[trigger] after[s]@[j]) < (#[trigger] after[s]@[k]) by {
                if s == w && k == before[w as int]@.len() {
                    assert(after[s]@[j] == before[s]@[j]);
                } else {
                    assert(after[s]@[j] == before[s]@[j]);
                    assert(after[s]@[k] == before[s]@[k]);
                }
            }
            assert forall|x: int| 0 <= x < i + 1 implies #[trigger] dealt(after, x) by {
                let s = x % (after.len() as int);
                if x == i {
                    let j = before[w as int]@.len() as int;
                    assert(after[s]@[j] == x);
                } else {
                    assert(dealt(before, x));
                    let j = choose|j: int|
                        0 <= j < before[s]@.len() && #[trigger] before[s]@[j] == x;
                    assert(after[s]@[j] == x);
                }
            }
        }
        i += 1;
    }
    shards
}

/// A copy of a sentence.
pub fn clone_sentence(sentence: &Vec<String>) -> (r: Vec<String>)
    ensures
        views(r@) == views(sentence@),
        r@.len() == sentence@.len(),
{
    let mut out: Vec<String> = Vec::new();
    let mut i: usize = 0;
    while i < sentence.len()
        invariant
            i <= sentence.len(),
            out@.len() == i,
            forall|j: int| 0 <= j < i ==> (#[trigger] out@[j])@ == sentence@[j]@,
        decreases sentence.len() - i,
    {
        out.push(sentence[i].clone());
        i += 1;
    }
    assert(views(out@) =~= views(sentence@));
    out
}

/// No sentence of the batch is too long to take the terminal word.
pub open spec fn batch_fits(sentences: Seq<Vec<String>>) -> bool {
    forall|i: int| 0 <= i < sentences.len() ==> (#[trigger] sentences[i])@.len() < usize::MAX
}

/// Tags every sentence of a batch, one after the other.
pub fn evaluate(model: &POSTaggingHMM, sentences: &Vec<Vec<String>>) -> (r: Vec<
    Vec<(String, String)>,
>)
    requires
        model.wf(),
        batch_fits(sentences@),
    ensures
        r@.len() == sentences@.len(),
        forall|i: int|
            0 <= i < r@.len() ==> pairs((#[trigger] r@[i])@) == decoded(
                model@,
                views(sentences@[i]@),
            ),
{
    let mut out: Vec<Vec<(String, String)>> = Vec::new();
    let mut i: usize = 0;
    while i < sentences.len()
        invariant
            i <= sentences.len(),
            model.wf(),
            batch_fits(sentences@),
            out@.len() == i,
            forall|j: int|
                0 <= j < i ==> pairs((#[trigger] out@[j])@) == decoded(
                    model@,
                    views(sentences@[j]@),
                ),
        decreases sentences.len() - i,
    {
        assert(sentences@[i as int]@.len() < usize::MAX);
        out.push(model.predict(clone_sentence(&sentences[i])));
        i += 1;
    }
    out
}

/// The work of one worker: tags the sentences of a shard and hands each
/// tagging back with the index of its sentence.
pub fn predict_shard(
    model: &POSTaggingHMM,
    sentences: &Vec<Vec<String>>,
    shard: &Vec<usize>,
) -> (r: Vec<(usize, Vec<(String, String)>)>)
    requires
        model.wf(),
        batch_fits(sentences@),
        forall|j: int| 0 <= j < shard@.len() ==> (#[trigger] shard@[j]) < sentences@.len(),
    ensures
        r@.len() == shard@.len(),
        forall|j: int|
            0 <= j < r@.len() ==> (#[trigger] r@[j]).0 == shard@[j] && pairs(r@[j].1@) == decoded(
                model@,
                views(sentences@[shard@[j] as int]@),
            ),
{
    let mut out: Vec<(usize, Vec<(String, String)>)> = Vec::new();
    let mut j: usize = 0;
    while j < shard.len()
        invariant
            j <= shard.len(),
            model.wf(),
            batch_fits(sentences@),
            forall|k: int| 0 <= k < shard@.len() ==> (#[trigger] shard@[k]) < sentences@.len(),
            out@.len() == j,
            forall|k: int|
                0 <= k < j ==> (#[trigger] out@[k]).0 == shard@[k] && pairs(out@[k].1@) == decoded(
                    model@,
                    views(sentences@[shard@[k] as int]@),
                ),
        decreases shard.len() - j,
    {
        let at: usize = shard[j];
        assert(sentences@[at as int]@.len() < usize::MAX);
        out.push((at, model.predict(clone_sentence(&sentences[at]))));
        j += 1;
    }
    out
}

/// The number of places at which the predicted tag is the right one.
pub open spec fn agreeing(predicted: Seq<(Seq<char>, Seq<char>)>, answer: Seq<Seq<char>>) -> nat
    decreases predicted.len(),
{
    if predicted.len() == 0 {
        0
    } else {
        agreeing(predicted.drop_last(), answer) + if predicted.last().1 == answer[predicted.len()
            - 1] {
            1nat
        } else {
            0nat
        }
    }
}

/// Counts the words of a tagged sentence whose tag is the right one.
pub fn count_correct(predicted: &Vec<(String, String)>, answer: &Vec<String>) -> (r: usize)
    requires
        predicted@.len() == answer@.len(),
    ensures
        r == agreeing(pairs(predicted@), views(answer@)),
        r <= predicted@.len(),
{
    let ghost p = pairs(predicted@);
    let ghost a = views(answer@);
    let mut correct: usize = 0;
    let mut i: usize = 0;
    assert(p.take(0) == Seq::<(Seq<char>, Seq<char>)>::empty());
    while i < predicted.len()
        invariant
            i <= predicted@.len(),
            predicted@.len() == answer@.len(),
            p == pairs(predicted@),
            a == views(answer@),
            correct == agreeing(p.take(i as int), a),
            correct <= i,
        decreases predicted@.len() - i,
    {
        proof {
            assert(p.take(i + 1).drop_last() == p.take(i as int));
            assert(p.take(i + 1).last() == p[i as int]);
            assert(p[i as int].1 == predicted@[i as int].1@);
            assert(a[i as int] == answer@[i as int]@);
        }
        if predicted[i].1 == answer[i] {
            correct += 1;
        }
        i += 1;
    }
    assert(p.take(predicted@.len() as int) == p);
    correct
}

/// One of the results stands for the sentence at `i`.
pub open spec fn answered<T>(results: Seq<(usize, T)>, i: int) -> bool {
    exists|k: int| 0 <= k < results.len() && (#[trigger] results[k]).0 == i
}

/// The results are those of a whole batch of `n`: every index below `n`
/// stands on exactly one of them, and no other index on any.
pub open spec fn is_complete<T>(results: Seq<(usize, T)>, n: nat) -> bool {
    &&& forall|k: int| 0 <= k < results.len() ==> (#[trigger] results[k]).0 < n
    &&& forall|a: int, b: int|
        0 <= a < b < results.len() ==> (#[trigger] results[a]).0 != (#[trigger] results[b]).0
    &&& forall|i: int| 0 <= i < n ==> #[trigger] answered(results, i)
}

/// Puts the results of the workers back in the order of the batch.
///
/// Returns `None` where the results are not those of a whole batch, so
/// that a lost or doubled result is never passed over.
pub fn collect_in_order(results: Vec<(usize, Vec<(String, String)>)>, n: usize) -> (r: Option<
    Vec<Vec<(String, String)>>,
>)
    ensures
        r is Some <==> is_complete(results@, n as nat),
        r is Some ==> r->0@.len() == n && forall|k: int|
            0 <= k < results@.len() ==> r->0@[(#[trigger] results@[k]).0 as int] == results@[k].1,
{
    let mut slots: Vec<Option<Vec<(String, String)>>> = Vec::new();
    let mut i: usize = 0;
    while i < n
        invariant
            i <= n,
            slots@.len() == i,
            forall|j: int| 0 <= j < i ==> (#[trigger] slots@[j]) is None,
        decreases n - i,
    {
        slots.push(None);
        i += 1;
    }
    let mut pending = results;
    while pending.len() > 0
        invariant
            pending@.len() <= results@.len(),
            pending@ == results@.take(pending@.len() as int),
            slots@.len() == n,
            forall|k: int|
                pending@.len() <= k < results@.len() ==> (#[trigger] results@[k]).0 < n
                    && slots@[results@[k].0 as int] == Some(results@[k].1),
            forall|a: int, b: int|
                pending@.len() <= a < b < results@.len() ==> (#[trigger] results@[a]).0 != (
                #[trigger] results@[b]).0,
            forall|j: int|
                0 <= j < n && (#[trigger] slots@[j]) is Some ==> exists|k: int|
                    pending@.len() <= k < results@.len() && (#[trigger] results@[k]).0 == j,
        decreases pending@.len(),
    {
        let ghost at = pending@.len() - 1;
        let ghost before = slots@;
        let (index, tagging) = pending.pop().unwrap();
        assert(results@[at] == (index, tagging));
        if index >= n {
            return None;
        }
        let mut slot: Option<Vec<(String, String)>> = Some(tagging);
        std::mem::swap(&mut slot, &mut slots[index]);
        if slot.is_some() {
            proof {
                let k = choose|k: int| at < k < results@.len() && (#[trigger] results@[k]).0 == index;
                assert(results@[at].0 == results@[k].0);
            }
            return None;
        }
        proof {
            assert forall|k: int| at <= k < results@.len() implies (#[trigger] results@[k]).0 < n
                && slots@[results@[k].0 as int] == Some(results@[k].1) by {
                if k > at {
                    assert(before[results@[k].0 as int] == Some(results@[k].1));
                    assert(results@[k].0 != index);
                }
            }
            assert forall|a: int, b: int| at <= a < b < results@.len() implies (
            #[trigger] results@[a]).0 != (#[trigger] results@[b]).0 by {
                if a == at {
                    assert(before[results@[b].0 as int] == Some(results@[b].1));
                }
            }
            assert forall|j: int| 0 <= j < n && (#[trigger] slots@[j]) is Some implies exists|
                k: int,
            |
                at <= k < results@.len() && (#[trigger] results@[k]).0 == j by {
                if j == index {
                    assert(results@[at].0 == j);
                } else {
                    assert(before[j] is Some);
                    let k = choose|k: int|
                        at < k < results@.len() && (#[trigger] results@[k]).0 == j;
                    assert(results@[k].0 == j);
                }
            }
        }
    }
    let ghost filled = slots@;
    proof {
        assert forall|j: int| 0 <= j < n && (#[trigger] filled[j]) is Some implies answered(
            results@,
            j,
        ) by {
            let k = choose|k: int| 0 <= k < results@.len() && (#[trigger] results@[k]).0 == j;
            assert(results@[k].0 == j);
        }
    }
    let mut out: Vec<Vec<(String, String)>> = Vec::new();
    let mut j: usize = 0;
    while j < n
        invariant
            j <= n,
            slots@.len() == n,
            filled.len() == n,
            out@.len() == j,
            forall|k: int| 0 <= k < j ==> filled[k] == Some(#[trigger] out@[k]),
            forall|k: int| j <= k < n ==> #[trigger] slots@[k] == filled[k],
            forall|k: int| 0 <= k < n && (#[trigger] filled[k]) is Some ==> answered(results@, k),
            forall|k: int|
                0 <= k < results@.len() ==> (#[trigger] results@[k]).0 < n
                    && filled[results@[k].0 as int] == Some(results@[k].1),
            forall|a: int, b: int|
                0 <= a < b < results@.len() ==> (#[trigger] results@[a]).0 != (
                #[trigger] results@[b]).0,
        decreases n - j,
    {
        let mut slot: Option<Vec<(String, String)>> = None;
        std::mem::swap(&mut slot, &mut slots[j]);
        match slot {
            Some(tagging) => {
                out.push(tagging);
            },
            None => {
                assert(filled[j as int] is None);
                assert forall|k: int| 0 <= k < results@.len() implies (#[trigger] results@[k]).0
                    != j by {
                    assert(filled[results@[k].0 as int] is Some);
                }
                assert(!answered(results@, j as int));
                return None;
            },
        }
        j += 1;
    }
    proof {
        assert forall|i: int| 0 <= i < n implies #[trigger] answered(results@, i) by {
            assert(filled[i] == Some(out@[i]));
        }
        assert forall|k: int| 0 <= k < results@.len() implies out@[(
        #[trigger] results@[k]).0 as int] == results@[k].1 by {
            assert(filled[results@[k].0 as int] == Some(results@[k].1));
        }
    }
    Some(out)
}

/// Whatever order the results of a whole batch arrive in, putting each
/// where its index says gives the taggings that tagging the batch sentence
/// by sentence gives, in the same order.
pub proof fn lemma_order_preserved(
    model: POSTaggingHMM,
    sentences: Seq<Vec<String>>,
    results: Seq<(usize, Vec<(String, String)>)>,
    collected: Seq<Vec<(String, String)>>,
)
    requires
        is_complete(results, sentences.len()),
        forall|k: int|
            0 <= k < results.len() ==> pairs((#[trigger] results[k]).1@) == decoded(
                model@,
                views(sentences[results[k].0 as int]@),
            ),
        collected.len() == sentences.len(),
        forall|k: int|
            0 <= k < results.len() ==> collected[(#[trigger] results[k]).0 as int] == results[k].1,
    ensures
        forall|i: int|
            0 <= i < sentences.len() ==> pairs((#[trigger] collected[i])@) == decoded(
                model@,
                views(sentences[i]@),
            ),
{
    assert forall|i: int| 0 <= i < sentences.len() implies pairs((#[trigger] collected[i])@)
        == decoded(model@, views(sentences[i]@)) by {
        assert(answered(results, i));
        let k = choose|k: int| 0 <= k < results.len() && (#[trigger] results[k]).0 == i;
        assert(collected[results[k].0 as int] == results[k].1);
    }
}

/// Tags a batch as `workers` workers do: the batch is dealt out into
/// shards, every shard is tagged by itself, and the results are put back
/// in the order of the batch.
///
/// Here the shards are tagged one after the other. A caller that has
/// threads gives each shard to a thread, which calls `predict_shard`, and
/// puts what the threads send back in order with `collect_in_order`. The
/// result is that of tagging the batch sentence by sentence, whatever the
/// number of workers.
pub fn par_evaluate(model: &POSTaggingHMM, sentences: &Vec<Vec<String>>, workers: usize) -> (r:
    Vec<Vec<(String, String)>>)
    requires
        model.wf(),
        batch_fits(sentences@),
        workers >= 1,
    ensures
        r@.len() == sentences@.len(),
        forall|i: int|
            0 <= i < r@.len() ==> pairs((#[trigger] r@[i])@) == decoded(
                model@,
                views(sentences@[i]@),
            ),
{
    let n: usize = sentences.len();
    let shards = partition(n, workers);
    let mut results: Vec<(usize, Vec<(String, String)>)> = Vec::new();
    let mut s: usize = 0;
    while s < workers
        invariant
            s <= workers,
            workers >= 1,
            n == sentences@.len(),
            model.wf(),
            batch_fits(sentences@),
            shards@.len() == workers,
            is_partition(shards@, n as nat),
            forall|k: int|
                0 <= k < results@.len() ==> (#[trigger] results@[k]).0 < n && results@[k].0
                    % workers < s && pairs(results@[k].1@) == decoded(
                    model@,
                    views(sentences@[results@[k].0 as int]@),
                ),
            forall|a: int, b: int|
                0 <= a < b < results@.len() ==> (#[trigger] results@[a]).0 != (
                #[trigger] results@[b]).0,
            forall|i: int| 0 <= i < n && i % (workers as int) < s ==> #[trigger] answered(results@, i),
        decreases workers - s,
    {
        let ghost before = results@;
        let ghost shard = shards@[s as int]@;
        assert forall|j: int| 0 <= j < shard.len() implies (#[trigger] shard[j]) < sentences@.len() by {
            assert(shards@[s as int]@[j] < n);
        }
        let mut part = predict_shard(model, sentences, &shards[s]);
        let ghost added = part@;
        results.append(&mut part);
        proof {
            let after = results@;
            assert(after == before + added);
            assert forall|k: int| 0 <= k < after.len() implies (#[trigger] after[k]).0 < n
                && after[k].0 % workers < s + 1 && pairs(after[k].1@) == decoded(
                model@,
                views(sentences@[after[k].0 as int]@),
            ) by {
                if k < before.len() {
                    assert(after[k] == before[k]);
                } else {
                    let j = k - before.len();
                    assert(after[k] == added[j]);
                    assert(added[j].0 == shards@[s as int]@[j]);
                }
            }
            assert forall|a: int, b: int| 0 <= a < b < after.len() implies (#[trigger] after[a]).0
                != (#[trigger] after[b]).0 by {
                if b < before.len() {
                    assert(after[a] == before[a] && after[b] == before[b]);
                } else {
                    let jb = b - before.len();
                    assert(after[b] == added[jb]);
                    assert(added[jb].0 == shards@[s as int]@[jb]);
                    if a < before.len() {
                        assert(after[a] == before[a]);
                        assert(before[a].0 % workers < s);
                    } else {
                        let ja = a - before.len();
                        assert(after[a] == added[ja]);
                        assert(added[ja].0 == shards@[s as int]@[ja]);
                        assert(shards@[s as int]@[ja] < shards@[s as int]@[jb]);
                    }
                }
            }
            assert forall|i: int| 0 <= i < n && i % (workers as int) < s + 1 implies #[trigger] answered(
                after,
                i,
            ) by {
                if i % (workers as int) < s {
                    assert(answered(before, i));
                    let k = choose|k: int| 0 <= k < before.len() && (#[trigger] before[k]).0 == i;
                    assert(after[k] == before[k]);
                } else {
                    assert(dealt(shards@, i));
                    let j = choose|j: int| 0 <= j < shard.len() && #[trigger] shard[j] == i;
                    assert(added[j].0 == shard[j]);
                    assert(after[before.len() + j] == added[j]);
                }
            }
        }
        s += 1;
    }
    assert forall|i: int| 0 <= i < n implies #[trigger] answered(results@, i) by {
        assert(i % (workers as int) < workers);
    }
    let ghost all = results@;
    match collect_in_order(results, n) {
        Some(collected) => {
            proof {
                lemma_order_preserved(*model, sentences@, all, collected@);
            }
            collected
        },
        None => Vec::new(),
    }
}

} // verus!
