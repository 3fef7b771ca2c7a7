//! What a map of aggregates is, as a function of the records folded into it.
//!
//! The summary kept under a key is the summary of all values recorded under
//! that key, whatever the order in which they came and however they were
//! spread over chunks and workers.

use crate::aggregate::{lemma_insert_wf, Summary};
use crate::record::Record;
use vstd::prelude::*;

verus! {

/// The summary of the values that `recs` records under `key`.
pub open spec fn tally(recs: Seq<Record>, key: Seq<u8>) -> Summary
    decreases recs.len(),
{
    if recs.len() == 0 {
        Summary::empty()
    } else {
        let rest = tally(recs.drop_first(), key);
        if recs[0].key == key {
            rest.insert(recs[0].value as int)
        } else {
            rest
        }
    }
}

/// The map of summaries of `recs`: one entry for each key that occurs.
pub open spec fn collect(recs: Seq<Record>) -> Map<Seq<u8>, Summary> {
    Map::new(|k: Seq<u8>| tally(recs, k).count > 0, |k: Seq<u8>| tally(recs, k))
}

/// The union of two maps of summaries: a key of both holds the merge of its
/// two summaries, a key of one keeps its summary.
pub open spec fn merged(a: Map<Seq<u8>, Summary>, b: Map<Seq<u8>, Summary>) -> Map<
    Seq<u8>,
    Summary,
> {
    Map::new(
        |k: Seq<u8>| a.contains_key(k) || b.contains_key(k),
        |k: Seq<u8>|
            if a.contains_key(k) && b.contains_key(k) {
                a[k].merge(b[k])
            } else if a.contains_key(k) {
                a[k]
            } else {
                b[k]
            },
    )
}

/// The merge of a run of maps, from the first to the last.
pub open spec fn merged_all(maps: Seq<Map<Seq<u8>, Summary>>) -> Map<Seq<u8>, Summary>
    decreases maps.len(),
{
    if maps.len() == 0 {
        Map::empty()
    } else {
        merged(merged_all(maps.drop_last()), maps.last())
    }
}

/// The map `m` after the records `recs` have been folded into it.
pub open spec fn fold(m: Map<Seq<u8>, Summary>, recs: Seq<Record>) -> Map<Seq<u8>, Summary> {
    merged(m, collect(recs))
}

/// The map `m` after one value has been recorded under `key`: a first
/// occurrence starts a summary, a later one is recorded in the one at hand.
pub open spec fn upsert(m: Map<Seq<u8>, Summary>, key: Seq<u8>, value: int) -> Map<
    Seq<u8>,
    Summary,
> {
    m.insert(
        key,
        if m.contains_key(key) {
            m[key].insert(value)
        } else {
            Summary::single(value)
        },
    )
}

/// A tally is well formed, and empty exactly when the key does not occur.
pub proof fn lemma_tally_wf(recs: Seq<Record>, key: Seq<u8>)
    ensures
        tally(recs, key).wf(),
        tally(recs, key).bounded(),
        tally(recs, key).count <= recs.len(),
        tally(recs, key).count == 0 ==> tally(recs, key) == Summary::empty(),
    decreases recs.len(),
{
    if recs.len() > 0 {
        lemma_tally_wf(recs.drop_first(), key);
        if recs[0].key == key {
            lemma_insert_wf(tally(recs.drop_first(), key), recs[0].value as int);
        }
    }
}

/// The tally of two runs of records, one after the other, is the merge of
/// their tallies.
pub proof fn lemma_tally_concat(a: Seq<Record>, b: Seq<Record>, key: Seq<u8>)
    ensures
        tally(a + b, key) == tally(a, key).merge(tally(b, key)),
    decreases a.len(),
{
    lemma_tally_wf(b, key);
    if a.len() == 0 {
        assert(a + b =~= b);
    } else {
        assert((a + b).drop_first() =~= a.drop_first() + b);
        lemma_tally_concat(a.drop_first(), b, key);
    }
}

/// Folding one record in front of others is recording it in the map that
/// holds the others.
pub proof fn lemma_fold_front(m: Map<Seq<u8>, Summary>, r: Record, recs: Seq<Record>)
    ensures
        fold(m, seq![r] + recs) == upsert(fold(m, recs), r.key, r.value as int),
{
    let all = seq![r] + recs;
    assert(all.drop_first() =~= recs);
    assert(all[0] == r);
    lemma_tally_wf(recs, r.key);
    assert forall|k: Seq<u8>| #[trigger] tally(all, k) == if k == r.key {
        tally(recs, k).insert(r.value as int)
    } else {
        tally(recs, k)
    } by {}
    assert(fold(m, all) =~= upsert(fold(m, recs), r.key, r.value as int));
}

/// The summaries of two runs of records, one after the other, are the merge
/// of the summaries of each.
pub proof fn lemma_collect_concat(a: Seq<Record>, b: Seq<Record>)
    ensures
        collect(a + b) == merged(collect(a), collect(b)),
{
    assert forall|k: Seq<u8>| #[trigger]
        tally(a + b, k) == tally(a, k).merge(tally(b, k)) && tally(a, k).bounded() && tally(
            b,
            k,
        ).bounded() && (tally(a, k).count == 0 ==> tally(a, k) == Summary::empty()) && (tally(
            b,
            k,
        ).count == 0 ==> tally(b, k) == Summary::empty()) by {
        lemma_tally_concat(a, b, k);
        lemma_tally_wf(a, k);
        lemma_tally_wf(b, k);
    }
    assert(collect(a + b) =~= merged(collect(a), collect(b)));
}

/// Merging maps gives the same result in either order.
pub proof fn lemma_merged_commutative(a: Map<Seq<u8>, Summary>, b: Map<Seq<u8>, Summary>)
    ensures
        merged(a, b) == merged(b, a),
{
    assert(merged(a, b) =~= merged(b, a));
}

/// Merging three maps gives the same result however they are grouped.
pub proof fn lemma_merged_associative(
    a: Map<Seq<u8>, Summary>,
    b: Map<Seq<u8>, Summary>,
    c: Map<Seq<u8>, Summary>,
)
    ensures
        merged(merged(a, b), c) == merged(a, merged(b, c)),
{
    assert(merged(merged(a, b), c) =~= merged(a, merged(b, c)));
}

/// The empty map is the identity of merging.
pub proof fn lemma_merged_identity(a: Map<Seq<u8>, Summary>)
    ensures
        merged(a, Map::empty()) == a,
        merged(Map::empty(), a) == a,
{
    assert(merged(a, Map::empty()) =~= a);
    assert(merged(Map::empty(), a) =~= a);
}

/// Folding one run of records and then another is folding the two runs as
/// one.
pub proof fn lemma_fold_twice(m: Map<Seq<u8>, Summary>, a: Seq<Record>, b: Seq<Record>)
    ensures
        fold(fold(m, a), b) == fold(m, a + b),
{
    lemma_collect_concat(a, b);
    lemma_merged_associative(m, collect(a), collect(b));
}

/// Folding two runs of records gives the same map in either order.
pub proof fn lemma_fold_swap(m: Map<Seq<u8>, Summary>, a: Seq<Record>, b: Seq<Record>)
    ensures
        fold(m, a + b) == fold(m, b + a),
{
    lemma_collect_concat(a, b);
    lemma_collect_concat(b, a);
    lemma_merged_commutative(collect(a), collect(b));
}

} // verus!
