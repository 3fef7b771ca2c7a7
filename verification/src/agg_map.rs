//! The map from keys to aggregates, and the fold of a chunk of records
//! into it.

use crate::aggregate::{lemma_merge_wf, Aggregate, Summary};
use crate::fold::{fold, lemma_fold_front, merged, merged_all, upsert};
use crate::record::{
    find_line_start, lemma_last_index_of, lemma_value_of_record, parse_record, record_of,
    records_of, scan, FormatError, Record, NEWLINE, VALUE_MAX,
};
use crate::table::{
    key_from_slice, lists, table_clone, table_entries, table_get, table_get_mut, table_insert,
    table_len, table_new, table_to_vec, Table, KEY_CAPACITY,
};
use vstd::prelude::*;
use vstd::slice::slice_subrange;

verus! {

/// The most input, in bytes, that may be folded into one map. A record takes
/// at least one byte and its value is at most [`VALUE_MAX`] in size, so
/// within this limit no count exceeds the limit and no sum exceeds
/// `VALUE_MAX` times the limit, which an `i64` still holds.
pub const MAX_INPUT: u64 = 9_000_000_000_000_000;

/// Whether a map that has consumed `consumed` bytes can take `input` as
/// well.
pub open spec fn fits(consumed: u64, input: Seq<u8>) -> bool {
    consumed + input.len() <= MAX_INPUT
}

/// What folding `input` into a map that has consumed `consumed` bytes
/// returns: `InputTooLarge` if the input does not fit, else the fault that
/// the backward scan of the input meets, if it meets one.
pub open spec fn fold_result(consumed: u64, input: Seq<u8>) -> Result<(), FormatError> {
    if !fits(consumed, input) {
        Err(FormatError::InputTooLarge)
    } else {
        match scan(input).error {
            None => Ok(()),
            Some(e) => Err(e),
        }
    }
}

/// What holds of every summary that a map keeps: it summarises at least one
/// value, and all its values lie within the range of the grammar.
pub open spec fn summary_ok(s: Summary) -> bool {
    &&& s.wf()
    &&& s.count >= 1
    &&& -VALUE_MAX <= s.min
    &&& s.max <= VALUE_MAX
}

/// A map from keys to the aggregates of their values.
pub struct AggMap {
    table: Table,
    consumed: u64,
}

impl View for AggMap {
    type V = Map<Seq<u8>, Summary>;

    /// What the map holds: for each key, by its bytes, the summary of the
    /// values recorded under it.
    closed spec fn view(&self) -> Map<Seq<u8>, Summary> {
        table_entries(self.table).map_values(|a: Aggregate| a@)
    }
}

impl AggMap {
    /// The number of input bytes that have been folded into the map.
    pub closed spec fn spec_consumed(&self) -> u64 {
        self.consumed
    }

    /// The invariant of the entries: the keys are finitely many, each is a
    /// key that the grammar allows, and each summary is as `summary_ok` says,
    /// of no more than `bound` values.
    spec fn inv(&self, bound: nat) -> bool {
        &&& table_entries(self.table).dom().finite()
        &&& forall|k: Seq<u8>| #[trigger]
            table_entries(self.table).contains_key(k) ==> {
                &&& 1 <= k.len() <= KEY_CAPACITY
                &&& summary_ok(table_entries(self.table)[k]@)
                &&& table_entries(self.table)[k].count <= bound
            }
    }

    /// Whether the map is well formed: its keys are finitely many, each is a
    /// key that the grammar allows, each summary is as [`summary_ok`] says,
    /// of no more values than bytes were consumed, and the input consumed is
    /// within [`MAX_INPUT`]. [`AggMap::lemma_wf`] states this over the view.
    pub closed spec fn wf(&self) -> bool {
        &&& self.consumed <= MAX_INPUT
        &&& self.inv(self.consumed as nat)
    }

    /// What well-formedness means for a reader of the map.
    pub proof fn lemma_wf(&self)
        requires
            self.wf(),
        ensures
            self.spec_consumed() <= MAX_INPUT,
            self@.dom().finite(),
            forall|k: Seq<u8>| #[trigger]
                self@.contains_key(k) ==> {
                    &&& 1 <= k.len() <= KEY_CAPACITY
                    &&& summary_ok(self@[k])
                    &&& self@[k].count <= self.spec_consumed()
                },
    {
        assert(self@.dom() =~= table_entries(self.table).dom());
    }

    /// A map that holds nothing.
    pub fn new() -> (m: AggMap)
        ensures
            m@ == Map::<Seq<u8>, Summary>::empty(),
            m.wf(),
            m.spec_consumed() == 0,
    {
        let m = AggMap { table: table_new(), consumed: 0 };
        assert(m@ =~= Map::<Seq<u8>, Summary>::empty());
        m
    }

    /// The number of input bytes that have been folded into the map.
    #[verifier::when_used_as_spec(spec_consumed)]
    pub fn consumed(&self) -> (n: u64)
        ensures
            n == self.spec_consumed(),
    {
        self.consumed
    }

    /// The number of keys.
    pub fn len(&self) -> (n: usize)
        ensures
            n == self@.dom().len(),
    {
        assert(self@.dom() =~= table_entries(self.table).dom());
        table_len(&self.table)
    }

    /// The aggregate kept under `key`, if the key has occurred.
    pub fn get(&self, key: &[u8]) -> (r: Option<Aggregate>)
        ensures
            r.is_some() == self@.contains_key(key@),
            r matches Some(a) ==> a@ == self@[key@],
    {
        table_get(&self.table, key)
    }

    /// The entries of the map, in no particular order.
    pub fn entries(&self) -> (v: Vec<(Vec<u8>, Aggregate)>)
        ensures
            is_listing(entry_views(v@), self@),
    {
        let v = table_to_vec(&self.table);
        proof {
            let e = entry_views(v@);
            let t = table_entries(self.table);
            assert forall|k: Seq<u8>| #[trigger] self@.contains_key(k) implies exists|i: int|
                0 <= i < e.len() && #[trigger] e[i].0 == k by {
                assert(t.contains_key(k));
                let i = choose|i: int| 0 <= i < v@.len() && #[trigger] v@[i].0@ == k;
                assert(e[i].0 == k);
            }
            assert forall|i: int, j: int| 0 <= i < j < e.len() implies #[trigger] e[i].0
                != #[trigger] e[j].0 by {
                assert(v@[i].0@ != v@[j].0@);
            }
            assert forall|i: int| 0 <= i < e.len() implies self@.contains_key(#[trigger] e[i].0)
                && self@[e[i].0] == e[i].1 by {
                assert(t.contains_key(v@[i].0@));
            }
        }
        v
    }

    /// Counts `n` more bytes of input as consumed, without folding any
    /// record.
    pub(crate) fn account(&mut self, n: usize)
        requires
            old(self).wf(),
            old(self).spec_consumed() + n <= MAX_INPUT,
        ensures
            final(self).wf(),
            final(self)@ == old(self)@,
            final(self).spec_consumed() == old(self).spec_consumed() + n,
    {
        self.consumed = self.consumed + n as u64;
    }

    /// Records one value under `key`.
    fn upsert(&mut self, key: &[u8], value: i64, Ghost(bound): Ghost<nat>)
        requires
            old(self).inv(bound),
            bound < MAX_INPUT,
            1 <= key@.len() <= KEY_CAPACITY,
            -VALUE_MAX <= value <= VALUE_MAX,
        ensures
            final(self).inv(bound + 1),
            final(self)@ == upsert(old(self)@, key@, value as int),
            final(self).consumed == old(self).consumed,
    {
        let ghost before = table_entries(self.table);
        match table_get_mut(&mut self.table, key) {
            Some(a) => {
                proof {
                    lemma_sum_range(a@);
                    assert(a.count <= bound);
                    assert(-999 * a.count <= a.sum <= 999 * a.count);
                }
                a.insert(value);
            },
            None => {
                match key_from_slice(key) {
                    Some(k) => {
                        table_insert(&mut self.table, k, Aggregate::single(value));
                    },
                    None => {},
                }
            },
        }
        proof {
            let after = table_entries(self.table);
            let s = if before.contains_key(key@) {
                before[key@]@.insert(value as int)
            } else {
                Summary::single(value as int)
            };
            assert(after.contains_key(key@) && after[key@]@ == s);
            assert(after.dom() =~= before.dom().insert(key@));
            assert(forall|k: Seq<u8>| k != key@ && before.contains_key(k) ==> after[k] == before[k]);
            assert(self@ =~= upsert(old(self)@, key@, value as int));
        }
    }
}

/// The items of a list of entries as plain values: the bytes of each key
/// and the summary of its aggregate.
pub open spec fn entry_views(v: Seq<(Vec<u8>, Aggregate)>) -> Seq<(Seq<u8>, Summary)> {
    Seq::new(v.len(), |i: int| (v[i].0@, v[i].1@))
}

/// Whether `v` lists the entries of `m`: each item is an entry of `m`, no key
/// comes twice, and no entry of `m` is left out.
pub open spec fn is_listing(v: Seq<(Seq<u8>, Summary)>, m: Map<Seq<u8>, Summary>) -> bool {
    &&& forall|i: int| 0 <= i < v.len() ==> m.contains_key(#[trigger] v[i].0) && m[v[i].0] == v[i].1
    &&& forall|i: int, j: int| 0 <= i < j < v.len() ==> #[trigger] v[i].0 != #[trigger] v[j].0
    &&& forall|k: Seq<u8>| #[trigger]
        m.contains_key(k) ==> exists|i: int| 0 <= i < v.len() && #[trigger] v[i].0 == k
}

/// Whether one of the first `upto` items of `entries` has the key `k`.
spec fn listed(entries: Seq<(Vec<u8>, Aggregate)>, upto: int, k: Seq<u8>) -> bool {
    exists|j: int| 0 <= j < upto && #[trigger] entries[j].0@ == k
}

impl AggMap {
    /// Takes in everything that `other` holds: a key of both maps gets the
    /// merge of its two aggregates, a key of `other` alone is added with its
    /// aggregate.
    ///
    /// If the two maps together have consumed more than [`MAX_INPUT`], the
    /// result is `InputTooLarge` and nothing changes.
    pub fn merge(&mut self, other: &AggMap) -> (r: Result<(), FormatError>)
        requires
            old(self).wf(),
            other.wf(),
        ensures
            final(self).wf(),
            r == if old(self).spec_consumed() + other.spec_consumed() <= MAX_INPUT {
                Ok::<(), FormatError>(())
            } else {
                Err(FormatError::InputTooLarge)
            },
            r.is_ok() ==> final(self)@ == merged(old(self)@, other@),
            r.is_ok() ==> final(self).spec_consumed() == old(self).spec_consumed()
                + other.spec_consumed(),
            r.is_err() ==> final(self)@ == old(self)@,
            r.is_err() ==> final(self).spec_consumed() == old(self).spec_consumed(),
    {
        if other.consumed > MAX_INPUT - self.consumed {
            return Err(FormatError::InputTooLarge);
        }
        let entries = table_to_vec(&other.table);
        let ghost mine = table_entries(self.table);
        let ghost theirs = table_entries(other.table);
        let ghost base = self.consumed as nat;
        self.consumed = self.consumed + other.consumed;
        let mut i: usize = 0;
        while i < entries.len()
            invariant
                i <= entries@.len(),
                lists(entries@, theirs),
                mine == table_entries(old(self).table),
                theirs == table_entries(other.table),
                old(self).inv(base),
                other.inv(other.consumed as nat),
                base + other.consumed == self.consumed <= MAX_INPUT,
                table_entries(self.table).dom().finite(),
                forall|k: Seq<u8>| #[trigger]
                    table_entries(self.table).contains_key(k) <==> mine.contains_key(k) || listed(
                        entries@,
                        i as int,
                        k,
                    ),
                forall|k: Seq<u8>|
                    mine.contains_key(k) && !listed(entries@, i as int, k) ==> #[trigger] table_entries(
                        self.table,
                    )[k] == mine[k],
                forall|k: Seq<u8>|
                    listed(entries@, i as int, k) ==> (#[trigger] table_entries(self.table)[k])@
                        == if mine.contains_key(k) {
                        mine[k]@.merge(theirs[k]@)
                    } else {
                        theirs[k]@
                    },
            decreases entries@.len() - i,
        {
            let key = entries[i].0.as_slice();
            let agg = entries[i].1;
            let ghost k0 = entries@[i as int].0@;
            let ghost now = table_entries(self.table);
            proof {
                assert(theirs.contains_key(k0) && theirs[k0] == agg);
                assert(!listed(entries@, i as int, k0));
                if mine.contains_key(k0) {
                    lemma_sum_range(mine[k0]@);
                }
                lemma_sum_range(agg@);
            }
            match table_get_mut(&mut self.table, key) {
                Some(a) => {
                    a.merge(agg);
                },
                None => {
                    match key_from_slice(key) {
                        Some(k) => {
                            table_insert(&mut self.table, k, agg);
                        },
                        None => {},
                    }
                },
            }
            proof {
                let next = table_entries(self.table);
                assert(next.dom() =~= now.dom().insert(k0));
                assert(forall|k: Seq<u8>| k != k0 && now.contains_key(k) ==> next[k] == now[k]);
                assert forall|k: Seq<u8>| listed(entries@, i + 1, k) <==> k == k0 || listed(
                    entries@,
                    i as int,
                    k,
                ) by {
                    if listed(entries@, i + 1, k) {
                        let j = choose|j: int| 0 <= j < i + 1 && #[trigger] entries@[j].0@ == k;
                        if j < i {
                            assert(listed(entries@, i as int, k));
                        }
                    }
                    if k == k0 {
                        assert(entries@[i as int].0@ == k);
                    }
                    if listed(entries@, i as int, k) {
                        let j = choose|j: int| 0 <= j < i && #[trigger] entries@[j].0@ == k;
                        assert(0 <= j < i + 1 && entries@[j].0@ == k);
                    }
                }
            }
            i += 1;
        }
        proof {
            let last = table_entries(self.table);
            assert forall|k: Seq<u8>| theirs.contains_key(k) <==> listed(
                entries@,
                entries@.len() as int,
                k,
            ) by {
                if theirs.contains_key(k) {
                    let j = choose|j: int| 0 <= j < entries@.len() && #[trigger] entries@[j].0@ == k;
                    assert(0 <= j < entries@.len() && entries@[j].0@ == k);
                }
                if listed(entries@, entries@.len() as int, k) {
                    let j = choose|j: int| 0 <= j < entries@.len() && #[trigger] entries@[j].0@ == k;
                    assert(theirs.contains_key(entries@[j].0@));
                }
            }
            assert(self@ =~= merged(old(self)@, other@));
            assert forall|k: Seq<u8>| #[trigger] last.contains_key(k) implies {
                &&& 1 <= k.len() <= KEY_CAPACITY
                &&& summary_ok(last[k]@)
                &&& last[k].count <= self.consumed
            } by {
                if listed(entries@, entries@.len() as int, k) {
                    assert(theirs.contains_key(k));
                    if mine.contains_key(k) {
                        lemma_merge_wf(mine[k]@, theirs[k]@);
                    }
                } else {
                    assert(mine.contains_key(k));
                }
            }
        }
        Ok(())
    }
}

/// Merges two maps into one, as [`AggMap::merge`] does. If the two together
/// have consumed more than [`MAX_INPUT`], the result is `InputTooLarge`.
pub fn merge_chunks(a: AggMap, b: AggMap) -> (r: Result<AggMap, FormatError>)
    requires
        a.wf(),
        b.wf(),
    ensures
        r.is_ok() <==> a.spec_consumed() + b.spec_consumed() <= MAX_INPUT,
        r matches Err(e) ==> e == FormatError::InputTooLarge,
        r matches Ok(m) ==> {
            &&& m.wf()
            &&& m@ == merged(a@, b@)
            &&& m.spec_consumed() == a.spec_consumed() + b.spec_consumed()
        },
{
    let mut a = a;
    match a.merge(&b) {
        Ok(()) => Ok(a),
        Err(e) => Err(e),
    }
}

/// The maps of a list of maps.
pub open spec fn views(parts: Seq<AggMap>) -> Seq<Map<Seq<u8>, Summary>> {
    Seq::new(parts.len(), |i: int| parts[i]@)
}

/// The input that a list of maps has consumed, all maps together.
pub open spec fn total_consumed(parts: Seq<AggMap>) -> nat
    decreases parts.len(),
{
    if parts.len() == 0 {
        0
    } else {
        total_consumed(parts.drop_last()) + parts.last().spec_consumed() as nat
    }
}

/// The maps at the start of a list have consumed no more than all of them.
proof fn lemma_total_consumed_prefix(parts: Seq<AggMap>, n: int)
    requires
        0 <= n <= parts.len(),
    ensures
        total_consumed(parts.subrange(0, n)) <= total_consumed(parts),
    decreases parts.len(),
{
    if n == parts.len() {
        assert(parts.subrange(0, n) =~= parts);
    } else {
        lemma_total_consumed_prefix(parts.drop_last(), n);
        assert(parts.drop_last().subrange(0, n) =~= parts.subrange(0, n));
    }
}

/// Merges the maps of all workers into one, from the first to the last. If
/// all together have consumed more than [`MAX_INPUT`], the result is
/// `InputTooLarge`.
pub fn merge_all(parts: &Vec<AggMap>) -> (r: Result<AggMap, FormatError>)
    requires
        forall|i: int| 0 <= i < parts@.len() ==> (#[trigger] parts@[i]).wf(),
    ensures
        r.is_ok() <==> total_consumed(parts@) <= MAX_INPUT,
        r matches Err(e) ==> e == FormatError::InputTooLarge,
        r matches Ok(m) ==> {
            &&& m.wf()
            &&& m@ == merged_all(views(parts@))
            &&& m.spec_consumed() == total_consumed(parts@)
        },
{
    let mut acc = AggMap::new();
    let mut i: usize = 0;
    proof {
        assert(views(parts@.subrange(0, 0)) =~= Seq::empty());
    }
    while i < parts.len()
        invariant
            i <= parts@.len(),
            forall|j: int| 0 <= j < parts@.len() ==> (#[trigger] parts@[j]).wf(),
            acc.wf(),
            acc@ == merged_all(views(parts@.subrange(0, i as int))),
            acc.spec_consumed() == total_consumed(parts@.subrange(0, i as int)),
            acc.spec_consumed() <= MAX_INPUT,
        decreases parts@.len() - i,
    {
        proof {
            let next = parts@.subrange(0, i + 1);
            assert(next.drop_last() =~= parts@.subrange(0, i as int));
            assert(views(next).drop_last() =~= views(parts@.subrange(0, i as int)));
            assert(views(next).last() == parts@[i as int]@);
            lemma_total_consumed_prefix(parts@, i + 1);
        }
        match acc.merge(&parts[i]) {
            Ok(()) => {},
            Err(e) => {
                return Err(e);
            },
        }
        i += 1;
    }
    proof {
        assert(parts@.subrange(0, i as int) =~= parts@);
    }
    Ok(acc)
}

impl Clone for AggMap {
    /// A second map with the same entries, which has consumed as much.
    fn clone(&self) -> (m: AggMap)
        ensures
            m@ == self@,
            m.spec_consumed() == self.spec_consumed(),
            m.wf() == self.wf(),
    {
        AggMap { table: table_clone(&self.table), consumed: self.consumed }
    }
}

impl Default for AggMap {
    /// A map that holds nothing.
    fn default() -> (m: AggMap)
        ensures
            m@ == Map::<Seq<u8>, Summary>::empty(),
            m.wf(),
            m.spec_consumed() == 0,
    {
        AggMap::new()
    }
}

/// The sum of a summary whose values lie within the grammar's range lies
/// within `count` times that range.
pub proof fn lemma_sum_range(s: Summary)
    requires
        summary_ok(s),
    ensures
        -999 * s.count <= s.sum <= 999 * s.count,
{
    assert(s.count * s.min >= s.count * (-VALUE_MAX)) by (nonlinear_arith)
        requires
            s.min >= -VALUE_MAX,
            s.count >= 0,
    ;
    assert(s.count * s.max <= s.count * VALUE_MAX) by (nonlinear_arith)
        requires
            s.max <= VALUE_MAX,
            s.count >= 0,
    ;
    assert(s.count * (-VALUE_MAX) == -999 * s.count) by (nonlinear_arith)
        requires
            VALUE_MAX == 999,
    ;
    assert(s.count * VALUE_MAX == 999 * s.count) by (nonlinear_arith)
        requires
            VALUE_MAX == 999,
    ;
}

/// Folds every record of `chunk` into `totals`.
///
/// The chunk is read backward, line by line. If it is a run of complete
/// records, all of them are folded in and the result is `Ok`. Otherwise the
/// result is the fault of the last line that holds no record, and `totals`
/// has taken in the records that follow that line and no others. An empty
/// chunk changes nothing.
///
/// A chunk that would bring the input consumed above [`MAX_INPUT`] is not
/// read at all: the result is `InputTooLarge` and nothing changes.
pub fn process_chunk(chunk: &[u8], totals: &mut AggMap) -> (r: Result<(), FormatError>)
    requires
        old(totals).wf(),
    ensures
        final(totals).wf(),
        r == fold_result(old(totals).spec_consumed(), chunk@),
        final(totals)@ == if fits(old(totals).spec_consumed(), chunk@) {
            fold(old(totals)@, records_of(chunk@))
        } else {
            old(totals)@
        },
        final(totals).spec_consumed() == if fits(old(totals).spec_consumed(), chunk@) {
            old(totals).spec_consumed() + chunk@.len()
        } else {
            old(totals).spec_consumed() as int
        },
        chunk@.len() == 0 ==> r.is_ok() && final(totals)@ == old(totals)@,
{
    let n = chunk.len();
    if n as u64 > MAX_INPUT - totals.consumed {
        return Err(FormatError::InputTooLarge);
    }
    let ghost before = totals@;
    let ghost base = totals.consumed as nat;
    proof {
        totals.lemma_wf();
        assert(fold(before, Seq::<Record>::empty()) =~= before);
    }
    totals.consumed = totals.consumed + n as u64;
    if n > 0 && chunk[n - 1] != NEWLINE {
        return Err(FormatError::UnterminatedRecord);
    }
    let mut end = n;
    let ghost mut done: Seq<Record> = Seq::empty();
    proof {
        assert(chunk@.subrange(0, n as int) =~= chunk@);
    }
    while end > 0
        invariant
            end <= n == chunk@.len(),
            end > 0 ==> chunk@[end - 1] == NEWLINE,
            scan(chunk@).records == scan(chunk@.subrange(0, end as int)).records + done,
            scan(chunk@).error == scan(chunk@.subrange(0, end as int)).error,
            totals@ == fold(before, done),
            before == old(totals)@,
            base == old(totals).spec_consumed(),
            totals.consumed == base + n,
            base + n <= MAX_INPUT,
            totals.inv((base + (n - end)) as nat),
        decreases end,
    {
        let stop = end - 1;
        let start = find_line_start(chunk, stop);
        let line = slice_subrange(chunk, start, stop);
        let ghost prefix = chunk@.subrange(0, end as int);
        proof {
            assert(prefix.drop_last() =~= chunk@.subrange(0, stop as int));
            assert(prefix.drop_last().subrange(start as int, stop as int) =~= line@);
            assert(prefix.drop_last().subrange(0, start as int) =~= chunk@.subrange(
                0,
                start as int,
            ));
            if start > 0 {
                lemma_last_index_of(chunk@.subrange(0, stop as int), NEWLINE);
            }
        }
        match parse_record(line) {
            Err(e) => {
                proof {
                    assert(scan(prefix).records =~= Seq::<Record>::empty());
                    assert(scan(chunk@).records =~= done);
                }
                return Err(e);
            },
            Ok((key, value)) => {
                proof {
                    lemma_value_of_record(line@);
                }
                totals.upsert(key, value, Ghost((base + (n - end)) as nat));
                proof {
                    let r = record_of(line@)->Ok_0;
                    lemma_fold_front(before, r, done);
                    assert(scan(prefix).records == scan(chunk@.subrange(0, start as int)).records.push(r));
                    assert(scan(chunk@.subrange(0, start as int)).records.push(r) + done
                        =~= scan(chunk@.subrange(0, start as int)).records + (seq![r] + done));
                    done = seq![r] + done;
                }
            },
        }
        end = start;
    }
    proof {
        assert(scan(chunk@.subrange(0, 0)).records =~= Seq::<Record>::empty());
        assert(scan(chunk@).records =~= done);
    }
    Ok(())
}

} // verus!
