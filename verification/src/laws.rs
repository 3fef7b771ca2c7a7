//! What holds of the pipeline as a whole: the final map does not depend on
//! how the records were spread over chunks and workers, nor on where the
//! reader's buffers happened to cut the input.

use crate::aggregate::Summary;
use crate::chunk::cut_of;
use crate::fold::{
    collect, fold, lemma_collect_concat, lemma_fold_swap, lemma_fold_twice, lemma_merged_identity,
    lemma_tally_concat, lemma_tally_wf, merged_all, tally,
};
use crate::record::{
    lemma_last_index_is, lemma_last_index_of, lemma_scan_concat, lemma_well_formed_ends,
    records_of, well_formed, Record, NEWLINE,
};
use vstd::prelude::*;

verus! {

/// The summary kept for a key depends only on which records there are and
/// how often each occurs, not on their order.
pub proof fn lemma_tally_permutation(a: Seq<Record>, b: Seq<Record>, key: Seq<u8>)
    requires
        a.to_multiset() == b.to_multiset(),
    ensures
        tally(a, key) == tally(b, key),
    decreases a.len(),
{
    a.to_multiset_ensures();
    b.to_multiset_ensures();
    if a.len() == 0 {
        assert(b.len() == 0);
    } else {
        let r = a[0];
        assert(a.contains(r));
        assert(a.to_multiset().count(r) > 0);
        assert(b.to_multiset().count(r) > 0);
        assert(b.contains(r));
        let j = choose|j: int| 0 <= j < b.len() && b[j] == r;
        let a1 = a.drop_first();
        let b1 = b.remove(j);
        assert(a1 =~= a.remove(0));
        vstd::seq_lib::to_multiset_remove(a, 0);
        vstd::seq_lib::to_multiset_remove(b, j);
        lemma_tally_permutation(a1, b1, key);
        let front = b.subrange(0, j);
        let back = b.subrange(j + 1, b.len() as int);
        assert(b =~= front + (seq![r] + back));
        assert(b1 =~= front + back);
        lemma_tally_concat(front, seq![r] + back, key);
        lemma_tally_concat(front, back, key);
        assert((seq![r] + back).drop_first() =~= back);
        lemma_tally_wf(front, key);
        lemma_tally_wf(back, key);
    }
}

/// The map of summaries depends only on which records there are and how
/// often each occurs, not on their order.
pub proof fn lemma_collect_permutation(a: Seq<Record>, b: Seq<Record>)
    requires
        a.to_multiset() == b.to_multiset(),
    ensures
        collect(a) == collect(b),
{
    assert forall|k: Seq<u8>| #[trigger] tally(a, k) == tally(b, k) by {
        lemma_tally_permutation(a, b, k);
    }
    assert(collect(a) =~= collect(b));
}

/// All records of a run of batches, batch after batch.
pub open spec fn flatten(parts: Seq<Seq<Record>>) -> Seq<Record>
    decreases parts.len(),
{
    if parts.len() == 0 {
        Seq::empty()
    } else {
        flatten(parts.drop_last()) + parts.last()
    }
}

/// The maps that workers build, each from the batch of records it was given.
pub open spec fn collect_each(parts: Seq<Seq<Record>>) -> Seq<Map<Seq<u8>, Summary>> {
    Seq::new(parts.len(), |i: int| collect(parts[i]))
}

/// Merging the maps of any number of workers gives the map of all their
/// records taken together.
pub proof fn lemma_merged_all_collects(parts: Seq<Seq<Record>>)
    ensures
        merged_all(collect_each(parts)) == collect(flatten(parts)),
    decreases parts.len(),
{
    if parts.len() == 0 {
        assert(collect(Seq::<Record>::empty()) =~= Map::<Seq<u8>, Summary>::empty());
    } else {
        let head = parts.drop_last();
        lemma_merged_all_collects(head);
        assert(collect_each(parts).drop_last() =~= collect_each(head));
        lemma_collect_concat(flatten(head), parts.last());
    }
}

/// However a set of records is parted into batches for however many
/// workers, the merge of the workers' maps is the same: two partitions that
/// hold the same records, each as often, end in one map.
pub proof fn lemma_partition_independent(p: Seq<Seq<Record>>, q: Seq<Seq<Record>>)
    requires
        flatten(p).to_multiset() == flatten(q).to_multiset(),
    ensures
        merged_all(collect_each(p)) == merged_all(collect_each(q)),
{
    lemma_merged_all_collects(p);
    lemma_merged_all_collects(q);
    lemma_collect_permutation(flatten(p), flatten(q));
}

/// A run of complete records followed by more input holds its own records
/// and then those of what follows; the whole is a run of complete records
/// exactly when what follows is one.
pub proof fn lemma_records_concat(a: Seq<u8>, b: Seq<u8>)
    requires
        well_formed(a),
    ensures
        well_formed(a + b) == well_formed(b),
        well_formed(b) ==> records_of(a + b) == records_of(a) + records_of(b),
{
    lemma_well_formed_ends(a);
    lemma_scan_concat(a, b);
}

/// Cutting a stream of complete records at any byte, inside a record or
/// not, and splicing what the first buffer's cut left over onto the second
/// buffer loses nothing and adds nothing: the two chunks are well formed,
/// nothing is left over at the end, the chunks hold the records of the
/// stream, and folding one chunk after the other gives the map that folding
/// the uncut stream gives. The first buffer must hold a newline, as every
/// buffer must: a record longer than a buffer is refused.
pub proof fn lemma_split_splice(stream: Seq<u8>, at: int, m: Map<Seq<u8>, Summary>)
    requires
        well_formed(stream),
        0 <= at <= stream.len(),
        cut_of(stream.subrange(0, at)) > 0,
    ensures
        ({
            let first = stream.subrange(0, at);
            let second = stream.subrange(at, stream.len() as int);
            let chunk1 = first.subrange(0, cut_of(first));
            let carried = first.subrange(cut_of(first), first.len() as int);
            let chunk2 = carried + second.subrange(0, cut_of(second));
            let rest = second.subrange(cut_of(second), second.len() as int);
            &&& rest.len() == 0
            &&& well_formed(chunk1)
            &&& well_formed(chunk2)
            &&& records_of(chunk1) + records_of(chunk2) == records_of(stream)
            &&& fold(fold(m, records_of(chunk1)), records_of(chunk2)) == fold(m, records_of(stream))
            &&& fold(fold(m, records_of(chunk2)), records_of(chunk1)) == fold(m, records_of(stream))
        }),
{
    let first = stream.subrange(0, at);
    let second = stream.subrange(at, stream.len() as int);
    let chunk1 = first.subrange(0, cut_of(first));
    let carried = first.subrange(cut_of(first), first.len() as int);
    let chunk2 = carried + second.subrange(0, cut_of(second));
    lemma_last_index_of(first, NEWLINE);
    lemma_last_index_of(second, NEWLINE);
    if second.len() > 0 {
        assert(second.last() == stream.last());
        lemma_last_index_is(second, NEWLINE, second.len() - 1);
    } else {
        assert(first =~= stream);
        lemma_last_index_is(first, NEWLINE, first.len() - 1);
    }
    assert(second.subrange(0, cut_of(second)) =~= second);
    assert(chunk1 + chunk2 =~= stream);
    assert(chunk1.last() == NEWLINE);
    lemma_scan_concat(chunk1, chunk2);
    lemma_fold_twice(m, records_of(chunk1), records_of(chunk2));
    lemma_fold_twice(m, records_of(chunk2), records_of(chunk1));
    lemma_fold_swap(m, records_of(chunk1), records_of(chunk2));
}

/// Folding nothing changes nothing.
pub proof fn lemma_fold_nothing(m: Map<Seq<u8>, Summary>)
    ensures
        fold(m, Seq::<Record>::empty()) == m,
        records_of(Seq::<u8>::empty()) == Seq::<Record>::empty(),
        well_formed(Seq::<u8>::empty()),
{
    lemma_merged_identity(m);
    assert(collect(Seq::<Record>::empty()) =~= Map::<Seq<u8>, Summary>::empty());
}

/// All bytes of a run of pieces, piece after piece.
pub open spec fn join(parts: Seq<Seq<u8>>) -> Seq<u8>
    decreases parts.len(),
{
    if parts.len() == 0 {
        Seq::empty()
    } else {
        join(parts.drop_last()) + parts.last()
    }
}

/// The records of each piece of a run of pieces.
pub open spec fn records_each(parts: Seq<Seq<u8>>) -> Seq<Seq<Record>> {
    Seq::new(parts.len(), |i: int| records_of(parts[i]))
}

/// What a reader has made of a run of reads: the contents of its chunks, and
/// the bytes that it still carries.
pub struct Cuts {
    /// The content of each chunk, in the order of the reads.
    pub contents: Seq<Seq<u8>>,
    /// What follows the cut of the last read.
    pub carried: Seq<u8>,
}

/// What a reader makes of a run of reads, each of which holds a newline:
/// every read is cut after its last newline, and what follows the cut
/// stands before the next read.
pub open spec fn cut_all(reads: Seq<Seq<u8>>) -> Cuts
    decreases reads.len(),
{
    if reads.len() == 0 {
        Cuts { contents: Seq::empty(), carried: Seq::empty() }
    } else {
        let before = cut_all(reads.drop_last());
        let read = reads.last();
        Cuts {
            contents: before.contents.push(before.carried + read.subrange(0, cut_of(read))),
            carried: read.subrange(cut_of(read), read.len() as int),
        }
    }
}

/// Whether a piece of input is empty or ends with a newline.
pub open spec fn ends_lines(s: Seq<u8>) -> bool {
    s.len() == 0 || s.last() == NEWLINE
}

/// A reader neither loses nor adds a byte, wherever its reads cut the input:
/// the contents of its chunks and what it still carries, one after the
/// other, are the bytes that it read. Every chunk ends with a newline.
pub proof fn lemma_cut_all_keeps_bytes(reads: Seq<Seq<u8>>)
    requires
        forall|i: int| 0 <= i < reads.len() ==> cut_of(#[trigger] reads[i]) > 0,
    ensures
        cut_all(reads).contents.len() == reads.len(),
        join(cut_all(reads).contents) + cut_all(reads).carried == join(reads),
        forall|i: int|
            0 <= i < reads.len() ==> (#[trigger] cut_all(reads).contents[i]).len() > 0 && cut_all(
                reads,
            ).contents[i].last() == NEWLINE,
    decreases reads.len(),
{
    if reads.len() > 0 {
        let head = reads.drop_last();
        let read = reads.last();
        lemma_cut_all_keeps_bytes(head);
        lemma_last_index_of(read, NEWLINE);
        let before = cut_all(head);
        let now = cut_all(reads);
        assert(now.contents.drop_last() =~= before.contents);
        assert(read.subrange(0, cut_of(read)) + read.subrange(cut_of(read), read.len() as int)
            =~= read);
        assert(join(now.contents) + now.carried =~= join(before.contents) + before.carried + read);
        assert forall|i: int| 0 <= i < reads.len() implies (#[trigger] now.contents[i]).len() > 0
            && now.contents[i].last() == NEWLINE by {
            if i < head.len() {
                assert(now.contents[i] == before.contents[i]);
                assert(head[i] == reads[i]);
            }
        }
    }
}

/// Pieces that end with newlines end, joined, with a newline.
pub proof fn lemma_join_ends_lines(parts: Seq<Seq<u8>>)
    requires
        forall|i: int| 0 <= i < parts.len() ==> ends_lines(#[trigger] parts[i]),
    ensures
        ends_lines(join(parts)),
    decreases parts.len(),
{
    if parts.len() > 0 {
        lemma_join_ends_lines(parts.drop_last());
        assert(ends_lines(parts[parts.len() - 1]));
        if parts.last().len() == 0 {
            assert(join(parts) =~= join(parts.drop_last()));
        }
    }
}

/// Pieces that meet at line boundaries hold, piece after piece, the records
/// of the whole, and the whole is a run of complete records exactly when
/// every piece is one.
pub proof fn lemma_join_records(parts: Seq<Seq<u8>>)
    requires
        forall|i: int| 0 <= i < parts.len() ==> ends_lines(#[trigger] parts[i]),
    ensures
        well_formed(join(parts)) <==> forall|i: int|
            0 <= i < parts.len() ==> well_formed(#[trigger] parts[i]),
        well_formed(join(parts)) ==> records_of(join(parts)) == flatten(records_each(parts)),
    decreases parts.len(),
{
    if parts.len() == 0 {
        assert(flatten(records_each(parts)) =~= Seq::<Record>::empty());
    } else {
        let head = parts.drop_last();
        let last = parts.last();
        lemma_join_records(head);
        lemma_join_ends_lines(head);
        lemma_scan_concat(join(head), last);
        assert(records_each(parts).drop_last() =~= records_each(head));
        assert(records_each(parts).last() == records_of(last));
        if well_formed(join(parts)) {
            assert forall|i: int| 0 <= i < parts.len() implies well_formed(
                #[trigger] parts[i],
            ) by {
                if i < head.len() {
                    assert(head[i] == parts[i]);
                }
            }
        }
        if forall|i: int| 0 <= i < parts.len() ==> well_formed(#[trigger] parts[i]) {
            assert forall|i: int| 0 <= i < head.len() implies well_formed(#[trigger] head[i]) by {
                assert(head[i] == parts[i]);
            }
            assert(well_formed(parts[parts.len() - 1]));
        }
    }
}

/// However a stream of complete records is cut into reads, each with a
/// newline in it, the reader's chunks are runs of complete records, nothing
/// is carried at the end, the chunks hold the records of the stream, each
/// once and in order, and the merge of the maps of the chunks, one map for
/// each, is the map of the stream.
pub proof fn lemma_cut_all_keeps_records(reads: Seq<Seq<u8>>)
    requires
        forall|i: int| 0 <= i < reads.len() ==> cut_of(#[trigger] reads[i]) > 0,
        well_formed(join(reads)),
    ensures
        cut_all(reads).carried.len() == 0,
        forall|i: int| 0 <= i < reads.len() ==> well_formed(#[trigger] cut_all(reads).contents[i]),
        flatten(records_each(cut_all(reads).contents)) == records_of(join(reads)),
        merged_all(collect_each(records_each(cut_all(reads).contents))) == collect(
            records_of(join(reads)),
        ),
{
    let cuts = cut_all(reads);
    lemma_cut_all_keeps_bytes(reads);
    lemma_well_formed_ends(join(reads));
    if reads.len() > 0 {
        let read = reads.last();
        lemma_last_index_of(read, NEWLINE);
        assert(read.len() > 0);
        assert(join(reads).last() == read.last());
        lemma_last_index_is(read, NEWLINE, read.len() - 1);
    }
    assert(join(cuts.contents) =~= join(reads));
    assert forall|i: int| 0 <= i < cuts.contents.len() implies ends_lines(
        #[trigger] cuts.contents[i],
    ) by {}
    lemma_join_records(cuts.contents);
    lemma_merged_all_collects(records_each(cuts.contents));
}

} // verus!
