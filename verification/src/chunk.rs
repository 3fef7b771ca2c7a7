//! Cutting a stream of bytes into chunks that end at record boundaries, and
//! folding such a chunk, with what was cut off before it, into a map.
//!
//! A reader fills one buffer after another. Each buffer is cut after its
//! last newline; what follows the cut is an incomplete record, which is
//! carried over and stands before the next buffer.

use crate::agg_map::{fits, fold_result, process_chunk, AggMap, MAX_INPUT};
use crate::fold::{fold, lemma_fold_swap, lemma_fold_twice};
use crate::record::{
    find_line_start, last_index_of, lemma_last_index_of, lemma_scan_concat, records_of, scan,
    FormatError, NEWLINE,
};
use vstd::prelude::*;
use vstd::slice::{slice_subrange, slice_to_vec};

verus! {

/// One buffer of input, cut at a record boundary, with the incomplete record
/// that was cut off the buffer before it.
#[derive(Debug, PartialEq, Eq)]
pub struct Chunk {
    /// The buffer as the reader filled it.
    pub buffer: Vec<u8>,
    /// How many bytes of the buffer belong to this chunk.
    pub valid_length: usize,
    /// The bytes that stand before the buffer's own.
    pub leftover: Option<Vec<u8>>,
}

impl Chunk {
    /// Whether the valid length lies within the buffer.
    pub open spec fn wf(&self) -> bool {
        self.valid_length <= self.buffer@.len()
    }

    /// The bytes carried over from the buffer before.
    pub open spec fn leftover_bytes(&self) -> Seq<u8> {
        match self.leftover {
            Some(l) => l@,
            None => Seq::empty(),
        }
    }

    /// The bytes that this chunk stands for: the carried bytes, then the
    /// valid part of the buffer.
    pub open spec fn content(&self) -> Seq<u8> {
        self.leftover_bytes() + self.buffer@.subrange(0, self.valid_length as int)
    }
}

/// Where a buffer is cut: after the last newline among its bytes, or at zero
/// if it holds none.
pub open spec fn cut_of(buffer: Seq<u8>) -> int {
    last_index_of(buffer, NEWLINE) + 1
}

/// The state of a reader between two buffers: the incomplete record that the
/// last buffer ended with.
pub struct Splitter {
    leftover: Option<Vec<u8>>,
}

impl Splitter {
    /// The bytes carried over to the next buffer.
    pub closed spec fn carried(&self) -> Seq<u8> {
        match self.leftover {
            Some(l) => l@,
            None => Seq::empty(),
        }
    }

    /// The state before the first buffer: nothing is carried.
    pub fn new() -> (s: Splitter)
        ensures
            s.carried() == Seq::<u8>::empty(),
    {
        Splitter { leftover: None }
    }

    /// Cuts a buffer of which the first `read` bytes were filled.
    ///
    /// The cut falls after the last newline among those bytes. The chunk
    /// takes the buffer up to the cut, and before it what was carried so
    /// far; what follows the cut is carried from now on. So the chunk's
    /// content and the new carry, one after the other, are the old carry
    /// and the bytes read. Without a newline among the bytes read, a record
    /// is longer than the buffer: the result is `RecordTooLong` and the
    /// state stays as it was. A read of no bytes is the end of the input
    /// and belongs to [`Splitter::finish`].
    pub fn split(&mut self, buffer: Vec<u8>, read: usize) -> (r: Result<Chunk, FormatError>)
        requires
            read <= buffer@.len(),
        ensures
            r.is_ok() <==> cut_of(buffer@.subrange(0, read as int)) > 0,
            r matches Err(e) ==> e == FormatError::RecordTooLong && final(self).carried() == old(
                self,
            ).carried(),
            r matches Ok(c) ==> {
                &&& c.wf()
                &&& c.buffer == buffer
                &&& c.valid_length == cut_of(buffer@.subrange(0, read as int))
                &&& c.leftover_bytes() == old(self).carried()
                &&& c.leftover.is_some() == (old(self).carried().len() > 0)
                &&& final(self).carried() == buffer@.subrange(c.valid_length as int, read as int)
                &&& c.content() + final(self).carried() == old(self).carried() + buffer@.subrange(
                    0,
                    read as int,
                )
            },
    {
        let cut = find_line_start(buffer.as_slice(), read);
        proof {
            lemma_last_index_of(buffer@.subrange(0, read as int), NEWLINE);
        }
        if cut == 0 {
            return Err(FormatError::RecordTooLong);
        }
        let tail = if cut < read {
            Some(slice_to_vec(slice_subrange(buffer.as_slice(), cut, read)))
        } else {
            None
        };
        let ghost old_carried = self.carried();
        let before = self.leftover.take();
        self.leftover = tail;
        let leftover = match before {
            Some(l) => if l.len() > 0 {
                Some(l)
            } else {
                None
            },
            None => None,
        };
        let c = Chunk { buffer, valid_length: cut, leftover };
        proof {
            assert(c.leftover_bytes() =~= old_carried);
            assert(self.carried() =~= buffer@.subrange(cut as int, read as int));
            assert(buffer@.subrange(0, cut as int) + buffer@.subrange(cut as int, read as int)
                =~= buffer@.subrange(0, read as int));
            assert(c.content() + self.carried() =~= old_carried + buffer@.subrange(0, read as int));
        }
        Ok(c)
    }

    /// Ends the input. Bytes still carried are a record without its newline:
    /// the result is then `UnterminatedRecord`.
    pub fn finish(self) -> (r: Result<(), FormatError>)
        ensures
            r == if self.carried().len() == 0 {
                Ok::<(), FormatError>(())
            } else {
                Err(FormatError::UnterminatedRecord)
            },
    {
        match self.leftover {
            Some(l) => if l.len() > 0 {
                Err(FormatError::UnterminatedRecord)
            } else {
                Ok(())
            },
            None => Ok(()),
        }
    }
}

/// Folds the records of a chunk into `totals` and hands the buffer back.
///
/// The carried bytes and the start of the buffer, up to its first newline,
/// are spliced into one piece, which holds the record that the cut before
/// this buffer went through. The rest of the buffer is folded first, then
/// the spliced piece: together that is the backward scan of the chunk's
/// whole content, with the same result and the same records folded in as
/// [`process_chunk`] gives on that content.
pub fn process_spliced(chunk: Chunk, totals: &mut AggMap) -> (r: (Vec<u8>, Result<(), FormatError>))
    requires
        old(totals).wf(),
        chunk.wf(),
    ensures
        final(totals).wf(),
        r.0 == chunk.buffer,
        r.1 == fold_result(old(totals).spec_consumed(), chunk.content()),
        final(totals)@ == if fits(old(totals).spec_consumed(), chunk.content()) {
            fold(old(totals)@, records_of(chunk.content()))
        } else {
            old(totals)@
        },
        final(totals).spec_consumed() == if fits(old(totals).spec_consumed(), chunk.content()) {
            old(totals).spec_consumed() + chunk.content().len()
        } else {
            old(totals).spec_consumed() as int
        },
{
    let ghost content = chunk.content();
    let Chunk { buffer, valid_length, leftover } = chunk;
    proof {
        totals.lemma_wf();
    }
    let room: u64 = MAX_INPUT - totals.consumed();
    let carried_len: usize = match &leftover {
        Some(l) => l.len(),
        None => 0,
    };
    if valid_length as u64 > room || carried_len as u64 > room - valid_length as u64 {
        return (buffer, Err(FormatError::InputTooLarge));
    }
    let valid = slice_subrange(buffer.as_slice(), 0, valid_length);
    match leftover {
        None => {
            proof {
                assert(content =~= valid@);
            }
            let r = process_chunk(valid, totals);
            (buffer, r)
        },
        Some(mut head) => {
            let ghost carried = head@;
            let mut cut: usize = 0;
            while cut < valid_length && valid[cut] != NEWLINE
                invariant
                    cut <= valid_length == valid@.len(),
                    head@ == carried + valid@.subrange(0, cut as int),
                    forall|j: int| 0 <= j < cut ==> valid@[j] != NEWLINE,
                decreases valid_length - cut,
            {
                head.push(valid[cut]);
                proof {
                    assert(valid@.subrange(0, cut as int).push(valid@[cut as int])
                        =~= valid@.subrange(0, cut + 1));
                }
                cut += 1;
            }
            if cut < valid_length {
                head.push(NEWLINE);
                proof {
                    assert(valid@.subrange(0, cut as int).push(valid@[cut as int])
                        =~= valid@.subrange(0, cut + 1));
                }
                cut += 1;
            }
            let rest = slice_subrange(valid, cut, valid_length);
            proof {
                assert(head@ + rest@ =~= content);
                if rest@.len() > 0 {
                    lemma_scan_concat(head@, rest@);
                } else {
                    assert(head@ =~= content);
                    assert(fold(totals@, records_of(rest@)) =~= totals@);
                }
            }
            match process_chunk(rest, totals) {
                Err(e) => {
                    totals.account(head.len());
                    (buffer, Err(e))
                },
                Ok(()) => {
                    let r = process_chunk(head.as_slice(), totals);
                    proof {
                        if rest@.len() > 0 {
                            lemma_fold_twice(
                                old(totals)@,
                                records_of(rest@),
                                records_of(head@),
                            );
                            lemma_fold_swap(
                                old(totals)@,
                                records_of(head@),
                                records_of(rest@),
                            );
                        }
                    }
                    (buffer, r)
                },
            }
        },
    }
}

} // verus!
