//! One worker of the pool, as a state machine.
//!
//! A worker owns a map of its own. It waits for chunks, folds each into its
//! map and hands the buffer back; when the queue of chunks is closed and
//! empty it is drained and gives up its map. The waiting itself is the
//! caller's: the caller receives from its queue, tells the worker what came,
//! and does what the worker answers.

use crate::agg_map::{fits, fold_result, AggMap};
use crate::aggregate::Summary;
use crate::chunk::{process_spliced, Chunk};
use crate::fold::fold;
use crate::record::{records_of, FormatError};
use vstd::prelude::*;

verus! {

/// Where a worker stands. While it folds a chunk it is processing; that
/// lasts for the length of one call of [`Worker::step`], so between calls a
/// worker is in one of these four states.
#[derive(Clone, Copy, Debug, PartialEq, Eq, Structural)]
pub enum WorkerState {
    /// Made, and not yet started.
    Idle,
    /// Waiting for the next chunk.
    Receiving,
    /// The queue was closed and empty: the map is complete.
    Drained,
    /// A chunk held a fault: the map is not to be used.
    Failed,
}

/// What a worker's queue delivers.
pub enum Event {
    /// The next chunk.
    Chunk(Chunk),
    /// The queue is closed and empty.
    Closed,
}

/// What a worker asks its caller to do next.
#[derive(Debug, PartialEq, Eq)]
pub enum Action {
    /// Give this buffer back to the pool, then receive again.
    Recycle(Vec<u8>),
    /// Stop receiving and collect the worker's map.
    Finish,
    /// Give up the whole run with this fault.
    Abort(FormatError),
}

/// A worker and its map.
pub struct Worker {
    totals: AggMap,
    state: WorkerState,
}

impl Worker {
    /// The worker's map.
    pub closed spec fn totals(&self) -> Map<Seq<u8>, Summary> {
        self.totals@
    }

    /// The worker's state.
    pub closed spec fn spec_state(&self) -> WorkerState {
        self.state
    }

    /// The number of input bytes that the worker has folded.
    pub closed spec fn spec_consumed(&self) -> u64 {
        self.totals.spec_consumed()
    }

    /// Whether the worker's map is well formed.
    pub closed spec fn wf(&self) -> bool {
        self.totals.wf()
    }

    /// An idle worker with an empty map.
    pub fn new() -> (w: Worker)
        ensures
            w.wf(),
            w.spec_state() == WorkerState::Idle,
            w.totals() == Map::<Seq<u8>, Summary>::empty(),
            w.spec_consumed() == 0,
    {
        Worker { totals: AggMap::new(), state: WorkerState::Idle }
    }

    /// The worker's state.
    #[verifier::when_used_as_spec(spec_state)]
    pub fn state(&self) -> (s: WorkerState)
        ensures
            s == self.spec_state(),
    {
        self.state
    }

    /// The number of input bytes that the worker has folded.
    #[verifier::when_used_as_spec(spec_consumed)]
    pub fn consumed(&self) -> (n: u64)
        ensures
            n == self.spec_consumed(),
    {
        self.totals.consumed()
    }

    /// Starts an idle worker: it now waits for chunks. A worker in another
    /// state stays as it is.
    pub fn start(&mut self)
        ensures
            final(self).wf() == old(self).wf(),
            final(self).totals() == old(self).totals(),
            final(self).spec_consumed() == old(self).spec_consumed(),
            final(self).spec_state() == if old(self).spec_state() == WorkerState::Idle {
                WorkerState::Receiving
            } else {
                old(self).spec_state()
            },
    {
        if self.state == WorkerState::Idle {
            self.state = WorkerState::Receiving;
        }
    }

    /// Takes what the queue delivered and says what to do next.
    ///
    /// A chunk is folded into the worker's map as [`process_spliced`] does.
    /// If that went well, the worker asks for the chunk's buffer to be given
    /// back and goes on receiving; if not, the worker has failed and asks to
    /// abort with the fault. A closed queue drains the worker, whose map is
    /// then complete.
    pub fn step(&mut self, event: Event) -> (action: Action)
        requires
            old(self).wf(),
            old(self).spec_state() == WorkerState::Receiving,
            event matches Event::Chunk(c) ==> c.wf(),
        ensures
            final(self).wf(),
            match event {
                Event::Closed => {
                    &&& action == Action::Finish
                    &&& final(self).spec_state() == WorkerState::Drained
                    &&& final(self).totals() == old(self).totals()
                    &&& final(self).spec_consumed() == old(self).spec_consumed()
                },
                Event::Chunk(c) => {
                    &&& final(self).totals() == if fits(old(self).spec_consumed(), c.content()) {
                        fold(old(self).totals(), records_of(c.content()))
                    } else {
                        old(self).totals()
                    }
                    &&& final(self).spec_consumed() == if fits(
                        old(self).spec_consumed(),
                        c.content(),
                    ) {
                        old(self).spec_consumed() + c.content().len()
                    } else {
                        old(self).spec_consumed() as int
                    }
                    &&& match fold_result(old(self).spec_consumed(), c.content()) {
                        Ok(_) => action == Action::Recycle(c.buffer) && final(self).spec_state()
                            == WorkerState::Receiving,
                        Err(e) => action == Action::Abort(e) && final(self).spec_state()
                            == WorkerState::Failed,
                    }
                },
            },
    {
        match event {
            Event::Closed => {
                self.state = WorkerState::Drained;
                Action::Finish
            },
            Event::Chunk(chunk) => {
                let (buffer, result) = process_spliced(chunk, &mut self.totals);
                match result {
                    Ok(()) => Action::Recycle(buffer),
                    Err(e) => {
                        self.state = WorkerState::Failed;
                        Action::Abort(e)
                    },
                }
            },
        }
    }

    /// Gives up the map of a drained worker.
    pub fn into_totals(self) -> (m: AggMap)
        requires
            self.wf(),
            self.spec_state() == WorkerState::Drained,
        ensures
            m.wf(),
            m@ == self.totals(),
            m.spec_consumed() == self.spec_consumed(),
    {
        self.totals
    }
}

} // verus!
