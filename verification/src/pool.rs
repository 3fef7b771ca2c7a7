//! A bounded pool of byte buffers of one size, to be used again instead of
//! being allocated anew.

use vstd::prelude::*;

verus! {

/// Buffers of one size that wait to be used again. The pool keeps at most
/// `capacity` of them; it is a cache, not a limit on how many buffers exist.
pub struct BufferPool {
    free: Vec<Vec<u8>>,
    capacity: usize,
    buffer_size: usize,
}

/// A buffer as it is when newly allocated: `size` zeros.
pub open spec fn zeros(size: usize) -> Seq<u8> {
    Seq::new(size as nat, |i: int| 0u8)
}

impl View for BufferPool {
    type V = Seq<Seq<u8>>;

    /// The buffers that wait in the pool, the one released last at the end.
    closed spec fn view(&self) -> Seq<Seq<u8>> {
        Seq::new(self.free@.len(), |i: int| self.free@[i]@)
    }
}

impl BufferPool {
    /// The most buffers that the pool keeps.
    pub closed spec fn spec_capacity(&self) -> usize {
        self.capacity
    }

    /// The length of every buffer of the pool.
    pub closed spec fn spec_buffer_size(&self) -> usize {
        self.buffer_size
    }

    /// Whether the pool is well formed: it holds no more buffers than its
    /// capacity, each of the pool's buffer size.
    pub open spec fn wf(&self) -> bool {
        &&& self@.len() <= self.spec_capacity()
        &&& forall|i: int| 0 <= i < self@.len() ==> (#[trigger] self@[i]).len() == self.spec_buffer_size()
    }

    /// An empty pool for up to `capacity` buffers of `buffer_size` bytes.
    pub fn new(capacity: usize, buffer_size: usize) -> (pool: BufferPool)
        ensures
            pool.wf(),
            pool@.len() == 0,
            pool.spec_capacity() == capacity,
            pool.spec_buffer_size() == buffer_size,
    {
        BufferPool { free: Vec::new(), capacity, buffer_size }
    }

    /// The number of buffers that wait in the pool.
    pub fn available(&self) -> (n: usize)
        ensures
            n == self@.len(),
    {
        self.free.len()
    }

    /// The most buffers that the pool keeps.
    #[verifier::when_used_as_spec(spec_capacity)]
    pub fn capacity(&self) -> (n: usize)
        ensures
            n == self.spec_capacity(),
    {
        self.capacity
    }

    /// The length of every buffer of the pool.
    #[verifier::when_used_as_spec(spec_buffer_size)]
    pub fn buffer_size(&self) -> (n: usize)
        ensures
            n == self.spec_buffer_size(),
    {
        self.buffer_size
    }

    /// Hands out a buffer of the pool's buffer size: the one that was
    /// released last, if any waits in the pool, and else a new one, filled
    /// with zeros.
    pub fn acquire(&mut self) -> (buf: Vec<u8>)
        requires
            old(self).wf(),
        ensures
            final(self).wf(),
            final(self).spec_capacity() == old(self).spec_capacity(),
            final(self).spec_buffer_size() == old(self).spec_buffer_size(),
            buf@.len() == old(self).spec_buffer_size(),
            old(self)@.len() > 0 ==> buf@ == old(self)@.last() && final(self)@ == old(self)@.drop_last(),
            old(self)@.len() == 0 ==> buf@ == zeros(old(self).spec_buffer_size()) && final(self)@
                == old(self)@,
    {
        let ghost before = self@;
        match self.free.pop() {
            Some(buf) => {
                proof {
                    assert(buf@ == before[before.len() - 1]);
                    assert(self@ =~= before.drop_last());
                }
                buf
            },
            None => {
                proof {
                    assert(self@ =~= before);
                }
                let buf = vec![0u8; self.buffer_size];
                proof {
                    assert(buf@ =~= zeros(self.buffer_size));
                }
                buf
            },
        }
    }

    /// Takes a buffer back. It is kept if it has the pool's buffer size and
    /// the pool has room; else it is dropped. Returns whether it was kept.
    pub fn release(&mut self, buf: Vec<u8>) -> (kept: bool)
        requires
            old(self).wf(),
        ensures
            final(self).wf(),
            final(self).spec_capacity() == old(self).spec_capacity(),
            final(self).spec_buffer_size() == old(self).spec_buffer_size(),
            kept == (buf@.len() == old(self).spec_buffer_size() && old(self)@.len() < old(
                self,
            ).spec_capacity()),
            final(self)@ == if kept {
                old(self)@.push(buf@)
            } else {
                old(self)@
            },
    {
        let ghost before = self@;
        if buf.len() == self.buffer_size && self.free.len() < self.capacity {
            self.free.push(buf);
            proof {
                assert(self@ =~= before.push(buf@));
            }
            true
        } else {
            proof {
                assert(self@ =~= before);
            }
            false
        }
    }
}

} // verus!
