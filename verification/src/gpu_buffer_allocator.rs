//! A capacity-bounded allocator of fixed-size records in a GPU arena: a bump
//! pointer over `cap` pre-sized slots, a free list of reclaimed slots, and a
//! queue of pending whole-record writes that the GPU submission path drains.

use vstd::prelude::*;

verus! {

/// Index of one record slot in a GPU arena.
pub type GpuIdx = u32;

/// Returned by `allocate` when every slot of the arena is taken.
#[derive(Clone, Copy, Debug, PartialEq, Eq, Structural)]
pub struct CapacityExceeded;

/// One pending upload command: record `data` replaces the whole slot `idx`.
pub struct GpuWrite<T> {
    pub idx: GpuIdx,
    pub data: T,
}

/// The allocator over one GPU arena of `cap` fixed-size records of type `T`.
///
/// `len` is the bump pointer: slots below it have been handed out at least
/// once.  `free_list` holds reclaimed slots, reused before the bump pointer
/// advances.  `fill` records the value every never-written slot reads as on
/// the GPU.  `pending` queues the writes to submit, in order.
pub struct GpuBufferAllocator<T> {
    pub len: GpuIdx,
    pub cap: GpuIdx,
    pub fill: Option<T>,
    pub free_list: Vec<GpuIdx>,
    pub pending: Vec<GpuWrite<T>>,
}

impl<T> GpuBufferAllocator<T> {
    /// The allocator invariant: the bump pointer stays within capacity, the
    /// free list holds distinct allocated slots (so it never outgrows the
    /// allocated region), and every pending write targets an allocated slot.
    pub open spec fn wf(self) -> bool {
        &&& self.len <= self.cap
        &&& forall|i: int|
            0 <= i < self.free_list@.len() ==> (#[trigger] self.free_list@[i]) < self.len
        &&& forall|i: int, j: int|
            0 <= i < j < self.free_list@.len() ==> self.free_list@[i] != self.free_list@[j]
        &&& self.free_list@.len() <= self.len
        &&& forall|i: int|
            0 <= i < self.pending@.len() ==> (#[trigger] self.pending@[i].idx) < self.len
    }

    /// How many allocations can still succeed: untouched slots plus
    /// reclaimed ones.
    pub open spec fn avail(self) -> int {
        self.cap - self.len + self.free_list@.len()
    }

    /// A fresh allocator for an arena of `capacity` records, each slot
    /// pre-filled with `fill` where one is given.
    pub fn new(capacity: GpuIdx, fill: Option<T>) -> (r: GpuBufferAllocator<T>)
        ensures
            r.wf(),
            r.len == 0,
            r.cap == capacity,
            r.fill == fill,
            r.free_list@.len() == 0,
            r.pending@.len() == 0,
            r.avail() == capacity,
    {
        GpuBufferAllocator { len: 0, cap: capacity, fill, free_list: Vec::new(), pending: Vec::new() }
    }

    /// Allocates one slot: a reclaimed slot where the free list has one,
    /// else the next untouched slot.  Succeeds exactly as long as slots are
    /// available; exhaustion is reported, never wrapped over.
    pub fn allocate(&mut self) -> (r: Result<GpuIdx, CapacityExceeded>)
        requires
            old(self).wf(),
        ensures
            final(self).wf(),
            final(self).cap == old(self).cap,
            final(self).fill == old(self).fill,
            final(self).pending == old(self).pending,
            r is Ok <==> old(self).avail() > 0,
            r is Err ==> *final(self) == *old(self),
            match r {
                Err(_) => true,
                Ok(idx) => {
                    &&& final(self).avail() == old(self).avail() - 1
                    &&& idx < final(self).len
                    &&& if old(self).free_list@.len() > 0 {
                        &&& idx == old(self).free_list@.last()
                        &&& final(self).free_list@ == old(self).free_list@.drop_last()
                        &&& final(self).len == old(self).len
                    } else {
                        &&& idx == old(self).len
                        &&& final(self).len == old(self).len + 1
                        &&& final(self).free_list == old(self).free_list
                    }
                },
            },
    {
        if self.free_list.len() > 0 {
            match self.free_list.pop() {
                Some(idx) => Ok(idx),
                None => {
                    proof {
                        assert(false);
                    }
                    Err(CapacityExceeded)
                },
            }
        } else if self.len < self.cap {
            let r = self.len;
            self.len = self.len + 1;
            Ok(r)
        } else {
            Err(CapacityExceeded)
        }
    }

    /// Reclaims an allocated slot onto the free list.  The caller owes that
    /// the slot was allocated and is not already free.
    pub fn free(&mut self, idx: GpuIdx)
        requires
            old(self).wf(),
            idx < old(self).len,
            !old(self).free_list@.contains(idx),
            old(self).free_list@.len() < old(self).len,
        ensures
            final(self).wf(),
            final(self).cap == old(self).cap,
            final(self).len == old(self).len,
            final(self).fill == old(self).fill,
            final(self).pending == old(self).pending,
            final(self).free_list@ == old(self).free_list@.push(idx),
            final(self).avail() == old(self).avail() + 1,
    {
        proof {
            assert(forall|i: int|
                0 <= i < old(self).free_list@.len() ==> old(self).free_list@[i] != idx);
        }
        self.free_list.push(idx);
    }

    /// Queues a whole-record write to an allocated slot.
    pub fn write(&mut self, idx: GpuIdx, data: T)
        requires
            old(self).wf(),
            idx < old(self).len,
        ensures
            final(self).wf(),
            final(self).cap == old(self).cap,
            final(self).len == old(self).len,
            final(self).fill == old(self).fill,
            final(self).free_list == old(self).free_list,
            final(self).pending@ == old(self).pending@.push(GpuWrite { idx, data }),
    {
        self.pending.push(GpuWrite { idx, data });
    }

    /// Hands the queued writes, in order, to the GPU submission path and
    /// leaves the queue empty.
    pub fn take_pending(&mut self) -> (r: Vec<GpuWrite<T>>)
        requires
            old(self).wf(),
        ensures
            final(self).wf(),
            r@ == old(self).pending@,
            final(self).pending@.len() == 0,
            final(self).cap == old(self).cap,
            final(self).len == old(self).len,
            final(self).fill == old(self).fill,
            final(self).free_list == old(self).free_list,
    {
        let mut out: Vec<GpuWrite<T>> = Vec::new();
        core::mem::swap(&mut out, &mut self.pending);
        out
    }

    /// The arena's capacity in records.
    pub fn size(&self) -> (r: GpuIdx)
        ensures
            r == self.cap,
    {
        self.cap
    }

    /// The bump pointer: how many slots have been handed out at least once.
    pub fn length(&self) -> (r: GpuIdx)
        ensures
            r == self.len,
    {
        self.len
    }

    /// How many reclaimed slots await reuse.
    pub fn free_count(&self) -> (r: usize)
        ensures
            r == self.free_list@.len(),
    {
        self.free_list.len()
    }

    /// How many allocations can still succeed.
    pub fn available(&self) -> (r: u32)
        requires
            self.wf(),
        ensures
            r == self.avail(),
    {
        let headroom = self.cap - self.len;
        headroom + self.free_list.len() as u32
    }
}

} // verus!
