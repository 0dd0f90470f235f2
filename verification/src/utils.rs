//! Allocators to put behind an allocator-backed storage.

use crate::traits::Allocator;
use std::collections::TryReserveError;
use vstd::prelude::*;

verus! {

/// Builds a block of `capacity` empty slots on the heap, or `None` when the
/// memory for it cannot be had. A block of no slots needs no memory: the
/// heap is not asked for it, and it is always built.
fn empty_block<T>(capacity: usize) -> (block: Option<Vec<Option<T>>>)
    ensures
        capacity == 0 ==> block is Some,
        block matches Some(slots) ==> {
            &&& slots@.len() == capacity
            &&& forall|i: int| 0 <= i < capacity ==> slots@[i] is None
        },
{
    let mut slots: Vec<Option<T>> = Vec::new();
    if capacity == 0 {
        return Some(slots);
    }
    let reserved = slots.try_reserve(capacity);
    block_after_reserve(slots, reserved, capacity)
}

/// What a request for a block of `capacity` empty slots comes to once the
/// heap has answered the reservation of their memory in `slots`: the block,
/// where the heap reserved it, and nothing where it did not. Whatever
/// `slots` held is dropped.
pub fn block_after_reserve<T>(
    slots: Vec<Option<T>>,
    reserved: Result<(), TryReserveError>,
    capacity: usize,
) -> (block: Option<Vec<Option<T>>>)
    ensures
        block is Some <==> reserved is Ok,
        block matches Some(filled) ==> {
            &&& filled@.len() == capacity
            &&& forall|i: int| 0 <= i < capacity ==> filled@[i] is None
        },
{
    if reserved.is_err() {
        return None;
    }
    let mut slots = slots;
    slots.clear();
    let mut filled: usize = 0;
    while filled < capacity
        invariant
            filled <= capacity,
            slots@.len() == filled,
            forall|i: int| 0 <= i < filled ==> slots@[i] is None,
        decreases capacity - filled,
    {
        slots.push(None);
        filled += 1;
    }
    Some(slots)
}

/// A heap allocator that counts the blocks it hands out and takes back,
/// and hands out no more blocks than its limit allows.
#[derive(Debug)]
pub struct SpyAllocator {
    allocated: usize,
    deallocated: usize,
    limit: usize,
}

impl SpyAllocator {
    /// The number of blocks after which this allocator hands out no more.
    pub closed spec fn spec_limit(&self) -> nat {
        self.limit as nat
    }

    /// An allocator that has handed out nothing yet, with the largest limit
    /// there is.
    pub fn new() -> (allocator: Self)
        ensures
            allocator.wf(),
            allocator.allocations() == 0,
            allocator.deallocations() == 0,
            allocator.spec_limit() == usize::MAX,
    {
        SpyAllocator { allocated: 0, deallocated: 0, limit: usize::MAX }
    }

    /// An allocator that has handed out nothing yet and will hand out
    /// `limit` blocks at most. With a limit of zero it never allocates.
    pub fn with_limit(limit: usize) -> (allocator: Self)
        ensures
            allocator.wf(),
            allocator.allocations() == 0,
            allocator.deallocations() == 0,
            allocator.spec_limit() == limit,
    {
        SpyAllocator { allocated: 0, deallocated: 0, limit }
    }

    /// The number of blocks handed out so far.
    pub fn allocated(&self) -> (count: usize)
        ensures
            count == self.allocations(),
    {
        self.allocated
    }

    /// The number of blocks taken back so far.
    pub fn deallocated(&self) -> (count: usize)
        ensures
            count == self.deallocations(),
    {
        self.deallocated
    }
}

impl Default for SpyAllocator {
    fn default() -> (allocator: Self)
        ensures
            allocator.wf(),
            allocator.allocations() == 0,
            allocator.deallocations() == 0,
            allocator.spec_limit() == usize::MAX,
    {
        SpyAllocator::new()
    }
}

impl Allocator for SpyAllocator {
    closed spec fn allocations(&self) -> nat {
        self.allocated as nat
    }

    closed spec fn deallocations(&self) -> nat {
        self.deallocated as nat
    }

    closed spec fn wf(&self) -> bool {
        self.deallocated <= self.allocated <= self.limit
    }

    proof fn lemma_outstanding(&self) {
    }

    /// Fails when the limit is reached, and when the heap has no memory for
    /// the block. Below the limit, a block of no slots is always handed out:
    /// the heap is not asked for it.
    fn allocate<T>(&mut self, capacity: usize) -> (block: Option<Vec<Option<T>>>)
        ensures
            final(self).spec_limit() == old(self).spec_limit(),
            old(self).allocations() >= old(self).spec_limit() ==> block is None,
            old(self).allocations() < old(self).spec_limit() && capacity == 0 ==> block is Some,
    {
        if self.allocated >= self.limit {
            return None;
        }
        let block = empty_block(capacity);
        if block.is_some() {
            self.allocated = self.allocated + 1;
        }
        block
    }

    fn deallocate<T>(&mut self, block: Vec<Option<T>>)
        ensures
            final(self).spec_limit() == old(self).spec_limit(),
    {
        self.deallocated = self.deallocated + 1;
    }
}

} // verus!
