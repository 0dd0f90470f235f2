//! Storage that obtains its slots from an allocator and grows by moving to a
//! larger block.

use crate::traits::blocks_held;
use crate::traits::Allocator;
use crate::traits::Capacity;
use crate::traits::SingleRangeStorage;
use crate::traits::StorageError;
use vstd::prelude::*;

verus! {

/// One block of slots from the allocator `A`, or no block at all while the
/// capacity is zero.
///
/// The storage owns its allocator. It gives its block back when it moves to
/// another one and when it is ended with `release`, which also hands the
/// allocator out again; a storage that is merely dropped takes its
/// allocator with it.
#[derive(Debug)]
pub struct SingleRange<T, A: Allocator> {
    block: Vec<Option<T>>,
    allocator: A,
}

/// Moves the first `count` slots of `from` to the same places in `to`.
fn move_slots<T>(from: &mut Vec<Option<T>>, to: &mut Vec<Option<T>>, count: usize)
    requires
        count <= old(from)@.len(),
        count <= old(to)@.len(),
    ensures
        final(from)@.len() == old(from)@.len(),
        final(to)@.len() == old(to)@.len(),
        forall|i: int| 0 <= i < count ==> final(to)@[i] == old(from)@[i],
        forall|i: int| count <= i < old(to)@.len() ==> final(to)@[i] == old(to)@[i],
{
    let mut moved: usize = 0;
    while moved < count
        invariant
            moved <= count,
            count <= from@.len(),
            from@.len() == old(from)@.len(),
            to@.len() == old(to)@.len(),
            count <= to@.len(),
            forall|i: int| 0 <= i < moved ==> to@[i] == old(from)@[i],
            forall|i: int| moved <= i < to@.len() ==> to@[i] == old(to)@[i],
            forall|i: int| moved <= i < from@.len() ==> from@[i] == old(from)@[i],
        decreases count - moved,
    {
        let element = from[moved].take();
        to[moved] = element;
        moved += 1;
    }
}

impl<T, A: Allocator> SingleRange<T, A> {
    /// The allocator behind this storage, as a mathematical value.
    pub closed spec fn spec_allocator(&self) -> A {
        self.allocator
    }

    /// A storage without slots. Nothing is allocated until the first growth.
    pub fn new(allocator: A) -> (storage: Self)
        requires
            allocator.wf(),
        ensures
            storage.wf(),
            storage.slots().len() == 0,
            storage.spec_allocator() == allocator,
    {
        SingleRange { block: Vec::new(), allocator }
    }

    /// The allocator behind this storage.
    pub fn allocator(&self) -> (allocator: &A)
        ensures
            *allocator == self.spec_allocator(),
    {
        &self.allocator
    }

    /// Ends the storage: gives its block back, if it holds one, and hands out
    /// the allocator.
    pub fn release(self) -> (allocator: A)
        requires
            self.wf(),
        ensures
            allocator.wf(),
            allocator.allocations() == self.allocations(),
            allocator.deallocations() == self.deallocations() + blocks_held(self.slots().len()),
    {
        let SingleRange { block, allocator } = self;
        let mut allocator = allocator;
        if block.len() > 0 {
            allocator.deallocate(block);
        }
        allocator
    }

    /// Moves the content to a fresh block of `new_capacity` slots and gives
    /// the old block back. Slots beyond `new_capacity` are dropped.
    fn reallocate(&mut self, new_capacity: usize) -> (result: Result<(), StorageError>)
        requires
            old(self).wf(),
            new_capacity > 0,
        ensures
            final(self).wf(),
            match result {
                Ok(()) => {
                    &&& final(self).slots().len() == new_capacity
                    &&& forall|i: int|
                        0 <= i < new_capacity && i < old(self).slots().len()
                            ==> final(self).slots()[i] == old(self).slots()[i]
                    &&& forall|i: int|
                        old(self).slots().len() <= i < new_capacity
                            ==> final(self).slots()[i] is None
                    &&& final(self).allocations() == old(self).allocations() + 1
                    &&& final(self).deallocations() == old(self).deallocations()
                        + blocks_held(old(self).slots().len())
                },
                Err(error) => {
                    &&& error == StorageError::AllocationFailed
                    &&& final(self).slots() == old(self).slots()
                    &&& final(self).allocations() == old(self).allocations()
                    &&& final(self).deallocations() == old(self).deallocations()
                },
            },
    {
        proof {
            self.allocator.lemma_outstanding();
        }
        match self.allocator.allocate::<T>(new_capacity) {
            None => Err(StorageError::AllocationFailed),
            Some(fresh) => {
                let mut fresh = fresh;
                let kept = if self.block.len() < new_capacity {
                    self.block.len()
                } else {
                    new_capacity
                };
                move_slots(&mut self.block, &mut fresh, kept);
                std::mem::swap(&mut self.block, &mut fresh);
                if fresh.len() > 0 {
                    self.allocator.deallocate(fresh);
                }
                Ok(())
            },
        }
    }
}

impl<T, A: Allocator> Capacity for SingleRange<T, A> {
    open spec fn spec_max_capacity(&self) -> nat {
        usize::MAX as nat
    }

    fn max_capacity(&self) -> (max: usize) {
        usize::MAX
    }
}

impl<T, A: Allocator> SingleRangeStorage<T> for SingleRange<T, A> {
    closed spec fn slots(&self) -> Seq<Option<T>> {
        self.block@
    }

    open spec fn guaranteed_capacity(&self) -> nat {
        self.slots().len()
    }

    open spec fn allocations(&self) -> nat {
        self.spec_allocator().allocations()
    }

    open spec fn deallocations(&self) -> nat {
        self.spec_allocator().deallocations()
    }

    closed spec fn wf(&self) -> bool {
        &&& self.allocator.wf()
        &&& self.block@.len() <= usize::MAX
        &&& self.block@.len() > 0 ==> self.allocator.deallocations()
            < self.allocator.allocations()
    }

    proof fn lemma_capacity_bounds(&self) {
    }

    fn capacity(&self) -> (capacity: usize) {
        self.block.len()
    }

    /// A request beyond the current capacity moves the content to a fresh
    /// block of exactly `new_capacity` slots: one allocation, and one
    /// deallocation if there was a block before. Any other request leaves
    /// the allocator alone.
    fn grow(&mut self, new_capacity: usize) -> (result: Result<(), StorageError>)
        ensures
            new_capacity <= old(self).slots().len() ==> {
                &&& final(self).slots() == old(self).slots()
                &&& final(self).spec_allocator() == old(self).spec_allocator()
            },
            new_capacity > old(self).slots().len() ==> match result {
                Ok(()) => {
                    &&& final(self).slots().len() == new_capacity
                    &&& final(self).allocations() == old(self).allocations() + 1
                    &&& final(self).deallocations() == old(self).deallocations()
                        + blocks_held(old(self).slots().len())
                },
                Err(error) => {
                    &&& error == StorageError::AllocationFailed
                    &&& final(self).allocations() == old(self).allocations()
                    &&& final(self).deallocations() == old(self).deallocations()
                },
            },
    {
        if new_capacity <= self.block.len() {
            return Ok(());
        }
        self.reallocate(new_capacity)
    }

    /// A request below the current capacity moves the kept slots to a fresh
    /// block of exactly `new_capacity` slots, or gives the block back when
    /// none are kept.
    fn shrink(&mut self, new_capacity: usize) -> (result: Result<(), StorageError>)
        ensures
            new_capacity >= old(self).slots().len() ==> {
                &&& final(self).slots() == old(self).slots()
                &&& final(self).spec_allocator() == old(self).spec_allocator()
            },
            new_capacity == 0 ==> result is Ok,
            new_capacity < old(self).slots().len() ==> match result {
                Ok(()) => {
                    &&& final(self).slots().len() == new_capacity
                    &&& final(self).allocations() == old(self).allocations() + blocks_held(
                        new_capacity as nat,
                    )
                    &&& final(self).deallocations() == old(self).deallocations() + 1
                },
                Err(_) => {
                    &&& final(self).allocations() == old(self).allocations()
                    &&& final(self).deallocations() == old(self).deallocations()
                },
            },
    {
        if new_capacity >= self.block.len() {
            return Ok(());
        }
        if new_capacity == 0 {
            let mut emptied: Vec<Option<T>> = Vec::new();
            std::mem::swap(&mut self.block, &mut emptied);
            proof {
                self.allocator.lemma_outstanding();
            }
            self.allocator.deallocate(emptied);
            return Ok(());
        }
        self.reallocate(new_capacity)
    }

    fn write(&mut self, index: usize, value: T) {
        self.block[index] = Some(value);
    }

    fn read(&self, index: usize) -> (element: &T) {
        self.block[index].as_ref().unwrap()
    }

    fn read_mut(&mut self, index: usize) -> (element: &mut T) {
        match &mut self.block[index] {
            Some(element) => element,
            None => vstd::pervasive::unreached(),
        }
    }

    fn take(&mut self, index: usize) -> (element: Option<T>) {
        self.block[index].take()
    }
}

} // verus!
