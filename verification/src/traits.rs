//! The capabilities a container asks of the storage that backs it.
//!
//! A storage is modelled as a sequence of slots. A slot is either empty or
//! holds one element; the number of slots is the storage's current capacity.

use vstd::prelude::*;

verus! {

/// Why a storage could not satisfy a request.
#[derive(Clone, Copy, Debug, PartialEq, Eq, Structural)]
pub enum StorageError {
    /// The request exceeds the fixed bound of the storage.
    CapacityExceeded,
    /// The allocator behind the storage could not provide the memory.
    AllocationFailed,
    /// The storage cannot back the container that was to be built on it.
    InvalidConstruction,
}

/// Whether `after` is `before` followed by zero or more empty slots.
pub open spec fn extends_with_empty<T>(before: Seq<Option<T>>, after: Seq<Option<T>>) -> bool {
    &&& before.len() <= after.len()
    &&& forall|i: int| 0 <= i < before.len() ==> after[i] == before[i]
    &&& forall|i: int| before.len() <= i < after.len() ==> after[i] is None
}

/// The number of blocks of memory that a storage of `capacity` slots holds
/// if it has its slots from an allocator: one, unless it has no slots.
pub open spec fn blocks_held(capacity: nat) -> nat {
    if capacity > 0 {
        1
    } else {
        0
    }
}

/// The capacity of a storage that had `capacity` slots and grew on a request
/// for `asked`: the larger of the two.
pub open spec fn grown_capacity(capacity: nat, asked: nat) -> nat {
    if asked > capacity {
        asked
    } else {
        capacity
    }
}

/// The number of blocks allocated when a storage of `capacity` slots grows on
/// a request for `asked`: one if it has to grow, none if it has the slots.
pub open spec fn growth_allocations(capacity: nat, asked: nat) -> nat {
    if asked > capacity {
        1
    } else {
        0
    }
}

/// The number of blocks given back when a storage of `capacity` slots grows
/// on a request for `asked`: the block it held, if it has to grow.
pub open spec fn growth_deallocations(capacity: nat, asked: nat) -> nat {
    if asked > capacity {
        blocks_held(capacity)
    } else {
        0
    }
}

/// The error with which a storage of bound `max_capacity` fails to grow on a
/// request for `asked`: `CapacityExceeded` where the request is beyond the
/// bound, `AllocationFailed` where the memory for it could not be had.
pub open spec fn growth_error(max_capacity: nat, asked: nat) -> StorageError {
    if asked > max_capacity {
        StorageError::CapacityExceeded
    } else {
        StorageError::AllocationFailed
    }
}

/// Whether two states of a storage have as many slots, the same bounds and
/// the same counts of blocks allocated and given back.
pub open spec fn same_footing<T, S: SingleRangeStorage<T>>(before: S, after: S) -> bool {
    &&& after.slots().len() == before.slots().len()
    &&& after.spec_max_capacity() == before.spec_max_capacity()
    &&& after.guaranteed_capacity() == before.guaranteed_capacity()
    &&& after.allocations() == before.allocations()
    &&& after.deallocations() == before.deallocations()
}

/// Reports the largest number of elements a storage can ever hold.
pub trait Capacity {
    /// The bound as a mathematical value.
    spec fn spec_max_capacity(&self) -> nat;

    /// The largest capacity this storage can ever reach.
    fn max_capacity(&self) -> (max: usize)
        ensures
            max == self.spec_max_capacity(),
    ;
}

/// A storage that offers one contiguous range of slots for elements of `T`.
pub trait SingleRangeStorage<T>: Capacity + Sized {
    /// What each slot holds: `None` for an empty slot. The length of the
    /// sequence is the current capacity.
    spec fn slots(&self) -> Seq<Option<T>>;

    /// The capacity up to which `grow` cannot fail.
    spec fn guaranteed_capacity(&self) -> nat;

    /// How many blocks of memory have been allocated for this storage, or by
    /// the allocator behind it, so far. Zero for a storage that never
    /// allocates.
    spec fn allocations(&self) -> nat;

    /// How many blocks of memory this storage, or the allocator behind it,
    /// has been given back so far. Zero for a storage that never allocates.
    spec fn deallocations(&self) -> nat;

    /// The representation invariant of the storage.
    spec fn wf(&self) -> bool;

    /// A well-formed storage has at most as many slots as it guarantees, and
    /// guarantees no more than its bound.
    proof fn lemma_capacity_bounds(&self)
        requires
            self.wf(),
        ensures
            self.slots().len() <= self.guaranteed_capacity() <= self.spec_max_capacity(),
            self.spec_max_capacity() <= usize::MAX,
    ;

    /// The number of slots available without further negotiation.
    fn capacity(&self) -> (capacity: usize)
        requires
            self.wf(),
        ensures
            capacity == self.slots().len(),
    ;

    /// Asks for at least `new_capacity` slots. A storage that has them
    /// already stays as it is; one that grows, grows to exactly that many.
    ///
    /// On success every slot keeps its content and the added slots are
    /// empty. On failure the storage is left as it was. Where the storage
    /// grows beyond its capacity, one block is allocated and the block that
    /// was held is given back; otherwise nothing is.
    fn grow(&mut self, new_capacity: usize) -> (result: Result<(), StorageError>)
        requires
            old(self).wf(),
        ensures
            final(self).wf(),
            final(self).spec_max_capacity() == old(self).spec_max_capacity(),
            final(self).guaranteed_capacity() >= old(self).guaranteed_capacity(),
            new_capacity <= old(self).guaranteed_capacity() ==> result is Ok,
            new_capacity > old(self).spec_max_capacity() ==> result is Err,
            match result {
                Ok(()) => {
                    &&& final(self).slots().len() == grown_capacity(
                        old(self).slots().len(),
                        new_capacity as nat,
                    )
                    &&& extends_with_empty(old(self).slots(), final(self).slots())
                    &&& final(self).allocations() == old(self).allocations() + growth_allocations(
                        old(self).slots().len(),
                        new_capacity as nat,
                    )
                    &&& final(self).deallocations() == old(self).deallocations()
                        + growth_deallocations(old(self).slots().len(), new_capacity as nat)
                },
                Err(error) => {
                    &&& final(self).slots() == old(self).slots()
                    &&& final(self).guaranteed_capacity() == old(self).guaranteed_capacity()
                    &&& final(self).allocations() == old(self).allocations()
                    &&& final(self).deallocations() == old(self).deallocations()
                    &&& new_capacity > old(self).guaranteed_capacity()
                    &&& error == growth_error(old(self).spec_max_capacity(), new_capacity as nat)
                },
            },
    ;

    /// Asks to keep no more than `new_capacity` slots.
    ///
    /// On success the storage keeps at least `new_capacity` of its slots, or
    /// all of them if it had fewer, and the slots it keeps are unchanged. On
    /// failure the storage is left as it was.
    fn shrink(&mut self, new_capacity: usize) -> (result: Result<(), StorageError>)
        requires
            old(self).wf(),
        ensures
            final(self).wf(),
            final(self).spec_max_capacity() == old(self).spec_max_capacity(),
            final(self).allocations() >= old(self).allocations(),
            final(self).deallocations() >= old(self).deallocations(),
            new_capacity >= old(self).slots().len() ==> {
                &&& result is Ok
                &&& final(self).allocations() == old(self).allocations()
                &&& final(self).deallocations() == old(self).deallocations()
            },
            match result {
                Ok(()) => {
                    &&& final(self).slots().len() >= new_capacity || final(self).slots().len()
                        == old(self).slots().len()
                    &&& final(self).slots().is_prefix_of(old(self).slots())
                },
                Err(error) => {
                    &&& final(self).slots() == old(self).slots()
                    &&& final(self).guaranteed_capacity() == old(self).guaranteed_capacity()
                    &&& final(self).allocations() == old(self).allocations()
                    &&& final(self).deallocations() == old(self).deallocations()
                    &&& error == StorageError::AllocationFailed
                },
            },
    ;

    /// Puts `value` into the slot at `index`, replacing what the slot held.
    fn write(&mut self, index: usize, value: T)
        requires
            old(self).wf(),
            index < old(self).slots().len(),
        ensures
            final(self).wf(),
            final(self).slots() == old(self).slots().update(index as int, Some(value)),
            final(self).spec_max_capacity() == old(self).spec_max_capacity(),
            final(self).guaranteed_capacity() == old(self).guaranteed_capacity(),
            final(self).allocations() == old(self).allocations(),
            final(self).deallocations() == old(self).deallocations(),
    ;

    /// Looks at the element in the slot at `index`.
    fn read(&self, index: usize) -> (element: &T)
        requires
            self.wf(),
            index < self.slots().len(),
            self.slots()[index as int] is Some,
        ensures
            self.slots()[index as int] == Some(*element),
    ;

    /// Gives access to the element in the slot at `index`, to change it in
    /// place.
    fn read_mut(&mut self, index: usize) -> (element: &mut T)
        requires
            old(self).wf(),
            index < old(self).slots().len(),
            old(self).slots()[index as int] is Some,
        ensures
            old(self).slots()[index as int] == Some(*element),
            final(self).wf(),
            final(self).slots() == old(self).slots().update(index as int, Some(*final(element))),
            final(self).spec_max_capacity() == old(self).spec_max_capacity(),
            final(self).guaranteed_capacity() == old(self).guaranteed_capacity(),
            final(self).allocations() == old(self).allocations(),
            final(self).deallocations() == old(self).deallocations(),
    ;

    /// Empties the slot at `index` and hands out what it held.
    fn take(&mut self, index: usize) -> (element: Option<T>)
        requires
            old(self).wf(),
            index < old(self).slots().len(),
        ensures
            final(self).wf(),
            element == old(self).slots()[index as int],
            final(self).slots() == old(self).slots().update(index as int, None),
            final(self).spec_max_capacity() == old(self).spec_max_capacity(),
            final(self).guaranteed_capacity() == old(self).guaranteed_capacity(),
            final(self).allocations() == old(self).allocations(),
            final(self).deallocations() == old(self).deallocations(),
    ;
}

/// The source of memory behind an allocator-backed storage.
///
/// A block is a run of empty slots. Every allocator keeps count, in its
/// model, of the blocks it handed out and of those it took back.
pub trait Allocator {
    /// How many blocks this allocator has handed out.
    spec fn allocations(&self) -> nat;

    /// How many blocks this allocator has taken back.
    spec fn deallocations(&self) -> nat;

    /// The representation invariant of the allocator.
    spec fn wf(&self) -> bool;

    /// A well-formed allocator has taken back no more blocks than it handed
    /// out.
    proof fn lemma_outstanding(&self)
        requires
            self.wf(),
        ensures
            self.deallocations() <= self.allocations(),
    ;

    /// Asks for a block of `capacity` empty slots. `None` signals that the
    /// allocator could not provide it; nothing is counted then.
    fn allocate<T>(&mut self, capacity: usize) -> (block: Option<Vec<Option<T>>>)
        requires
            old(self).wf(),
        ensures
            final(self).wf(),
            final(self).deallocations() == old(self).deallocations(),
            match block {
                Some(slots) => {
                    &&& slots@.len() == capacity
                    &&& forall|i: int| 0 <= i < capacity ==> slots@[i] is None
                    &&& final(self).allocations() == old(self).allocations() + 1
                },
                None => final(self).allocations() == old(self).allocations(),
            },
    ;

    /// Gives back a block that is still outstanding.
    fn deallocate<T>(&mut self, block: Vec<Option<T>>)
        requires
            old(self).wf(),
            old(self).deallocations() < old(self).allocations(),
        ensures
            final(self).wf(),
            final(self).allocations() == old(self).allocations(),
            final(self).deallocations() == old(self).deallocations() + 1,
    ;
}

} // verus!
