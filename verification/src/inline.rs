//! Storage embedded in the container itself: a fixed number of slots, no
//! allocation, ever.

use crate::traits::Capacity;
use crate::traits::SingleRangeStorage;
use crate::traits::StorageError;
use vstd::prelude::*;

verus! {

/// `N` slots held in place. The capacity is `N` from the start and never
/// changes; a request for more fails.
#[derive(Debug)]
pub struct SingleRange<T, const N: usize> {
    slots: [Option<T>; N],
}

/// The inline storage under the name that byte containers use for it.
pub type U8Storage<T, const N: usize> = SingleRange<T, N>;

impl<T: Copy, const N: usize> SingleRange<T, N> {
    /// A storage of `N` empty slots.
    pub fn new() -> (storage: Self)
        ensures
            storage.wf(),
            storage.slots().len() == N,
            forall|i: int| 0 <= i < N ==> storage.slots()[i] is None,
            storage.guaranteed_capacity() == N,
            storage.spec_max_capacity() == N,
    {
        SingleRange { slots: [None; N] }
    }
}

impl<T: Copy, const N: usize> Default for SingleRange<T, N> {
    fn default() -> (storage: Self)
        ensures
            storage.wf(),
            storage.slots().len() == N,
            forall|i: int| 0 <= i < N ==> storage.slots()[i] is None,
            storage.guaranteed_capacity() == N,
            storage.spec_max_capacity() == N,
    {
        SingleRange::new()
    }
}

impl<T, const N: usize> Capacity for SingleRange<T, N> {
    open spec fn spec_max_capacity(&self) -> nat {
        N as nat
    }

    fn max_capacity(&self) -> (max: usize) {
        N
    }
}

impl<T, const N: usize> SingleRangeStorage<T> for SingleRange<T, N> {
    closed spec fn slots(&self) -> Seq<Option<T>> {
        self.slots@
    }

    open spec fn guaranteed_capacity(&self) -> nat {
        N as nat
    }

    open spec fn allocations(&self) -> nat {
        0
    }

    open spec fn deallocations(&self) -> nat {
        0
    }

    open spec fn wf(&self) -> bool {
        self.slots().len() == N
    }

    proof fn lemma_capacity_bounds(&self) {
    }

    fn capacity(&self) -> (capacity: usize) {
        N
    }

    fn grow(&mut self, new_capacity: usize) -> (result: Result<(), StorageError>)
        ensures
            result is Ok <==> new_capacity <= N,
            *final(self) == *old(self),
    {
        if new_capacity <= N {
            Ok(())
        } else {
            Err(StorageError::CapacityExceeded)
        }
    }

    fn shrink(&mut self, new_capacity: usize) -> (result: Result<(), StorageError>)
        ensures
            result is Ok,
            *final(self) == *old(self),
    {
        Ok(())
    }

    fn write(&mut self, index: usize, value: T) {
        self.slots[index] = Some(value);
    }

    fn read(&self, index: usize) -> (element: &T) {
        self.slots[index].as_ref().unwrap()
    }

    fn read_mut(&mut self, index: usize) -> (element: &mut T) {
        match &mut self.slots[index] {
            Some(element) => element,
            None => vstd::pervasive::unreached(),
        }
    }

    fn take(&mut self, index: usize) -> (element: Option<T>) {
        self.slots[index].take()
    }
}

} // verus!
