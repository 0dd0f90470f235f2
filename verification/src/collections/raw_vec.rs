//! A growable contiguous buffer over a single-range storage.

use crate::traits::grown_capacity;
use crate::traits::growth_error;
use crate::traits::growth_allocations;
use crate::traits::growth_deallocations;
use crate::traits::same_footing;
use crate::traits::SingleRangeStorage;
use crate::traits::StorageError;
use std::marker::PhantomData;
use vstd::prelude::*;

verus! {

/// The capacity to ask of the storage when `required` slots are needed and
/// `capacity` are there: twice the capacity, or `required` where that is
/// more. Where twice the capacity is no `usize`, it is `required`.
pub open spec fn spec_growth_target(capacity: nat, required: nat) -> nat {
    if required <= 2 * capacity <= usize::MAX {
        2 * capacity
    } else {
        required
    }
}

/// Computes the capacity to ask for under the doubling policy.
pub fn growth_target(capacity: usize, required: usize) -> (target: usize)
    ensures
        target == spec_growth_target(capacity as nat, required as nat),
        target >= required,
{
    match capacity.checked_mul(2) {
        Some(doubled) => if doubled >= required {
            doubled
        } else {
            required
        },
        None => required,
    }
}

/// A sequence of elements held in the first slots of a storage.
///
/// The slots below the length hold the elements; the slots from the length
/// up to the capacity are empty.
pub struct RawVec<T, S: SingleRangeStorage<T>> {
    storage: S,
    len: usize,
    marker: PhantomData<T>,
}

impl<T, S: SingleRangeStorage<T>> View for RawVec<T, S> {
    type V = Seq<T>;

    closed spec fn view(&self) -> Seq<T> {
        Seq::new(self.len as nat, |i: int| self.storage.slots()[i]->0)
    }
}

/// Empties the slots of `storage` from `start` on, in rising order.
fn clear_from<T, S: SingleRangeStorage<T>>(storage: &mut S, start: usize)
    requires
        old(storage).wf(),
    ensures
        final(storage).wf(),
        same_footing::<T, S>(*old(storage), *final(storage)),
        forall|i: int|
            0 <= i < start && i < old(storage).slots().len()
                ==> final(storage).slots()[i] == old(storage).slots()[i],
        forall|i: int|
            start <= i < old(storage).slots().len() ==> final(storage).slots()[i] is None,
{
    let capacity = storage.capacity();
    let mut index = start;
    while index < capacity
        invariant
            storage.wf(),
            capacity == storage.slots().len(),
            same_footing::<T, S>(*old(storage), *storage),
            start <= index,
            forall|i: int|
                0 <= i < start && i < capacity ==> storage.slots()[i] == old(storage).slots()[i],
            forall|i: int| start <= i < index && i < capacity ==> storage.slots()[i] is None,
        decreases capacity - index,
    {
        let _ = storage.take(index);
        index += 1;
    }
}

impl<T, S: SingleRangeStorage<T>> RawVec<T, S> {
    /// The representation invariant: the length is within the capacity, the
    /// slots below the length are filled and the others are empty.
    pub closed spec fn wf(&self) -> bool {
        &&& self.storage.wf()
        &&& self.len <= self.storage.slots().len()
        &&& forall|i: int| 0 <= i < self.len ==> self.storage.slots()[i] is Some
        &&& forall|i: int|
            self.len <= i < self.storage.slots().len() ==> self.storage.slots()[i] is None
    }

    /// The storage behind the buffer, as a mathematical value.
    pub closed spec fn spec_storage(&self) -> S {
        self.storage
    }

    /// The number of elements, as a mathematical value.
    pub open spec fn spec_len(&self) -> nat {
        self@.len()
    }

    /// The capacity of the storage, as a mathematical value.
    pub open spec fn spec_capacity(&self) -> nat {
        self.spec_storage().slots().len()
    }

    /// The length never exceeds the capacity, and the capacity never exceeds
    /// the bound of the storage.
    pub proof fn lemma_len_within_capacity(&self)
        requires
            self.wf(),
        ensures
            self.spec_len() <= self.spec_capacity(),
            self.spec_capacity() <= self.spec_storage().guaranteed_capacity(),
            self.spec_storage().guaranteed_capacity() <= self.spec_storage().spec_max_capacity(),
            self.spec_storage().spec_max_capacity() <= usize::MAX,
            self.spec_storage().wf(),
    {
        self.storage.lemma_capacity_bounds();
    }

    /// An empty buffer over `storage`. Whatever the slots of `storage` held
    /// is dropped.
    pub fn new(storage: S) -> (buffer: Self)
        requires
            storage.wf(),
        ensures
            buffer.wf(),
            buffer@ == Seq::<T>::empty(),
            same_footing::<T, S>(storage, buffer.spec_storage()),
    {
        let mut storage = storage;
        clear_from(&mut storage, 0);
        RawVec { storage, len: 0, marker: PhantomData }
    }

    /// Whether two states of a buffer have the same capacity, over a storage
    /// with the same bounds and the same counts of blocks.
    pub open spec fn same_room(before: Self, after: Self) -> bool {
        same_footing::<T, S>(before.spec_storage(), after.spec_storage())
    }

    /// What `reserve` promises of the capacity when room for `additional`
    /// more elements was asked of `before`, and `after` and `result` came of
    /// it.
    ///
    /// Where the elements fit already the storage is not asked and the
    /// request succeeds. Otherwise the storage is asked once, for the
    /// capacity that the doubling policy gives; if it grows, it allocates
    /// one block and gives back the one it held. The request succeeds where
    /// the storage guarantees that capacity, and gives exactly that
    /// capacity. A failure leaves the capacity as it was; the error is
    /// `AllocationFailed` unless the capacity asked for is beyond the bound
    /// of the storage.
    pub open spec fn reserved(
        before: Self,
        after: Self,
        additional: nat,
        result: Result<(), StorageError>,
    ) -> bool {
        let capacity = before.spec_capacity();
        let required = before.spec_len() + additional;
        let target = spec_growth_target(capacity, required);
        &&& after.spec_storage().spec_max_capacity() == before.spec_storage().spec_max_capacity()
        &&& required <= capacity ==> result is Ok
        &&& target <= before.spec_storage().guaranteed_capacity() ==> result is Ok
        &&& match result {
            Ok(()) => {
                &&& after.spec_capacity() == if required > capacity {
                    target
                } else {
                    capacity
                }
                &&& after.spec_capacity() >= required
                &&& after.spec_storage().guaranteed_capacity()
                    >= before.spec_storage().guaranteed_capacity()
                &&& after.spec_storage().allocations() == before.spec_storage().allocations()
                    + growth_allocations(capacity, required)
                &&& after.spec_storage().deallocations() == before.spec_storage().deallocations()
                    + growth_deallocations(capacity, required)
            },
            Err(error) => {
                &&& required > capacity
                &&& Self::same_room(before, after)
                &&& error == growth_error(before.spec_storage().spec_max_capacity(), target)
            },
        }
    }

    /// An empty buffer over `storage`, grown to at least `capacity` slots.
    /// Whatever the slots of `storage` held is dropped.
    ///
    /// A capacity beyond the bound of the storage is not to be asked for.
    /// Where the storage cannot have the memory, nothing is built and the
    /// storage comes back as it was, with the error.
    pub fn with_capacity(storage: S, capacity: usize) -> (result: Result<Self, (StorageError, S)>)
        requires
            storage.wf(),
            capacity <= storage.spec_max_capacity(),
        ensures
            capacity <= storage.guaranteed_capacity() ==> result is Ok,
            match result {
                Ok(buffer) => {
                    &&& buffer.wf()
                    &&& buffer@ == Seq::<T>::empty()
                    &&& buffer.spec_capacity() == grown_capacity(
                        storage.slots().len(),
                        capacity as nat,
                    )
                    &&& buffer.spec_storage().spec_max_capacity() == storage.spec_max_capacity()
                    &&& buffer.spec_storage().guaranteed_capacity()
                        >= storage.guaranteed_capacity()
                    &&& buffer.spec_storage().allocations() == storage.allocations()
                        + growth_allocations(storage.slots().len(), capacity as nat)
                    &&& buffer.spec_storage().deallocations() == storage.deallocations()
                        + growth_deallocations(storage.slots().len(), capacity as nat)
                },
                Err((error, returned)) => {
                    &&& capacity > storage.guaranteed_capacity()
                    &&& error == StorageError::AllocationFailed
                    &&& returned.wf()
                    &&& returned.slots() == storage.slots()
                    &&& same_footing::<T, S>(storage, returned)
                },
            },
    {
        let mut grown = storage;
        match grown.grow(capacity) {
            Ok(()) => Ok(RawVec::new(grown)),
            Err(error) => Err((error, grown)),
        }
    }

    /// Makes room for `additional` more elements, growing the storage under
    /// the doubling policy where they do not fit. The elements stay as they
    /// are, whether the request succeeds or fails.
    ///
    /// Room beyond the bound of the storage is not to be asked for.
    pub fn reserve(&mut self, additional: usize) -> (result: Result<(), StorageError>)
        requires
            old(self).wf(),
            old(self).spec_len() + additional <= old(self).spec_storage().spec_max_capacity(),
        ensures
            final(self).wf(),
            final(self)@ == old(self)@,
            final(self).spec_len() <= final(self).spec_capacity(),
            Self::reserved(*old(self), *final(self), additional as nat, result),
            old(self).spec_len() + additional <= old(self).spec_capacity()
                ==> final(self).spec_storage() == old(self).spec_storage(),
    {
        proof {
            self.storage.lemma_capacity_bounds();
        }
        let capacity = self.storage.capacity();
        let required = self.len + additional;
        if required <= capacity {
            return Ok(());
        }
        let target = growth_target(capacity, required);
        let result = self.storage.grow(target);
        proof {
            self.storage.lemma_capacity_bounds();
            assert(final(self)@ =~= old(self)@);
        }
        result
    }

    /// Appends `value`. On failure the buffer is left as it was and `value`
    /// is dropped.
    ///
    /// A buffer that holds as many elements as the bound of its storage
    /// allows is not to be pushed to.
    pub fn push(&mut self, value: T) -> (result: Result<(), StorageError>)
        requires
            old(self).wf(),
            old(self).spec_len() + 1 <= old(self).spec_storage().spec_max_capacity(),
        ensures
            final(self).wf(),
            final(self).spec_len() <= final(self).spec_capacity(),
            Self::reserved(*old(self), *final(self), 1, result),
            match result {
                Ok(()) => final(self)@ == old(self)@.push(value),
                Err(_) => final(self)@ == old(self)@,
            },
    {
        match self.reserve(1) {
            Ok(()) => {},
            Err(error) => { return Err(error); },
        }
        proof {
            self.storage.lemma_capacity_bounds();
        }
        self.storage.write(self.len, value);
        self.len = self.len + 1;
        proof {
            assert(final(self)@ =~= old(self)@.push(value));
        }
        Ok(())
    }

    /// Appends copies of `values`, in order. On failure the buffer is left
    /// as it was.
    ///
    /// More elements than the bound of the storage allows are not to be
    /// appended.
    pub fn extend_from_slice(&mut self, values: &[T]) -> (result: Result<(), StorageError>) where
        T: Copy,

        requires
            old(self).wf(),
            old(self).spec_len() + values@.len() <= old(self).spec_storage().spec_max_capacity(),
        ensures
            final(self).wf(),
            final(self).spec_len() <= final(self).spec_capacity(),
            Self::reserved(*old(self), *final(self), values@.len(), result),
            match result {
                Ok(()) => final(self)@ == old(self)@ + values@,
                Err(_) => final(self)@ == old(self)@,
            },
    {
        match self.reserve(values.len()) {
            Ok(()) => {},
            Err(error) => { return Err(error); },
        }
        let ghost reserved = *self;
        let mut copied: usize = 0;
        while copied < values.len()
            invariant
                self.wf(),
                copied <= values@.len(),
                self.len == old(self).len + copied,
                old(self).len + values@.len() <= self.storage.slots().len(),
                same_footing::<T, S>(reserved.storage, self.storage),
                self@ == old(self)@ + values@.subrange(0, copied as int),
            decreases values@.len() - copied,
        {
            let ghost before = self@;
            proof {
                self.storage.lemma_capacity_bounds();
            }
            self.storage.write(self.len, values[copied]);
            self.len = self.len + 1;
            copied += 1;
            proof {
                assert(self@ =~= before.push(values@[copied - 1]));
                assert(values@.subrange(0, copied as int) =~= values@.subrange(
                    0,
                    copied - 1,
                ).push(values@[copied - 1]));
                assert(self@ =~= old(self)@ + values@.subrange(0, copied as int));
            }
        }
        proof {
            assert(values@.subrange(0, copied as int) =~= values@);
        }
        Ok(())
    }

    /// The element at `index`.
    pub fn get(&self, index: usize) -> (element: &T)
        requires
            self.wf(),
            index < self.spec_len(),
        ensures
            *element == self@[index as int],
    {
        self.storage.read(index)
    }

    /// Gives access to the element at `index`, to change it in place.
    pub fn get_mut(&mut self, index: usize) -> (element: &mut T)
        requires
            old(self).wf(),
            index < old(self).spec_len(),
        ensures
            *element == old(self)@[index as int],
            final(self).wf(),
            final(self)@ == old(self)@.update(index as int, *final(element)),
            Self::same_room(*old(self), *final(self)),
    {
        self.storage.read_mut(index)
    }

    /// Puts `value` in the place of the element at `index` and hands out
    /// the element that was there.
    pub fn replace(&mut self, index: usize, value: T) -> (previous: T)
        requires
            old(self).wf(),
            index < old(self).spec_len(),
        ensures
            final(self).wf(),
            previous == old(self)@[index as int],
            final(self)@ == old(self)@.update(index as int, value),
            Self::same_room(*old(self), *final(self)),
    {
        let previous = self.storage.take(index);
        self.storage.write(index, value);
        proof {
            assert(final(self)@ =~= old(self)@.update(index as int, value));
        }
        previous.unwrap()
    }

    /// Replaces the element at `index` by `value`.
    pub fn set(&mut self, index: usize, value: T)
        requires
            old(self).wf(),
            index < old(self).spec_len(),
        ensures
            final(self).wf(),
            final(self)@ == old(self)@.update(index as int, value),
            Self::same_room(*old(self), *final(self)),
    {
        self.storage.write(index, value);
        proof {
            assert(final(self)@ =~= old(self)@.update(index as int, value));
        }
    }

    /// Removes the last element and hands it out; `None` where the buffer is
    /// empty. The capacity stays as it is.
    pub fn pop(&mut self) -> (element: Option<T>)
        requires
            old(self).wf(),
        ensures
            final(self).wf(),
            Self::same_room(*old(self), *final(self)),
            match element {
                Some(last) => {
                    &&& old(self).spec_len() > 0
                    &&& last == old(self)@.last()
                    &&& final(self)@ == old(self)@.drop_last()
                },
                None => old(self).spec_len() == 0 && final(self)@ == old(self)@,
            },
    {
        if self.len == 0 {
            return None;
        }
        self.len = self.len - 1;
        let element = self.storage.take(self.len);
        proof {
            assert(final(self)@ =~= old(self)@.drop_last());
        }
        element
    }

    /// Drops every element, the first one first. The capacity stays as it is.
    pub fn clear(&mut self)
        requires
            old(self).wf(),
        ensures
            final(self).wf(),
            final(self)@ == Seq::<T>::empty(),
            Self::same_room(*old(self), *final(self)),
    {
        clear_from(&mut self.storage, 0);
        self.len = 0;
    }

    /// Ends the buffer: drops every element, the first one first, and hands
    /// out the storage with all its slots empty.
    pub fn into_storage(self) -> (storage: S)
        requires
            self.wf(),
        ensures
            storage.wf(),
            same_footing::<T, S>(self.spec_storage(), storage),
            forall|i: int| 0 <= i < storage.slots().len() ==> storage.slots()[i] is None,
    {
        let mut storage = self.storage;
        clear_from(&mut storage, 0);
        storage
    }

    /// Copies of the elements, in order.
    pub fn to_vec(&self) -> (elements: Vec<T>) where T: Copy
        requires
            self.wf(),
        ensures
            elements@ == self@,
    {
        let mut elements: Vec<T> = Vec::new();
        let mut index: usize = 0;
        while index < self.len
            invariant
                self.wf(),
                index <= self.len,
                elements@ == self@.subrange(0, index as int),
            decreases self.len - index,
        {
            let element = *self.storage.read(index);
            elements.push(element);
            index += 1;
            proof {
                assert(elements@ =~= self@.subrange(0, index as int));
            }
        }
        proof {
            assert(self@.subrange(0, index as int) =~= self@);
        }
        elements
    }

    /// The number of elements.
    pub fn len(&self) -> (len: usize)
        requires
            self.wf(),
        ensures
            len == self.spec_len(),
    {
        self.len
    }

    /// Whether the buffer holds no element.
    pub fn is_empty(&self) -> (empty: bool)
        requires
            self.wf(),
        ensures
            empty == (self.spec_len() == 0),
    {
        self.len == 0
    }

    /// The number of elements the buffer can hold before it has to grow.
    pub fn capacity(&self) -> (capacity: usize)
        requires
            self.wf(),
        ensures
            capacity == self.spec_capacity(),
    {
        self.storage.capacity()
    }

    /// The storage behind the buffer.
    pub fn storage(&self) -> (storage: &S)
        ensures
            *storage == self.spec_storage(),
    {
        &self.storage
    }
}

} // verus!
