//! A box for a single value over a single-range storage.

use crate::traits::same_footing;
use crate::traits::SingleRangeStorage;
use crate::traits::StorageError;
use std::marker::PhantomData;
use vstd::prelude::*;

verus! {

/// At most one value, held in the first slot of a storage.
pub struct RawBox<T, S: SingleRangeStorage<T>> {
    storage: S,
    occupied: bool,
    marker: PhantomData<T>,
}

impl<T, S: SingleRangeStorage<T>> View for RawBox<T, S> {
    type V = Option<T>;

    closed spec fn view(&self) -> Option<T> {
        self.storage.slots()[0]
    }
}

impl<T, S: SingleRangeStorage<T>> RawBox<T, S> {
    /// The representation invariant: the storage has a slot for the value.
    pub closed spec fn wf(&self) -> bool {
        &&& self.storage.wf()
        &&& self.storage.slots().len() >= 1
        &&& self.occupied == (self.storage.slots()[0] is Some)
    }

    /// The storage behind the box, as a mathematical value.
    pub closed spec fn spec_storage(&self) -> S {
        self.storage
    }

    /// Whether the box holds a value, as a mathematical value.
    pub open spec fn spec_is_occupied(&self) -> bool {
        self@ is Some
    }

    /// A box over `storage` that holds `value`.
    ///
    /// Fails with `InvalidConstruction` exactly where the storage has no
    /// slot; the storage is never asked to grow. Nothing is built then:
    /// `value` is dropped and the storage comes back as it was, with the
    /// error.
    pub fn new(storage: S, value: T) -> (result: Result<Self, (StorageError, S)>)
        requires
            storage.wf(),
        ensures
            result is Ok <==> storage.slots().len() >= 1,
            match result {
                Ok(boxed) => {
                    &&& boxed.wf()
                    &&& boxed@ == Some(value)
                    &&& same_footing::<T, S>(storage, boxed.spec_storage())
                },
                Err((error, returned)) => {
                    &&& error == StorageError::InvalidConstruction
                    &&& returned == storage
                },
            },
    {
        let mut storage = storage;
        if storage.capacity() == 0 {
            return Err((StorageError::InvalidConstruction, storage));
        }
        storage.write(0, value);
        Ok(RawBox { storage, occupied: true, marker: PhantomData })
    }

    /// Whether the box holds a value.
    pub fn is_occupied(&self) -> (occupied: bool)
        requires
            self.wf(),
        ensures
            occupied == self.spec_is_occupied(),
    {
        self.occupied
    }

    /// The value in the box.
    pub fn get(&self) -> (value: &T)
        requires
            self.wf(),
            self.spec_is_occupied(),
        ensures
            self@ == Some(*value),
    {
        self.storage.read(0)
    }

    /// Gives access to the value in the box, to change it in place.
    pub fn get_mut(&mut self) -> (value: &mut T)
        requires
            old(self).wf(),
            old(self).spec_is_occupied(),
        ensures
            old(self)@ == Some(*value),
            final(self).wf(),
            final(self)@ == Some(*final(value)),
            same_footing::<T, S>(old(self).spec_storage(), final(self).spec_storage()),
    {
        self.storage.read_mut(0)
    }

    /// Puts `value` into the box. What the box held is dropped.
    pub fn set(&mut self, value: T)
        requires
            old(self).wf(),
        ensures
            final(self).wf(),
            final(self)@ == Some(value),
            same_footing::<T, S>(old(self).spec_storage(), final(self).spec_storage()),
    {
        self.storage.write(0, value);
        self.occupied = true;
    }

    /// Puts `value` into the box and hands out the value that was there.
    pub fn replace(&mut self, value: T) -> (previous: T)
        requires
            old(self).wf(),
            old(self).spec_is_occupied(),
        ensures
            final(self).wf(),
            old(self)@ == Some(previous),
            final(self)@ == Some(value),
            same_footing::<T, S>(old(self).spec_storage(), final(self).spec_storage()),
    {
        let previous = self.storage.take(0);
        self.storage.write(0, value);
        previous.unwrap()
    }

    /// Empties the box and hands out what it held.
    pub fn take(&mut self) -> (value: Option<T>)
        requires
            old(self).wf(),
        ensures
            final(self).wf(),
            value == old(self)@,
            final(self)@ == None::<T>,
            same_footing::<T, S>(old(self).spec_storage(), final(self).spec_storage()),
    {
        self.occupied = false;
        self.storage.take(0)
    }

    /// Ends the box: drops the value, if there is one, and hands out the
    /// storage with its first slot empty and the others as they were.
    pub fn into_storage(self) -> (storage: S)
        requires
            self.wf(),
        ensures
            storage.wf(),
            storage.slots() == self.spec_storage().slots().update(0, None),
            same_footing::<T, S>(self.spec_storage(), storage),
    {
        let mut storage = self.storage;
        let _ = storage.take(0);
        storage
    }
}

} // verus!
