use storage_poc::allocator::SingleRange as HeapRange;
use storage_poc::collections::RawBox;
use storage_poc::inline::SingleRange;
use storage_poc::traits::SingleRangeStorage;
use storage_poc::traits::StorageError;
use storage_poc::utils::SpyAllocator;

#[test]
fn box_over_storage_without_a_slot_fails() {
    let inline: Result<RawBox<u32, SingleRange<u32, 0>>, (StorageError, SingleRange<u32, 0>)> =
        RawBox::new(SingleRange::new(), 1);
    assert!(matches!(inline, Err((StorageError::InvalidConstruction, _))));

    let heap = RawBox::new(HeapRange::<u32, SpyAllocator>::new(SpyAllocator::new()), 1);
    let (error, storage) = match heap {
        Ok(_) => panic!("built without a slot"),
        Err(failure) => failure,
    };
    assert_eq!(StorageError::InvalidConstruction, error);
    assert_eq!(0, storage.capacity());
    let allocator = storage.release();
    assert_eq!(0, allocator.allocated());
    assert_eq!(0, allocator.deallocated());

    let none = RawBox::new(HeapRange::<u32, SpyAllocator>::new(SpyAllocator::with_limit(0)), 1);
    assert!(matches!(none, Err((StorageError::InvalidConstruction, _))));
}

#[test]
fn box_holds_the_value_it_was_built_with() {
    let boxed: RawBox<u32, SingleRange<u32, 1>> = RawBox::new(SingleRange::new(), 41).unwrap();
    assert!(boxed.is_occupied());
    assert_eq!(41, *boxed.get());
}

#[test]
fn replace_returns_the_prior_value_and_installs_the_new_one() {
    let mut boxed: RawBox<u32, SingleRange<u32, 1>> = RawBox::new(SingleRange::new(), 1).unwrap();
    boxed.set(2);
    assert_eq!(2, boxed.replace(3));
    assert_eq!(3, *boxed.get());
    assert_eq!(3, boxed.replace(4));
    assert_eq!(4, *boxed.get());
    assert!(boxed.is_occupied());
}

#[test]
fn box_over_a_larger_storage_uses_the_first_slot() {
    let mut storage: HeapRange<String, SpyAllocator> = HeapRange::new(SpyAllocator::new());
    storage.grow(3).unwrap();
    let mut boxed = RawBox::new(storage, String::from("a")).unwrap();
    boxed.get_mut().push('b');
    assert_eq!("ab", boxed.get());
    assert_eq!(String::from("ab"), boxed.replace(String::from("c")));
    let mut storage = boxed.into_storage();
    assert_eq!(3, storage.capacity());
    assert_eq!(None, storage.take(0));
    let allocator = storage.release();
    assert_eq!(1, allocator.allocated());
    assert_eq!(1, allocator.deallocated());
}

#[test]
fn take_empties_the_box() {
    let mut boxed: RawBox<u32, SingleRange<u32, 1>> = RawBox::new(SingleRange::new(), 5).unwrap();
    assert_eq!(Some(5), boxed.take());
    assert!(!boxed.is_occupied());
    assert_eq!(None, boxed.take());
    boxed.set(6);
    assert!(boxed.is_occupied());
    assert_eq!(6, *boxed.get());
}
