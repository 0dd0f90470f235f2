use storage_poc::allocator::SingleRange as HeapRange;
use storage_poc::inline::SingleRange;
use storage_poc::inline::U8Storage;
use storage_poc::traits::Allocator;
use storage_poc::traits::Capacity;
use storage_poc::traits::SingleRangeStorage;
use storage_poc::traits::StorageError;
use storage_poc::utils::block_after_reserve;
use storage_poc::utils::SpyAllocator;

#[test]
fn inline_storage_has_its_capacity_from_the_start() {
    let storage: SingleRange<u8, 7> = SingleRange::new();
    assert_eq!(7, storage.capacity());
    assert_eq!(7, storage.max_capacity());
    let storage: U8Storage<u8, 31> = U8Storage::default();
    assert_eq!(31, storage.capacity());
    let storage: SingleRange<u8, 0> = SingleRange::new();
    assert_eq!(0, storage.capacity());
}

#[test]
fn inline_storage_grows_up_to_its_bound_only() {
    let mut storage: SingleRange<u8, 5> = SingleRange::new();
    storage.write(0, 9);
    assert_eq!(Ok(()), storage.grow(0));
    assert_eq!(Ok(()), storage.grow(5));
    assert_eq!(Err(StorageError::CapacityExceeded), storage.grow(6));
    assert_eq!(Err(StorageError::CapacityExceeded), storage.grow(usize::MAX));
    assert_eq!(5, storage.capacity());
    assert_eq!(9, *storage.read(0));
}

#[test]
fn inline_storage_shrinks_to_nothing_less() {
    let mut storage: SingleRange<u8, 5> = SingleRange::new();
    storage.write(4, 1);
    assert_eq!(Ok(()), storage.shrink(0));
    assert_eq!(Ok(()), storage.shrink(9));
    assert_eq!(5, storage.capacity());
    assert_eq!(1, *storage.read(4));
}

#[test]
fn slots_are_written_read_changed_and_taken() {
    let mut storage: SingleRange<u32, 3> = SingleRange::new();
    storage.write(1, 10);
    assert_eq!(10, *storage.read(1));
    *storage.read_mut(1) = 11;
    assert_eq!(11, *storage.read(1));
    storage.write(1, 12);
    assert_eq!(Some(12), storage.take(1));
    assert_eq!(None, storage.take(1));
    assert_eq!(None, storage.take(0));

    let mut storage: HeapRange<u32, SpyAllocator> = HeapRange::new(SpyAllocator::new());
    storage.grow(2).unwrap();
    storage.write(1, 10);
    assert_eq!(10, *storage.read(1));
    *storage.read_mut(1) = 11;
    assert_eq!(Some(11), storage.take(1));
    assert_eq!(None, storage.take(1));
    assert_eq!(None, storage.take(0));
}

#[test]
fn allocator_storage_starts_without_a_block() {
    let storage: HeapRange<u32, SpyAllocator> = HeapRange::new(SpyAllocator::new());
    assert_eq!(0, storage.capacity());
    assert_eq!(usize::MAX, storage.max_capacity());
    assert_eq!(0, storage.allocator().allocated());
    let allocator = storage.release();
    assert_eq!(0, allocator.allocated());
    assert_eq!(0, allocator.deallocated());
}

#[test]
fn allocator_storage_grows_to_exactly_what_is_asked() {
    let mut storage: HeapRange<u32, SpyAllocator> = HeapRange::new(SpyAllocator::new());
    assert_eq!(Ok(()), storage.grow(3));
    assert_eq!(3, storage.capacity());
    storage.write(0, 1);
    storage.write(2, 3);
    assert_eq!(Ok(()), storage.grow(10));
    assert_eq!(10, storage.capacity());
    assert_eq!(1, *storage.read(0));
    assert_eq!(None, storage.take(1));
    assert_eq!(3, *storage.read(2));
    assert_eq!(None, storage.take(3));
    assert_eq!(None, storage.take(9));
    assert_eq!(2, storage.allocator().allocated());
    assert_eq!(1, storage.allocator().deallocated());
}

#[test]
fn growth_within_the_capacity_allocates_nothing() {
    let mut storage: HeapRange<u32, SpyAllocator> = HeapRange::new(SpyAllocator::new());
    storage.grow(4).unwrap();
    assert_eq!(Ok(()), storage.grow(4));
    assert_eq!(Ok(()), storage.grow(2));
    assert_eq!(Ok(()), storage.grow(0));
    assert_eq!(4, storage.capacity());
    assert_eq!(1, storage.allocator().allocated());
    assert_eq!(0, storage.allocator().deallocated());
}

#[test]
fn allocator_storage_shrinks_by_moving_to_a_smaller_block() {
    let mut storage: HeapRange<u32, SpyAllocator> = HeapRange::new(SpyAllocator::new());
    storage.grow(8).unwrap();
    storage.write(0, 1);
    storage.write(1, 2);
    storage.write(7, 8);
    assert_eq!(Ok(()), storage.shrink(9));
    assert_eq!(8, storage.capacity());
    assert_eq!(1, storage.allocator().allocated());
    assert_eq!(Ok(()), storage.shrink(2));
    assert_eq!(2, storage.capacity());
    assert_eq!(1, *storage.read(0));
    assert_eq!(2, *storage.read(1));
    assert_eq!(2, storage.allocator().allocated());
    assert_eq!(1, storage.allocator().deallocated());
    assert_eq!(Ok(()), storage.shrink(0));
    assert_eq!(0, storage.capacity());
    assert_eq!(2, storage.allocator().allocated());
    assert_eq!(2, storage.allocator().deallocated());
    let allocator = storage.release();
    assert_eq!(2, allocator.deallocated());
}

#[test]
fn release_gives_the_block_back_once() {
    let mut storage: HeapRange<u32, SpyAllocator> = HeapRange::new(SpyAllocator::new());
    storage.grow(1).unwrap();
    storage.grow(2).unwrap();
    storage.grow(3).unwrap();
    let allocator = storage.release();
    assert_eq!(3, allocator.allocated());
    assert_eq!(3, allocator.deallocated());
}

#[test]
fn storage_without_memory_fails_to_grow() {
    let mut storage: HeapRange<u32, SpyAllocator> = HeapRange::new(SpyAllocator::with_limit(0));
    assert_eq!(Ok(()), storage.grow(0));
    assert_eq!(Err(StorageError::AllocationFailed), storage.grow(1));
    assert_eq!(0, storage.capacity());
    assert_eq!(Ok(()), storage.shrink(0));
}

#[test]
fn spy_allocator_counts_blocks() {
    let mut spy = SpyAllocator::default();
    assert_eq!(0, spy.allocated());
    assert_eq!(0, spy.deallocated());
    let block = spy.allocate::<u8>(4).unwrap();
    assert_eq!(vec![None; 4], block);
    assert_eq!(1, spy.allocated());
    let empty = spy.allocate::<u8>(0).unwrap();
    assert_eq!(0, empty.len());
    assert_eq!(2, spy.allocated());
    spy.deallocate(block);
    assert_eq!(1, spy.deallocated());
    spy.deallocate(empty);
    assert_eq!(2, spy.allocated());
    assert_eq!(2, spy.deallocated());
}

#[test]
fn spy_allocator_refuses_what_the_heap_cannot_hold() {
    let mut spy = SpyAllocator::new();
    assert!(spy.allocate::<u64>(usize::MAX).is_none());
    assert_eq!(0, spy.allocated());
}

#[test]
fn spy_allocator_with_a_limit_of_zero_never_allocates() {
    let mut none = SpyAllocator::with_limit(0);
    assert!(none.allocate::<u8>(0).is_none());
    assert!(none.allocate::<u8>(1).is_none());
    assert_eq!(0, none.allocated());
}

#[test]
fn spy_allocator_stops_at_its_limit() {
    let mut spy = SpyAllocator::with_limit(2);
    let first = spy.allocate::<u8>(1).unwrap();
    let second = spy.allocate::<u8>(1).unwrap();
    assert!(spy.allocate::<u8>(1).is_none());
    spy.deallocate(first);
    spy.deallocate(second);
    assert!(spy.allocate::<u8>(1).is_none());
    assert_eq!(2, spy.allocated());
    assert_eq!(2, spy.deallocated());
}

#[test]
fn failed_growth_leaves_the_storage_as_it_was() {
    let mut storage: HeapRange<u32, SpyAllocator> = HeapRange::new(SpyAllocator::with_limit(1));
    storage.grow(2).unwrap();
    storage.write(0, 7);
    storage.write(1, 8);
    assert_eq!(Err(StorageError::AllocationFailed), storage.grow(3));
    assert_eq!(Err(StorageError::AllocationFailed), storage.shrink(1));
    assert_eq!(2, storage.capacity());
    assert_eq!(7, *storage.read(0));
    assert_eq!(8, *storage.read(1));
    assert_eq!(1, storage.allocator().allocated());
    assert_eq!(0, storage.allocator().deallocated());
}

#[test]
fn block_of_no_slots_is_always_handed_out_below_the_limit() {
    let mut spy = SpyAllocator::with_limit(1);
    let block = spy.allocate::<u64>(0).unwrap();
    assert!(block.is_empty());
    assert_eq!(1, spy.allocated());
    assert!(spy.allocate::<u64>(0).is_none());
    assert_eq!(1, spy.allocated());
}

#[test]
fn reserved_memory_becomes_a_block_of_empty_slots() {
    let mut slots: Vec<Option<u8>> = Vec::new();
    let reserved = slots.try_reserve(3);
    assert_eq!(Some(vec![None, None, None]), block_after_reserve(slots, reserved, 3));

    let block = block_after_reserve(vec![Some(7u8), None], Ok(()), 1);
    assert_eq!(Some(vec![None]), block);
    let block = block_after_reserve(Vec::<Option<u8>>::new(), Ok(()), 0);
    assert_eq!(Some(Vec::new()), block);
}

#[test]
fn refused_memory_becomes_no_block() {
    let mut slots: Vec<Option<u64>> = Vec::new();
    let reserved = slots.try_reserve(usize::MAX);
    assert!(reserved.is_err());
    assert_eq!(None, block_after_reserve(slots, reserved, usize::MAX));

    let refused = Vec::<u64>::new().try_reserve(usize::MAX);
    assert_eq!(None, block_after_reserve(Vec::<Option<u8>>::new(), refused, 0));
}
