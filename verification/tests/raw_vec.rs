use storage_poc::allocator::SingleRange as HeapRange;
use storage_poc::collections::raw_vec::growth_target;
use storage_poc::collections::RawVec;
use storage_poc::inline::SingleRange;
use storage_poc::traits::Capacity;
use storage_poc::traits::SingleRangeStorage;
use storage_poc::traits::StorageError;
use storage_poc::utils::SpyAllocator;

fn heap_vec() -> RawVec<u32, HeapRange<u32, SpyAllocator>> {
    RawVec::new(HeapRange::new(SpyAllocator::new()))
}

#[test]
fn growth_target_doubles_or_takes_what_is_required() {
    assert_eq!(1, growth_target(0, 1));
    assert_eq!(7, growth_target(1, 7));
    assert_eq!(14, growth_target(7, 10));
    assert_eq!(8, growth_target(4, 5));
    assert_eq!(8, growth_target(4, 8));
    assert_eq!(9, growth_target(4, 9));
    assert_eq!(0, growth_target(0, 0));
}

#[test]
fn growth_target_falls_back_where_doubling_overflows() {
    assert_eq!(usize::MAX, growth_target(usize::MAX, usize::MAX));
    assert_eq!(usize::MAX - 1, growth_target(usize::MAX / 2 + 1, usize::MAX - 1));
    assert_eq!(usize::MAX - 1, growth_target(usize::MAX / 2, usize::MAX - 1));
    assert_eq!(usize::MAX, growth_target(usize::MAX / 2, usize::MAX));
}

#[test]
fn new_vec_is_empty_and_keeps_the_capacity_of_its_storage() {
    let inline: RawVec<u32, SingleRange<u32, 4>> = RawVec::new(SingleRange::new());
    assert_eq!(0, inline.len());
    assert!(inline.is_empty());
    assert_eq!(4, inline.capacity());

    let heap = heap_vec();
    assert_eq!(0, heap.len());
    assert_eq!(0, heap.capacity());
    assert_eq!(0, heap.storage().allocator().allocated());
}

#[test]
fn length_never_exceeds_capacity() {
    let mut vec = heap_vec();
    for value in 0..100u32 {
        vec.push(value).unwrap();
        assert!(vec.len() <= vec.capacity());
        assert_eq!(value as usize + 1, vec.len());
    }
    vec.extend_from_slice(&[7; 1000]).unwrap();
    assert!(vec.len() <= vec.capacity());
    assert_eq!(1100, vec.len());
}

#[test]
fn pushes_double_the_capacity() {
    let mut vec = heap_vec();
    let mut capacities = Vec::new();
    for value in 0..9u32 {
        vec.push(value).unwrap();
        capacities.push(vec.capacity());
    }
    assert_eq!(vec![1, 2, 4, 4, 8, 8, 8, 8, 16], capacities);
    assert_eq!(5, vec.storage().allocator().allocated());
    assert_eq!(4, vec.storage().allocator().deallocated());
}

#[test]
fn extend_takes_exactly_what_is_needed_where_that_is_more_than_double() {
    let mut vec = heap_vec();
    vec.extend_from_slice(&[1, 2, 3]).unwrap();
    assert_eq!(3, vec.capacity());
    vec.extend_from_slice(&[4, 5, 6, 7, 8, 9, 10]).unwrap();
    assert_eq!(10, vec.capacity());
    vec.extend_from_slice(&[11]).unwrap();
    assert_eq!(20, vec.capacity());
    assert_eq!(vec![1, 2, 3, 4, 5, 6, 7, 8, 9, 10, 11], vec.to_vec());
}

#[test]
fn growth_keeps_the_elements() {
    let mut vec = heap_vec();
    vec.extend_from_slice(&[10, 20, 30]).unwrap();
    let before = vec.to_vec();
    vec.reserve(50).unwrap();
    assert_eq!(53, vec.capacity());
    assert_eq!(before, vec.to_vec());
    vec.push(40).unwrap();
    assert_eq!(vec![10, 20, 30, 40], vec.to_vec());
    assert_eq!(53, vec.capacity());
}

#[test]
fn reserve_that_fits_leaves_the_storage_alone() {
    let mut vec = heap_vec();
    vec.reserve(8).unwrap();
    assert_eq!(8, vec.capacity());
    assert_eq!(1, vec.storage().allocator().allocated());
    vec.reserve(8).unwrap();
    vec.reserve(0).unwrap();
    assert_eq!(8, vec.capacity());
    assert_eq!(1, vec.storage().allocator().allocated());
    assert_eq!(0, vec.storage().allocator().deallocated());
}

#[test]
fn with_capacity_grows_the_storage_or_hands_it_back() {
    let vec: RawVec<u32, HeapRange<u32, SpyAllocator>> =
        RawVec::with_capacity(HeapRange::new(SpyAllocator::new()), 12).unwrap();
    assert_eq!(12, vec.capacity());
    assert_eq!(0, vec.len());

    let inline: RawVec<u32, SingleRange<u32, 4>> =
        RawVec::with_capacity(SingleRange::new(), 4).unwrap();
    assert_eq!(4, inline.capacity());

    let mut held: HeapRange<u32, SpyAllocator> = HeapRange::new(SpyAllocator::with_limit(1));
    held.grow(2).unwrap();
    held.write(0, 7);
    let (error, mut storage) = match RawVec::with_capacity(held, 3) {
        Ok(_) => panic!("built without memory"),
        Err(failure) => failure,
    };
    assert_eq!(StorageError::AllocationFailed, error);
    assert_eq!(2, storage.capacity());
    assert_eq!(Some(7), storage.take(0));
    let allocator = storage.release();
    assert_eq!(1, allocator.allocated());
    assert_eq!(1, allocator.deallocated());
}

#[test]
fn inline_vec_fills_up_to_its_bound() {
    let mut vec: RawVec<u32, SingleRange<u32, 3>> = RawVec::new(SingleRange::new());
    assert_eq!(3, vec.storage().max_capacity());
    assert_eq!(Ok(()), vec.push(1));
    assert_eq!(Ok(()), vec.extend_from_slice(&[2, 3]));
    assert_eq!(Ok(()), vec.extend_from_slice(&[]));
    assert_eq!(Ok(()), vec.reserve(0));
    assert_eq!(vec![1, 2, 3], vec.to_vec());
    assert_eq!(3, vec.len());
    assert_eq!(3, vec.capacity());
    assert_eq!(vec.len(), vec.storage().max_capacity());
}

#[test]
fn failed_allocation_leaves_the_vec_as_it_was() {
    let mut vec: RawVec<u32, HeapRange<u32, SpyAllocator>> = RawVec::new(HeapRange::new(SpyAllocator::with_limit(0)));
    assert_eq!(Err(StorageError::AllocationFailed), vec.push(1));
    assert_eq!(Err(StorageError::AllocationFailed), vec.extend_from_slice(&[1, 2]));
    assert_eq!(Err(StorageError::AllocationFailed), vec.reserve(1));
    assert_eq!(0, vec.len());
    assert_eq!(0, vec.capacity());
}

#[test]
fn indexed_access_reads_and_writes_elements() {
    let mut vec = heap_vec();
    vec.extend_from_slice(&[1, 2, 3]).unwrap();
    assert_eq!(2, *vec.get(1));
    vec.set(1, 20);
    assert_eq!(20, *vec.get(1));
    *vec.get_mut(2) += 30;
    assert_eq!(33, *vec.get(2));
    assert_eq!(1, vec.replace(0, 10));
    assert_eq!(vec![10, 20, 33], vec.to_vec());
}

#[test]
fn pop_takes_the_last_element_and_keeps_the_capacity() {
    let mut vec = heap_vec();
    vec.extend_from_slice(&[1, 2, 3]).unwrap();
    assert_eq!(Some(3), vec.pop());
    assert_eq!(vec![1, 2], vec.to_vec());
    assert_eq!(3, vec.capacity());
    assert_eq!(Some(2), vec.pop());
    assert_eq!(Some(1), vec.pop());
    assert_eq!(None, vec.pop());
    assert!(vec.is_empty());
    vec.push(9).unwrap();
    assert_eq!(vec![9], vec.to_vec());
}

#[test]
fn clear_drops_the_elements_and_keeps_the_capacity() {
    let mut vec = heap_vec();
    vec.extend_from_slice(&[1, 2, 3, 4]).unwrap();
    vec.clear();
    assert_eq!(0, vec.len());
    assert_eq!(4, vec.capacity());
    vec.extend_from_slice(&[5, 6]).unwrap();
    assert_eq!(vec![5, 6], vec.to_vec());
}

#[test]
fn vec_releases_its_storage_once() {
    let mut vec = heap_vec();
    vec.extend_from_slice(&[1, 2, 3]).unwrap();
    vec.push(4).unwrap();
    let storage = vec.into_storage();
    let allocator = storage.release();
    assert_eq!(2, allocator.allocated());
    assert_eq!(2, allocator.deallocated());
}

#[test]
fn vec_holds_values_that_are_not_copy() {
    let mut vec: RawVec<String, HeapRange<String, SpyAllocator>> =
        RawVec::new(HeapRange::new(SpyAllocator::new()));
    vec.push(String::from("a")).unwrap();
    vec.push(String::from("b")).unwrap();
    vec.push(String::from("c")).unwrap();
    vec.get_mut(1).push('!');
    assert_eq!("a", vec.get(0));
    assert_eq!("b!", vec.get(1));
    assert_eq!(Some(String::from("c")), vec.pop());
    assert_eq!(2, vec.len());
}

#[test]
fn new_vec_drops_what_the_storage_held() {
    let mut storage: SingleRange<u32, 2> = SingleRange::new();
    storage.write(0, 5);
    storage.write(1, 6);
    let mut vec = RawVec::new(storage);
    assert_eq!(0, vec.len());
    vec.push(1).unwrap();
    assert_eq!(vec![1], vec.to_vec());
    let mut storage = vec.into_storage();
    assert_eq!(None, storage.take(0));
    assert_eq!(None, storage.take(1));
}

#[test]
fn failed_growth_leaves_the_elements_as_they_were() {
    let mut vec: RawVec<u32, HeapRange<u32, SpyAllocator>> =
        RawVec::new(HeapRange::new(SpyAllocator::with_limit(2)));
    vec.push(1).unwrap();
    vec.push(2).unwrap();
    assert_eq!(Err(StorageError::AllocationFailed), vec.push(3));
    assert_eq!(Err(StorageError::AllocationFailed), vec.extend_from_slice(&[3, 4, 5]));
    assert_eq!(vec![1, 2], vec.to_vec());
    assert_eq!(2, vec.len());
    assert_eq!(2, vec.capacity());
    assert_eq!(2, vec.storage().allocator().allocated());
    assert_eq!(1, vec.storage().allocator().deallocated());
}
