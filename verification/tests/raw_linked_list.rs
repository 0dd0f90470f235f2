use storage_poc::allocator::SingleRange as HeapRange;
use storage_poc::collections::raw_linked_list::NodeSlot;
use storage_poc::collections::raw_linked_list::RawLinkedListNode;
use storage_poc::collections::RawLinkedList;
use storage_poc::collections::RawLinkedListNodeStorage;
use storage_poc::inline::SingleRange;
use storage_poc::traits::Capacity;
use storage_poc::traits::StorageError;
use storage_poc::utils::SpyAllocator;

type Slot = NodeSlot<RawLinkedListNode<u32>>;

fn heap_list() -> RawLinkedList<u32, HeapRange<Slot, SpyAllocator>> {
    RawLinkedList::new(HeapRange::new(SpyAllocator::new()))
}

#[test]
fn node_storage_hands_out_handles_and_takes_them_back() {
    let mut nodes: RawLinkedListNodeStorage<u32, HeapRange<NodeSlot<u32>, SpyAllocator>> =
        RawLinkedListNodeStorage::new(HeapRange::new(SpyAllocator::new()));
    let a = nodes.allocate(10).unwrap();
    let b = nodes.allocate(20).unwrap();
    let c = nodes.allocate(30).unwrap();
    assert_eq!((0, 1, 2), (a, b, c));
    assert_eq!(20, nodes.release(b));
    assert_eq!(10, *nodes.get(a));
    assert_eq!(30, *nodes.get(c));
    *nodes.get_mut(c) += 1;
    assert_eq!(31, *nodes.get(c));
    assert_eq!(10, *nodes.get(a));
}

#[test]
fn node_storage_uses_freed_slots_before_it_grows() {
    let mut nodes: RawLinkedListNodeStorage<u32, SingleRange<NodeSlot<u32>, 3>> =
        RawLinkedListNodeStorage::new(SingleRange::new());
    let a = nodes.allocate(1).unwrap();
    let b = nodes.allocate(2).unwrap();
    let c = nodes.allocate(3).unwrap();
    assert_eq!(3, nodes.len());
    assert_eq!(nodes.len(), nodes.storage().max_capacity());
    assert_eq!(1, nodes.release(a));
    assert_eq!(3, nodes.release(c));
    assert_eq!(1, nodes.len());
    assert_eq!(Ok(c), nodes.allocate(5));
    assert_eq!(Ok(a), nodes.allocate(6));
    assert_eq!(nodes.len(), nodes.storage().max_capacity());
    assert_eq!(2, *nodes.get(b));
    assert_eq!(5, *nodes.get(c));
    assert_eq!(6, *nodes.get(a));
}

#[test]
fn list_pushes_and_pops_at_both_ends() {
    let mut list = heap_list();
    assert!(list.is_empty());
    assert_eq!(None, list.pop_front());
    assert_eq!(None, list.pop_back());
    list.push_back(2).unwrap();
    list.push_back(3).unwrap();
    list.push_front(1).unwrap();
    assert_eq!(3, list.len());
    assert_eq!(vec![1, 2, 3], list.to_vec());
    assert_eq!(Some(1), list.pop_front());
    assert_eq!(Some(3), list.pop_back());
    assert_eq!(vec![2], list.to_vec());
    assert_eq!(Some(2), list.pop_back());
    assert!(list.is_empty());
    assert_eq!(None, list.front());
    assert_eq!(None, list.back());
    list.push_front(9).unwrap();
    assert_eq!(vec![9], list.to_vec());
}

#[test]
fn handles_stay_valid_when_other_nodes_are_freed() {
    let mut list = heap_list();
    let a = list.push_back(10).unwrap();
    let b = list.push_back(20).unwrap();
    let c = list.push_back(30).unwrap();
    let d = list.push_back(40).unwrap();
    assert_eq!(20, list.remove(b));
    assert_eq!(10, *list.get(a));
    assert_eq!(30, *list.get(c));
    assert_eq!(40, *list.get(d));
    assert_eq!(Some(c), list.next(a));
    assert_eq!(Some(a), list.prev(c));
    assert_eq!(None, list.prev(a));
    assert_eq!(Some(10), list.pop_front());
    assert_eq!(30, *list.get(c));
    assert_eq!(None, list.prev(c));
    assert_eq!(Some(d), list.next(c));
    assert_eq!(Some(c), list.front());
    assert_eq!(Some(d), list.back());
    assert_eq!(Some(40), list.pop_back());
    assert_eq!(None, list.next(c));
    assert_eq!(Some(c), list.back());
    assert_eq!(vec![30], list.to_vec());
}

#[test]
fn handles_stay_valid_when_the_storage_grows() {
    let mut list = heap_list();
    let first = list.push_back(0).unwrap();
    let mut handles = vec![first];
    for value in 1..50u32 {
        handles.push(list.push_back(value).unwrap());
    }
    for (value, handle) in handles.iter().enumerate() {
        assert_eq!(value as u32, *list.get(*handle));
    }
    let mut cursor = list.front();
    let mut walked = Vec::new();
    while let Some(handle) = cursor {
        walked.push(handle);
        cursor = list.next(handle);
    }
    assert_eq!(handles, walked);
    let mut cursor = list.back();
    let mut walked_back = Vec::new();
    while let Some(handle) = cursor {
        walked_back.push(*list.get(handle));
        cursor = list.prev(handle);
    }
    assert_eq!((0..50u32).rev().collect::<Vec<u32>>(), walked_back);
}

#[test]
fn list_changes_a_value_in_place() {
    let mut list = heap_list();
    let a = list.push_back(1).unwrap();
    let b = list.push_back(2).unwrap();
    *list.get_mut(a) = 7;
    assert_eq!(vec![7, 2], list.to_vec());
    assert_eq!(Some(b), list.next(a));
}

#[test]
fn inline_list_fills_up_to_its_bound() {
    let mut list: RawLinkedList<u32, SingleRange<Slot, 2>> = RawLinkedList::new(SingleRange::new());
    assert_eq!(2, list.storage().max_capacity());
    list.push_back(1).unwrap();
    list.push_front(0).unwrap();
    assert_eq!(list.len(), list.storage().max_capacity());
    assert_eq!(vec![0, 1], list.to_vec());
    assert_eq!(Some(0), list.pop_front());
    assert!(list.len() < list.storage().max_capacity());
    assert!(list.push_back(2).is_ok());
    assert_eq!(vec![1, 2], list.to_vec());
}

#[test]
fn list_without_memory_reports_the_failed_allocation() {
    let mut list: RawLinkedList<u32, HeapRange<Slot, SpyAllocator>> =
        RawLinkedList::new(HeapRange::new(SpyAllocator::with_limit(0)));
    assert_eq!(Err(StorageError::AllocationFailed), list.push_back(1));
    assert_eq!(Err(StorageError::AllocationFailed), list.push_front(1));
    assert!(list.is_empty());
}

#[test]
fn list_holds_values_that_are_not_copy() {
    let mut list: RawLinkedList<String, HeapRange<NodeSlot<RawLinkedListNode<String>>, SpyAllocator>> =
        RawLinkedList::new(HeapRange::new(SpyAllocator::new()));
    let a = list.push_back(String::from("a")).unwrap();
    list.push_back(String::from("b")).unwrap();
    list.get_mut(a).push('!');
    assert_eq!(Some(String::from("a!")), list.pop_front());
    assert_eq!(Some(String::from("b")), list.pop_front());
    assert_eq!(None, list.pop_front());
}
