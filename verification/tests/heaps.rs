use network::heaps::{BinaryHeap, Heap, HeapMember};
use std::cmp::Ordering;

#[test]
fn test_binary_heap() {
    let mut binary_heap = BinaryHeap::new();
    binary_heap.insert(0, 0);
    assert_eq!(Some(0), binary_heap.find_min());
    binary_heap.insert(1, 1);
    binary_heap.delete_min();
    binary_heap.insert(2, 2);
    binary_heap.insert(3, 3);
    assert_eq!(Some(1), binary_heap.find_min());
    assert_eq!(3, binary_heap.size());
    binary_heap.insert(4, 4);
    binary_heap.insert(5, 5);
    assert_eq!(5, binary_heap.size());
    assert_eq!(Some(1), binary_heap.find_min());
    binary_heap.insert(0, 0);
    assert_eq!(Some(0), binary_heap.find_min());
}

#[test]
fn test_partial_ordering() {
    let mem1 = HeapMember { key: 0, cost: 1 };
    let mem2 = HeapMember { key: 1, cost: 2 };
    let mem3 = HeapMember { key: 2, cost: 0 };

    assert!(mem1 < mem2);
    assert!(mem2 > mem1);
    assert!(mem3 < mem2);
    assert!(mem3 < mem1);
    assert!(mem1 == mem1);
}

#[test]
fn test_ordering() {
    let mem1 = HeapMember { key: 0, cost: 1 };
    let mem2 = HeapMember { key: 1, cost: 2 };
    let mem3 = HeapMember { key: 2, cost: 0 };

    assert_eq!(Ordering::Less, mem1.cmp(&mem2));
    assert_eq!(Ordering::Greater, mem2.cmp(&mem1));
    assert_eq!(Ordering::Equal, mem1.cmp(&mem1));
    assert_eq!(Ordering::Less, mem3.cmp(&mem1));
}

#[test]
fn entries_of_equal_cost_are_ordered_by_node() {
    let low = HeapMember { key: 3, cost: 5 };
    let high = HeapMember { key: 4, cost: 5 };
    assert!(low < high);
    assert!(low <= high);
    assert!(high > low);
    assert!(high >= low);
    assert!(!(high <= low));
    assert!(low <= low && low >= low && !(low < low) && !(low > low));
    assert_eq!(Some(Ordering::Less), low.partial_cmp(&high));
    assert_eq!(Some(Ordering::Greater), high.partial_cmp(&low));
    assert_eq!(Some(Ordering::Equal), high.partial_cmp(&high));
    assert_eq!(Ordering::Less, low.cmp(&high));
    assert_eq!(Some(Ordering::Less), HeapMember { key: 9, cost: 1 }.partial_cmp(&low));
    assert_eq!(Ordering::Less, HeapMember { key: 9, cost: 1 }.cmp(&low));
    let mut heap = BinaryHeap::new();
    heap.insert(4, 5);
    heap.insert(9, 5);
    heap.insert(3, 5);
    assert_eq!(Some(3), heap.find_min());
    heap.delete_min();
    assert_eq!(Some(4), heap.find_min());
    heap.delete_min();
    assert_eq!(Some(9), heap.find_min());
}

#[test]
fn empty_heap() {
    let mut heap = BinaryHeap::with_capacity(3);
    assert!(heap.is_empty());
    assert_eq!(0, heap.size());
    assert_eq!(None, heap.find_min());
    heap.delete_min();
    assert!(heap.is_empty());
    assert_eq!(None, heap.find_min());
    heap.insert(1, 10);
    assert!(!heap.is_empty());
    assert_eq!(1, heap.size());
    heap.delete_min();
    assert!(heap.is_empty());
    assert_eq!(0, heap.size());
}

#[test]
fn heap_gives_its_entries_out_by_rising_cost() {
    let costs: Vec<u64> = vec![50, 20, 90, 10, 70, 20, 60, 30, 80, 40, 10, 0, 100];
    let mut heap = BinaryHeap::new();
    for (node, cost) in costs.iter().enumerate() {
        heap.insert(node as u32, *cost);
    }
    assert_eq!(costs.len(), heap.size());
    let mut out: Vec<u32> = Vec::new();
    while let Some(node) = heap.find_min() {
        out.push(node);
        heap.delete_min();
    }
    assert_eq!(vec![11, 3, 10, 1, 5, 7, 9, 0, 6, 4, 8, 2, 12], out);
}

#[test]
fn find_min_follows_inserts_and_deletes() {
    let mut heap = BinaryHeap::new();
    heap.insert(5, 9);
    heap.insert(6, 4);
    assert_eq!(Some(6), heap.find_min());
    heap.insert(5, 2);
    assert_eq!(Some(5), heap.find_min());
    assert_eq!(3, heap.size());
    heap.delete_min();
    assert_eq!(Some(6), heap.find_min());
    heap.insert(7, 4);
    assert_eq!(Some(6), heap.find_min());
    heap.delete_min();
    assert_eq!(Some(7), heap.find_min());
    heap.delete_min();
    assert_eq!(Some(5), heap.find_min());
    assert_eq!(1, heap.size());
    heap.delete_min();
    assert_eq!(None, heap.find_min());
}
