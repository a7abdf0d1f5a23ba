use fib_heap::fib_heap::{FibHeap, HeapError};

#[test]
fn fheap_insert() {
    let mut fheap: FibHeap<i64> = FibHeap::new();
    let one = fheap.insert(1, 1);
    let two = fheap.insert(2, 2);
    assert_eq!(fheap.entry_key(one), Some(1));
    assert_eq!(fheap.entry_key(two), Some(2));
    assert_eq!(fheap.find_min().unwrap(), (1, 1));
    let zero = fheap.insert(0, 0);
    assert_eq!(fheap.entry_key(zero), Some(0));
    assert_eq!(fheap.find_min().unwrap(), (0, 0));
}

#[test]
fn fheap_meld() {
    let mut fheap: FibHeap<i64> = FibHeap::new();
    let _zero = fheap.insert(1, 1);
    let _one = fheap.insert(4, 4);
    let _two = fheap.insert(2, 2);
    let mut fheap1: FibHeap<i64> = FibHeap::new();
    fheap1.insert(1, 1);
    fheap1.insert(0, 0);
    fheap1.insert(3, 3);
    fheap.meld(fheap1);
    assert_eq!(fheap.find_min().unwrap(), (0, 0));
}

#[test]
fn fheap_delete_min() {
    let mut fheap: FibHeap<i64> = FibHeap::new();
    let _one = fheap.insert(1, 1);
    let _two = fheap.insert(2, 2);
    let _three = fheap.insert(3, 3);
    let _four = fheap.insert(4, 4);
    fheap.insert(5, 5);
    assert_eq!(fheap.find_min().unwrap(), (1, 1));
    let _zero = fheap.insert(0, 0);
    assert_eq!(fheap.find_min().unwrap(), (0, 0));
    assert_eq!(fheap.delete_min().unwrap(), (0, 0));
    assert_eq!(fheap.delete_min().unwrap(), (1, 1));
    assert_eq!(fheap.delete_min().unwrap(), (2, 2));
}

#[test]
fn test_fheap_decrease_key() {
    let mut fheap: FibHeap<i64> = FibHeap::new();
    fheap.insert(1, 1);
    let four = fheap.insert(4, 4);
    fheap.insert(0, 0);
    let five = fheap.insert(5, 5);
    fheap.delete_min().unwrap();
    assert_eq!(fheap.root_count(), 2);
    fheap.decrease_key(four, 2).unwrap();
    assert_eq!(fheap.entry_key(four), Some(2));
    // the new key still respects the parent, so the entry stays in place
    assert!(!fheap.is_root(four));
    assert_eq!(fheap.root_count(), 2);
    fheap.decrease_key(five, 0).unwrap();
    assert_eq!(fheap.root_count(), 2);
    assert_eq!(fheap.find_min().unwrap(), (0, 5));
}

#[test]
fn test_fheap_delete() {
    let mut fheap: FibHeap<i64> = FibHeap::new();
    let one = fheap.insert(1, 1);
    fheap.insert(4, 4);
    fheap.insert(0, 0);
    let five = fheap.insert(5, 5);
    fheap.delete_min().unwrap();
    fheap.delete(five).unwrap();
    assert_eq!(fheap.root_count(), 1);
    fheap.delete(one).unwrap();
    assert_eq!(fheap.root_count(), 1);
    assert_eq!(fheap.find_min().unwrap(), (4, 4));
}

#[test]
fn test_fheap_cascading_cut() {
    let mut fheap: FibHeap<i64> = FibHeap::new();
    fheap.insert(0, 0);
    fheap.insert(1, 1);
    fheap.insert(4, 4);
    fheap.insert(5, 5);
    fheap.insert(2, 2);
    fheap.insert(3, 3);
    let h6 = fheap.insert(6, 6);
    let h7 = fheap.insert(7, 7);
    fheap.insert(18, 18);
    fheap.insert(9, 9);
    fheap.insert(11, 11);
    fheap.insert(15, 15);
    fheap.delete_min().unwrap();
    assert_eq!(fheap.find_min().unwrap(), (1, 1));
    assert_eq!(fheap.root_count(), 3);
    fheap.decrease_key(h6, 2).unwrap();
    assert_eq!(fheap.root_count(), 4);
    fheap.decrease_key(h7, 2).unwrap();
    assert_eq!(fheap.root_count(), 6);
}

#[test]
fn scenario_insert_find_delete_min() {
    let mut heap: FibHeap<u64> = FibHeap::new();
    for k in [5u64, 3, 8, 1, 4] {
        heap.insert(k, k);
    }
    assert_eq!(heap.find_min().unwrap().0, 1);
    assert_eq!(heap.delete_min().unwrap().0, 1);
    assert_eq!(heap.find_min().unwrap().0, 3);
}

#[test]
fn scenario_decrease_key_then_drain() {
    let mut heap: FibHeap<i64> = FibHeap::new();
    heap.insert(1, 1);
    let four = heap.insert(4, 4);
    heap.insert(0, 0);
    heap.insert(5, 5);
    assert_eq!(heap.delete_min().unwrap(), (0, 0));
    heap.decrease_key(four, 2).unwrap();
    assert_eq!(heap.find_min().unwrap(), (1, 1));
    assert_eq!(heap.delete_min().unwrap().0, 1);
    assert_eq!(heap.delete_min().unwrap().0, 2);
    assert_eq!(heap.delete_min().unwrap().0, 5);
    assert_eq!(heap.delete_min(), Err(HeapError::EmptyHeap));
}

#[test]
fn scenario_delete_leaf_and_inner() {
    let mut heap: FibHeap<u64> = FibHeap::new();
    let h5 = heap.insert(5, 5);
    heap.insert(3, 3);
    heap.insert(8, 8);
    heap.insert(1, 1);
    let h4 = heap.insert(4, 4);
    assert_eq!(heap.delete_min().unwrap().0, 1);
    assert_eq!(heap.len(), 4);
    // after consolidation, the entry with key 5 is a childless leaf and the
    // entry with key 4 has the entry with key 8 as its child
    heap.delete(h5).unwrap();
    assert_eq!(heap.len(), 3);
    heap.delete(h4).unwrap();
    assert_eq!(heap.len(), 2);
    assert_eq!(heap.delete_min().unwrap().0, 3);
    assert_eq!(heap.delete_min().unwrap().0, 8);
    assert_eq!(heap.len(), 0);
}

#[test]
fn scenario_meld_takes_smaller_min() {
    let mut a: FibHeap<u64> = FibHeap::new();
    a.insert(3, 3);
    a.insert(7, 7);
    let mut b: FibHeap<u64> = FibHeap::new();
    b.insert(1, 1);
    b.insert(9, 9);
    a.meld(b);
    assert_eq!(a.find_min().unwrap().0, 1);
    assert_eq!(a.len(), 4);
}

#[test]
fn drain_is_sorted_for_any_insertion_order() {
    let orders: [[u64; 6]; 3] = [
        [9, 2, 7, 4, 4, 1],
        [1, 4, 4, 7, 2, 9],
        [4, 9, 1, 2, 4, 7],
    ];
    for order in orders {
        let mut heap: FibHeap<u64> = FibHeap::new();
        for k in order {
            heap.insert(k, k);
        }
        let mut drained: Vec<u64> = Vec::new();
        while let Ok((k, _)) = heap.delete_min() {
            drained.push(k);
        }
        assert_eq!(drained, vec![1, 2, 4, 4, 7, 9]);
    }
}

#[test]
fn empty_heap_errors() {
    let mut heap: FibHeap<u64> = FibHeap::new();
    assert_eq!(heap.find_min(), Err(HeapError::EmptyHeap));
    assert_eq!(heap.delete_min(), Err(HeapError::EmptyHeap));
    assert_eq!(heap.len(), 0);
}

#[test]
fn key_order_error() {
    let mut heap: FibHeap<u64> = FibHeap::new();
    let e = heap.insert(4, 4);
    assert_eq!(heap.decrease_key(e, 4), Err(HeapError::KeyOrder));
    assert_eq!(heap.decrease_key(e, 9), Err(HeapError::KeyOrder));
    assert_eq!(heap.entry_key(e), Some(4));
    assert_eq!(heap.decrease_key(e, 3), Ok(()));
    assert_eq!(heap.entry_key(e), Some(3));
}

#[test]
fn stale_handle_error() {
    let mut heap: FibHeap<u64> = FibHeap::new();
    let e = heap.insert(2, 2);
    heap.insert(5, 5);
    assert_eq!(heap.delete_min().unwrap(), (2, 2));
    assert_eq!(heap.decrease_key(e, 1), Err(HeapError::StaleHandle));
    assert_eq!(heap.delete(e), Err(HeapError::StaleHandle));
    assert_eq!(heap.len(), 1);
}

#[test]
fn delete_non_min_keeps_min() {
    let mut heap: FibHeap<u64> = FibHeap::new();
    heap.insert(2, 2);
    let h7 = heap.insert(7, 7);
    heap.insert(5, 5);
    assert_eq!(heap.find_min().unwrap(), (2, 2));
    heap.delete(h7).unwrap();
    assert_eq!(heap.find_min().unwrap(), (2, 2));
    assert_eq!(heap.len(), 2);
}
