use weighted_path::radix::RadixHeap;

#[test]
fn test_radix_heap_basic() {
    let mut heap = RadixHeap::new();
    assert_eq!(heap.extract_min(), None);

    heap.insert(10, 1);
    heap.insert(5, 2);
    heap.insert(15, 3);

    assert_eq!(heap.extract_min(), Some((5, 2)));
    assert_eq!(heap.extract_min(), Some((10, 1)));
    assert_eq!(heap.extract_min(), Some((15, 3)));
    assert_eq!(heap.extract_min(), None);
}

#[test]
fn test_radix_heap_non_decreasing() {
    let mut heap = RadixHeap::new();

    // Insert keys in non-decreasing order (simulating Dijkstra's)
    heap.insert(0, 0);
    assert_eq!(heap.extract_min(), Some((0, 0)));

    heap.insert(5, 1);
    heap.insert(10, 2);
    assert_eq!(heap.extract_min(), Some((5, 1)));

    heap.insert(15, 3);
    assert_eq!(heap.extract_min(), Some((10, 2)));
    assert_eq!(heap.extract_min(), Some((15, 3)));
}

#[test]
fn test_radix_heap_large_range() {
    let mut heap = RadixHeap::new();

    heap.insert(1000, 1);
    heap.insert(1, 2);
    heap.insert(500, 3);

    assert_eq!(heap.extract_min(), Some((1, 2)));
    assert_eq!(heap.extract_min(), Some((500, 3)));
    assert_eq!(heap.extract_min(), Some((1000, 1)));
}

#[test]
fn test_radix_heap_dijkstra_like_sequence() {
    let mut heap = RadixHeap::new();
    let handles = [
        heap.insert(0, 0),
        heap.insert(u32::MAX, 1),
        heap.insert(u32::MAX, 2),
        heap.insert(u32::MAX, 3),
        heap.insert(u32::MAX, 4),
    ];

    assert_eq!(heap.extract_min(), Some((0, 0)));

    heap.decrease_key(&handles[1], 10);
    heap.decrease_key(&handles[2], 20);
    heap.decrease_key(&handles[3], 30);
    heap.decrease_key(&handles[4], 40);

    assert_eq!(heap.extract_min(), Some((10, 1)));

    heap.decrease_key(&handles[2], 15); // Decrease node 2 from 20 to 15
    heap.decrease_key(&handles[3], 25); // Decrease node 3 from 30 to 25

    assert_eq!(heap.extract_min(), Some((15, 2)));
    assert_eq!(heap.extract_min(), Some((25, 3)));
    assert_eq!(heap.extract_min(), Some((40, 4)));
}

#[test]
fn test_radix_heap_invariant() {
    let mut heap = RadixHeap::new();

    heap.insert(7, 1);
    heap.insert(8, 2);
    assert_eq!(heap.extract_min(), Some((7, 1)));

    heap.insert(9, 3);
    assert_eq!(heap.extract_min(), Some((8, 2)));
    assert_eq!(heap.extract_min(), Some((9, 3)));
}

#[test]
fn radix_len_and_no_op_decrease() {
    let mut heap = RadixHeap::with_capacity(4);
    assert!(heap.is_empty());
    let h = heap.insert(7, 2);
    heap.insert(9, 3);
    assert_eq!(heap.len(), 2);
    heap.decrease_key(&h, 8); // not a decrease
    assert_eq!(heap.extract_min(), Some((7, 2)));
    heap.decrease_key(&h, 7); // node 2 is no longer in the heap
    assert_eq!(heap.len(), 1);
    assert_eq!(heap.extract_min(), Some((9, 3)));
    assert!(heap.is_empty());
}
