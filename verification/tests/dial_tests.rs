use weighted_path::dial::DialHeap;

#[test]
fn test_dial_heap_basic() {
    let mut heap = DialHeap::new(10, 100);
    assert_eq!(heap.extract_min(), None);

    heap.insert(10, 1);
    heap.insert(5, 2);
    heap.insert(15, 3);

    assert_eq!(heap.extract_min(), Some((5, 2)));
    assert_eq!(heap.extract_min(), Some((10, 1)));
    assert_eq!(heap.extract_min(), Some((15, 3)));
    assert_eq!(heap.extract_min(), None);
}

#[test]
fn test_dial_heap_decrease_key() {
    let mut heap = DialHeap::new(10, 100);
    let handle1 = heap.insert(20, 1);
    let handle2 = heap.insert(30, 2);

    heap.decrease_key(&handle1, 10);
    heap.decrease_key(&handle2, 15);

    assert_eq!(heap.extract_min(), Some((10, 1)));
    assert_eq!(heap.extract_min(), Some((15, 2)));
}

#[test]
fn test_dial_heap_dijkstra_like() {
    let mut heap = DialHeap::new(10, 1000);
    let handles = [
        heap.insert(0, 0),
        heap.insert(u32::MAX, 1),
        heap.insert(u32::MAX, 2),
        heap.insert(u32::MAX, 3),
    ];

    assert_eq!(heap.extract_min(), Some((0, 0)));

    heap.decrease_key(&handles[1], 10);
    heap.decrease_key(&handles[2], 20);
    heap.decrease_key(&handles[3], 30);

    assert_eq!(heap.extract_min(), Some((10, 1)));
    assert_eq!(heap.extract_min(), Some((20, 2)));
    assert_eq!(heap.extract_min(), Some((30, 3)));
}

#[test]
fn dial_grows_and_replaces_entries() {
    let mut heap = DialHeap::default();
    assert!(heap.is_empty());
    heap.insert(50_000, 7); // beyond the initial buckets, past the initial node count
    heap.insert(40_000, 7); // a better distance replaces the entry
    heap.insert(45_000, 7); // a worse one is ignored
    assert_eq!(heap.len(), 1);
    assert_eq!(heap.extract_min(), Some((40_000, 7)));
    assert!(heap.is_empty());
}

#[test]
fn unreachable_insert_leaves_a_held_node() {
    let mut h = DialHeap::new(10, 100);
    h.insert(5, 1);
    h.insert(u32::MAX, 1);
    assert_eq!(h.len(), 1);
    assert_eq!(h.extract_min(), Some((5, 1)));
    assert_eq!(h.extract_min(), None);
}
