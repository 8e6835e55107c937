use weighted_path::pairing::PairingHeap;

#[test]
fn test_insert_and_extract_min() {
    let mut heap = PairingHeap::new();
    assert!(heap.is_empty());

    heap.insert(5, 0);
    heap.insert(3, 1);
    heap.insert(7, 2);
    heap.insert(1, 3);

    assert_eq!(heap.extract_min(), Some((1, 3)));
    assert_eq!(heap.extract_min(), Some((3, 1)));
    assert_eq!(heap.extract_min(), Some((5, 0)));
    assert_eq!(heap.extract_min(), Some((7, 2)));
    assert_eq!(heap.extract_min(), None);
    assert!(heap.is_empty());
}

#[test]
fn test_decrease_key() {
    let mut heap = PairingHeap::new();
    let _node1 = heap.insert(10, 1);
    let node2 = heap.insert(20, 2);
    let _node3 = heap.insert(30, 3);

    heap.decrease_key(&node2, 5);

    assert_eq!(heap.extract_min(), Some((5, 2)));
    assert_eq!(heap.extract_min(), Some((10, 1)));
    assert_eq!(heap.extract_min(), Some((30, 3)));
}

#[test]
fn test_decrease_key_root() {
    let mut heap = PairingHeap::new();
    let root = heap.insert(10, 1);
    heap.insert(20, 2);

    heap.decrease_key(&root, 5);

    assert_eq!(heap.extract_min(), Some((5, 1)));
    assert_eq!(heap.extract_min(), Some((20, 2)));
}

#[test]
fn test_decrease_key_cuts_from_parent() {
    let mut heap = PairingHeap::new();
    let _node1 = heap.insert(1, 1);
    let _node2 = heap.insert(2, 2);
    let node3 = heap.insert(3, 3);

    heap.extract_min();

    heap.decrease_key(&node3, 0);

    assert_eq!(heap.extract_min(), Some((0, 3)));
}

#[test]
fn test_large_sequence() {
    let mut heap = PairingHeap::new();
    let mut handles = Vec::new();

    for i in 0..100 {
        handles.push(heap.insert((100 - i) as u32, i));
    }

    for i in 0..100 {
        assert_eq!(heap.extract_min(), Some(((i + 1) as u32, 99 - i)));
    }
}

#[test]
fn test_decrease_key_sequence() {
    let mut heap = PairingHeap::new();
    let handles: Vec<_> = (0..10).map(|i| heap.insert((100 + i) as u32, i)).collect();

    heap.decrease_key(&handles[5], 5);
    heap.decrease_key(&handles[3], 3);
    heap.decrease_key(&handles[7], 7);
    heap.decrease_key(&handles[1], 1);

    assert_eq!(heap.extract_min(), Some((1u32, 1)));
    assert_eq!(heap.extract_min(), Some((3u32, 3)));
    assert_eq!(heap.extract_min(), Some((5u32, 5)));
    assert_eq!(heap.extract_min(), Some((7u32, 7)));
}

#[test]
fn decrease_key_of_extracted_node_is_ignored() {
    let mut heap = PairingHeap::new();
    let a = heap.insert(1, 10);
    heap.insert(5, 11);
    assert_eq!(heap.extract_min(), Some((1, 10)));
    heap.decrease_key(&a, 0);
    assert_eq!(heap.extract_min(), Some((5, 11)));
    assert_eq!(heap.extract_min(), None);
}
