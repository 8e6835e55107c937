use weighted_path::fibonacci::{FibonacciHeap, UnsafeFibonacciHeap};
use weighted_path::fibonacci_heap;

#[test]
fn test_safe_empty_heap() {
    let mut heap = FibonacciHeap::new();
    assert!(heap.is_empty());
    assert_eq!(heap.extract_min(), None);
}

#[test]
fn test_safe_insert_and_extract_min() {
    let mut heap = FibonacciHeap::new();
    let _handle1 = heap.insert(10, 1);
    let _handle2 = heap.insert(5, 2);
    let _handle3 = heap.insert(15, 3);

    assert!(!heap.is_empty());
    assert_eq!(heap.extract_min(), Some((5, 2)));
    assert_eq!(heap.extract_min(), Some((10, 1)));
    assert_eq!(heap.extract_min(), Some((15, 3)));
    assert_eq!(heap.extract_min(), None);
    assert!(heap.is_empty());
}

#[test]
fn test_safe_decrease_key() {
    let mut heap = FibonacciHeap::new();
    let _handle1 = heap.insert(10, 1);
    let handle2 = heap.insert(20, 2);
    let _handle3 = heap.insert(30, 3);

    assert!(heap.decrease_key(&handle2, 5));
    assert_eq!(heap.extract_min(), Some((5, 2)));
    assert_eq!(heap.extract_min(), Some((10, 1)));
    assert_eq!(heap.extract_min(), Some((30, 3)));
}

#[test]
fn safe_decrease_key_refuses_a_larger_key() {
    let mut heap = FibonacciHeap::default();
    let h = heap.insert(10, 1);
    heap.insert(20, 2);
    assert!(!heap.decrease_key(&h, 11));
    assert!(heap.decrease_key(&h, 10));
    assert_eq!(heap.extract_min(), Some((10, 1)));
    assert_eq!(heap.extract_min(), Some((20, 2)));
}

#[test]
fn safe_heap_sorts_many_entries() {
    let mut heap = FibonacciHeap::new();
    let keys: Vec<u32> = (0..200u32).map(|i| (i * 7919) % 211).collect();
    let mut handles = Vec::new();
    for (i, k) in keys.iter().enumerate() {
        handles.push(heap.insert(*k + 1000, i));
    }
    // Build trees, then lower keys inside them to exercise cuts and cascading cuts
    assert_eq!(heap.extract_min().map(|e| e.0), Some(keys.iter().min().unwrap() + 1000));
    let mut expected: Vec<(u32, usize)> = keys.iter().enumerate().map(|(i, k)| (*k + 1000, i)).collect();
    expected.sort();
    let first = expected.remove(0);
    for i in (0..200usize).step_by(3) {
        if i == first.1 {
            continue;
        }
        let new_key = keys[i];
        assert!(heap.decrease_key(&handles[i], new_key));
        let pos = expected.iter().position(|e| e.1 == i).unwrap();
        expected[pos].0 = new_key;
    }
    let mut got = Vec::new();
    while let Some((k, _)) = heap.extract_min() {
        got.push(k);
    }
    let mut want: Vec<u32> = expected.iter().map(|e| e.0).collect();
    want.sort();
    assert_eq!(got, want);
    assert!(heap.is_empty());
}

#[test]
fn unsafe_heap_orders_entries() {
    let mut heap = UnsafeFibonacciHeap::new();
    assert!(heap.is_empty());
    let h1 = heap.insert(40, 1);
    heap.insert(10, 2);
    heap.insert(30, 3);
    heap.insert(20, 4);
    assert_eq!(heap.extract_min(), Some((10, 2)));
    assert!(heap.decrease_key(&h1, 5));
    assert!(!heap.decrease_key(&h1, 6));
    assert_eq!(heap.extract_min(), Some((5, 1)));
    assert_eq!(heap.extract_min(), Some((20, 4)));
    assert_eq!(heap.extract_min(), Some((30, 3)));
    assert_eq!(heap.extract_min(), None);
    assert!(heap.is_empty());
}

#[test]
fn unsafe_heap_sorts_many_entries() {
    let mut heap = UnsafeFibonacciHeap::default();
    let mut keys: Vec<u32> = (0..150u32).map(|i| (i * 104729) % 997).collect();
    for (i, k) in keys.iter().enumerate() {
        heap.insert(*k, i);
    }
    keys.sort();
    let mut got = Vec::new();
    while let Some((k, _)) = heap.extract_min() {
        got.push(k);
    }
    assert_eq!(got, keys);
}

#[test]
fn raw_pointer_module_heap_orders_entries() {
    let mut heap = fibonacci_heap::FibonacciHeap::new();
    assert!(heap.is_empty());
    let h = heap.insert(50, 7);
    heap.insert(20, 8);
    heap.insert(35, 9);
    assert_eq!(heap.extract_min(), Some((20, 8)));
    assert!(heap.decrease_key(&h, 1));
    assert_eq!(heap.extract_min(), Some((1, 7)));
    assert_eq!(heap.extract_min(), Some((35, 9)));
    assert_eq!(heap.extract_min(), None);
    let empty = fibonacci_heap::FibonacciHeap::default();
    assert!(empty.is_empty());
}

#[test]
fn raw_pointer_module_decrease_key_needs_a_smaller_key() {
    let mut h = fibonacci_heap::FibonacciHeap::new();
    let p = h.insert(10, 1);
    assert!(!h.decrease_key(&p, 10));
    assert!(!h.decrease_key(&p, 11));
    assert!(h.decrease_key(&p, 9));
    assert_eq!(h.extract_min(), Some((9, 1)));
    assert_eq!(h.extract_min(), None);
}
