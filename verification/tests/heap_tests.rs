use classic_collections::heap::Heap;
use rand::seq::SliceRandom;
use rand::thread_rng;

#[test]
fn empty_heap() {
    let mut heap = Heap::new();
    assert_eq!(heap.size(), 0);
    assert!(heap.pop().is_none());
}

#[test]
fn pushing_multiple_should_get_largest_from_pop() {
    let mut heap = Heap::new();
    let mut shuffled_values = (0..45).collect::<Vec<i64>>();
    shuffled_values.shuffle(&mut thread_rng());
    for i in shuffled_values {
        heap.push(i);
    }

    let mut last = if let Some(val) = heap.pop() {
        val
    } else {
        unreachable!("Heap should have values to pop here, something went wrong...")
    };
    while let Some(val) = heap.pop() {
        assert!(last >= val);
        last = val;
    }
}

#[test]
fn initial_vector_heapify() {
    let mut shuffled_values = (0..45).collect::<Vec<i64>>();
    shuffled_values.shuffle(&mut thread_rng());
    let mut heap = Heap::new_from_vector(shuffled_values);

    let mut last = if let Some(val) = heap.pop() {
        val
    } else {
        unreachable!("Heap should have values to pop here, something went wrong...")
    };
    while let Some(val) = heap.pop() {
        assert!(last >= val);
        last = val;
    }
}

#[test]
fn pop_returns_each_maximum() {
    let mut heap = Heap::new();
    for i in [4, 45, 17, 0, 9, 33] {
        heap.push(i);
    }
    assert_eq!(heap.size(), 6);
    assert_eq!(heap.pop(), Some(45));
    assert_eq!(heap.pop(), Some(33));
    assert_eq!(heap.pop(), Some(17));
    assert_eq!(heap.pop(), Some(9));
    assert_eq!(heap.pop(), Some(4));
    assert_eq!(heap.pop(), Some(0));
    assert_eq!(heap.pop(), None);
}

#[test]
fn drain_sorted_descends() {
    let mut heap = Heap::new();
    for i in [7, 1, 12, 5, 12, 3] {
        heap.push(i);
    }
    let mut drained = Vec::new();
    let mut it = heap.drain_sorted();
    while let Some(v) = it.next() {
        drained.push(v);
    }
    assert_eq!(drained, vec![12, 12, 7, 5, 3, 1]);
    assert_eq!(heap.size(), 0);
}

#[test]
fn drain_empties_heap() {
    let mut heap = Heap::new();
    for i in [2, 8, 6] {
        heap.push(i);
    }
    let mut contents = heap.drain();
    assert_eq!(heap.size(), 0);
    contents.sort();
    assert_eq!(contents, vec![2, 6, 8]);
}

#[test]
fn iter_exposes_contents() {
    let mut heap = Heap::new();
    for i in [10, 20, 15] {
        heap.push(i);
    }
    let mut seen = heap.iter().clone();
    seen.sort();
    assert_eq!(seen, vec![10, 15, 20]);
    assert_eq!(heap.size(), 3);
}

#[test]
fn heapify_singleton_and_empty() {
    let mut empty = Heap::new_from_vector(Vec::new());
    assert!(empty.pop().is_none());
    let mut one = Heap::new_from_vector(vec![41]);
    assert_eq!(one.pop(), Some(41));
    assert_eq!(one.pop(), None);
}
