use algorithms_and_datastructures::datastructures::heap::{
    heapify, heapify_max, heapify_min, sift_down, sift_up, HeapOrder, MaxHeap, MinHeap,
};

#[test]
fn heap() {
    let seq = vec![9, 8, 7, 6, 5, 4, 3, 2, 1, 0];

    let mut min_heap = MinHeap::new(seq);

    for &el in &[0, 1, 2, 3, 4, 5, 6, 7, 8, 9] {
        assert_eq!(Some(el), min_heap.extract());
    }

    assert_eq!(None, min_heap.extract());

    let seq = vec![0, 1, 2, 3, 4, 5, 6, 7, 8, 9];

    let mut min_heap = MaxHeap::new(seq);

    for &el in &[9, 8, 7, 6, 5, 4, 3, 2, 1, 0] {
        assert_eq!(Some(el), min_heap.extract());
    }

    assert_eq!(None, min_heap.extract());

    // test insertion

    let mut min_heap = MinHeap::new(vec![]);

    for i in (0..10).rev() {
        min_heap.insert(i);
        assert_eq!(Some(i), min_heap.peek().copied());
    }

    for i in 0..10 {
        assert_eq!(Some(i), min_heap.extract());
    }
}

fn is_heap_under(seq: &[i64], order: HeapOrder) -> bool {
    (1..seq.len()).all(|i| match order {
        HeapOrder::Min => seq[(i - 1) / 2] <= seq[i],
        HeapOrder::Max => seq[(i - 1) / 2] >= seq[i],
    })
}

#[test]
fn empty_heap_has_no_value() {
    let mut heap: MinHeap<u32> = MinHeap::new(vec![]);
    assert_eq!(None, heap.peek());
    assert_eq!(None, heap.extract());
    heap.insert(3);
    assert_eq!(Some(3), heap.extract());
    assert_eq!(None, heap.extract());
    assert_eq!(None, heap.peek());

    let mut heap: MaxHeap<u64> = MaxHeap::new(vec![]);
    assert_eq!(None, heap.extract());
}

#[test]
fn heapify_orders_every_parent_above_its_children() {
    let mut seq: Vec<i64> = vec![5, -3, 8, 8, 0, 12, -7, 4, 4, 1, 9];
    let mut sorted = seq.clone();
    sorted.sort();

    heapify_min(&mut seq);
    assert!(is_heap_under(&seq, HeapOrder::Min));
    assert_eq!(seq[0], -7);
    let mut after = seq.clone();
    after.sort();
    assert_eq!(sorted, after);

    heapify_max(&mut seq);
    assert!(is_heap_under(&seq, HeapOrder::Max));
    assert_eq!(seq[0], 12);

    heapify(&mut seq, HeapOrder::Min);
    assert!(is_heap_under(&seq, HeapOrder::Min));
    let mut after = seq.clone();
    after.sort();
    assert_eq!(sorted, after);
}

#[test]
fn sift_down_exchanges_with_the_later_child_on_a_tie() {
    let mut seq: Vec<i64> = vec![1, 7, 7];
    sift_down(&mut seq, HeapOrder::Max, 0);
    assert_eq!(seq, vec![7, 7, 1]);

    let mut seq: Vec<i64> = vec![4, 4, 4];
    sift_down(&mut seq, HeapOrder::Min, 0);
    assert_eq!(seq, vec![4, 4, 4]);

    let mut seq: Vec<i64> = vec![9, 2, 3, 8, 5];
    sift_down(&mut seq, HeapOrder::Min, 0);
    assert_eq!(seq, vec![2, 5, 3, 8, 9]);
}

#[test]
fn sift_down_beyond_the_end_changes_nothing() {
    let mut seq: Vec<i64> = vec![3, 1, 2];
    sift_down(&mut seq, HeapOrder::Min, 3);
    assert_eq!(seq, vec![3, 1, 2]);
    sift_down(&mut seq, HeapOrder::Min, usize::MAX);
    assert_eq!(seq, vec![3, 1, 2]);
    let mut none: Vec<i64> = vec![];
    sift_down(&mut none, HeapOrder::Max, 0);
    assert!(none.is_empty());
}

#[test]
fn sift_up_moves_a_new_leaf_to_its_place() {
    let mut seq: Vec<i64> = vec![1, 3, 2, 7, 0];
    sift_up(&mut seq, HeapOrder::Min, 4);
    assert_eq!(seq, vec![0, 1, 2, 7, 3]);

    let mut seq: Vec<i64> = vec![9, 5, 5];
    sift_up(&mut seq, HeapOrder::Max, 2);
    assert_eq!(seq, vec![9, 5, 5]);

    let mut none: Vec<i64> = vec![];
    sift_up(&mut none, HeapOrder::Max, 0);
    assert!(none.is_empty());
}

#[test]
fn heap_stays_ordered_through_mixed_inserts_and_extracts() {
    let mut heap: MinHeap<i32> = MinHeap::new(vec![4, 1, 3]);
    assert_eq!(Some(1), heap.extract());
    heap.insert(0);
    heap.insert(5);
    heap.insert(2);
    assert_eq!(Some(&0), heap.peek());
    assert_eq!(Some(0), heap.extract());
    assert_eq!(Some(2), heap.extract());
    heap.insert(3);
    assert_eq!(Some(3), heap.extract());
    assert_eq!(Some(3), heap.extract());
    assert_eq!(Some(4), heap.extract());
    assert_eq!(Some(5), heap.extract());
    assert_eq!(None, heap.extract());
}
