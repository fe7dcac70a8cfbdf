use algorithms_and_datastructures::sorting_algorithms::heap_sort::{heap_sort, MinHeap};
use algorithms_and_datastructures::sorting_algorithms::merge_sort::{merge, merge_sort, sort};

#[test]
fn correct_simple() {
    let sequence = &mut [8, 8, 4, 3, 2, 1, 9, 5];
    let expected = &[1, 2, 3, 4, 5, 8, 8, 9];

    heap_sort(sequence);

    assert_eq!(expected, sequence);
}

#[test]
fn correct_small() {
    let set: &mut [(&mut [i64], &[i64])] = &mut [
        (&mut [], &[]),
        (&mut [1], &[1]),
        (&mut [2, 1], &[1, 2]),
        (&mut [1, 1], &[1, 1]),
    ];

    for (seq, expected) in set.iter_mut() {
        heap_sort(seq);

        assert_eq!(expected, seq);
    }
}

#[test]
fn correct() {
    let sequence = &mut [9, 8, 2, 3, 1, 5, 6, 4, 7];
    let expected = &[1, 2, 3, 4, 5, 6, 7, 8, 9];

    merge_sort(sequence);

    assert_eq!(sequence, expected);
}

#[test]
fn merge_sort_small_sequences() {
    let set: &mut [(&mut [i64], &[i64])] = &mut [
        (&mut [], &[]),
        (&mut [1], &[1]),
        (&mut [2, 1], &[1, 2]),
        (&mut [1, 1], &[1, 1]),
        (&mut [3, -1, 2], &[-1, 2, 3]),
    ];

    for (seq, expected) in set.iter_mut() {
        merge_sort(seq);

        assert_eq!(expected, seq);
    }
}

#[test]
fn sorting_agrees_with_the_standard_sort() {
    let mut state: u64 = 0x2545_f491_4f6c_dd1d;
    for len in 0..40usize {
        let mut items: Vec<i64> = Vec::new();
        for _ in 0..len {
            state ^= state << 13;
            state ^= state >> 7;
            state ^= state << 17;
            items.push((state % 19) as i64 - 9);
        }
        let mut expected = items.clone();
        expected.sort();

        let mut by_heap = items.clone();
        heap_sort(&mut by_heap);
        assert_eq!(expected, by_heap);

        let mut by_merge = items.clone();
        merge_sort(&mut by_merge);
        assert_eq!(expected, by_merge);

        let mut by_sort = items.clone();
        let mut temp = vec![0i64; len + 3];
        sort(&mut by_sort, &mut temp);
        assert_eq!(expected, by_sort);
        assert_eq!(temp.len(), len + 3);
    }
}

#[test]
fn merge_takes_the_first_part_on_a_tie() {
    let mut seq: Vec<u32> = vec![1, 4, 6, 2, 4, 5, 9];
    let mut temp: Vec<u32> = vec![77; 9];
    merge(&mut seq, 3, &mut temp);
    assert_eq!(seq, vec![1, 2, 4, 4, 5, 6, 9]);
    assert_eq!(temp, vec![1, 2, 4, 4, 5, 6, 9, 77, 77]);

    // parts that are not sorted are merged all the same
    let mut seq: Vec<u32> = vec![5, 1, 3, 0];
    let mut temp: Vec<u32> = vec![0; 4];
    merge(&mut seq, 2, &mut temp);
    assert_eq!(seq, vec![3, 0, 5, 1]);

    // an empty part
    let mut seq: Vec<u32> = vec![2, 1];
    let mut temp: Vec<u32> = vec![0; 2];
    merge(&mut seq, 0, &mut temp);
    assert_eq!(seq, vec![2, 1]);
    merge(&mut seq, 2, &mut temp);
    assert_eq!(seq, vec![2, 1]);
}

#[test]
fn min_heap_hands_out_lowest_first() {
    let mut items: Vec<i32> = vec![5, 3, 8, 1, 9, 2, 8];
    let mut heap = MinHeap::new(&mut items);
    let mut out = Vec::new();
    while let Some(item) = heap.remove_min() {
        out.push(item);
    }
    assert_eq!(out, vec![1, 2, 3, 5, 8, 8, 9]);
    assert_eq!(None, heap.remove_min());

    let mut none: Vec<i32> = vec![];
    let mut heap = MinHeap::new(&mut none);
    assert_eq!(None, heap.remove_min());
}
