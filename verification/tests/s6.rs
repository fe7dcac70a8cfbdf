use algorithms_and_datastructures::s6::{dp_bottom_up, dp_memoized, dp_recursive};

const DATASET: &[(usize, usize)] = &[(0, 0), (1, 1), (2, 1), (3, 1), (4, 3), (5, 5)];

#[test]
fn recursive() {
    for &(num, expected) in DATASET {
        assert_eq!(dp_recursive(num), expected);
    }
}

#[test]
fn memoized() {
    for &(num, expected) in DATASET {
        assert_eq!(dp_memoized(num), expected);
    }
}

#[test]
fn bottom_up() {
    for &(num, expected) in DATASET {
        assert_eq!(dp_bottom_up(num), expected);
    }
}

#[test]
fn three_ways_agree() {
    for i in 0..50 {
        let memo = dp_memoized(i);
        let bu = dp_bottom_up(i);

        assert_eq!(memo, bu);

        if i < 25 {
            let rec = dp_recursive(i);
            assert_eq!(rec, memo);
        }
    }
    assert_eq!(dp_bottom_up(10), 105);
    assert_eq!(dp_memoized(20), 46499);
    assert_eq!(dp_recursive(12), 355);
}
