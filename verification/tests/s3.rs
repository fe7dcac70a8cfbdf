use algorithms_and_datastructures::s3::maximum_subarray_difference;

#[test]
fn max_subarray_diff() {
    let dataset: &[(&[i32], i32)] = &[(&[1, 2, 3, 4, 5], 5), (&[-1, -5, -5, -5, -1], 15)];

    for &(arr, expected) in dataset {
        assert_eq!(maximum_subarray_difference(arr), expected);
    }
}

#[test]
fn max_subarray_diff_of_short_sequences() {
    assert_eq!(maximum_subarray_difference(&[]), 0);
    assert_eq!(maximum_subarray_difference(&[7]), 0);
    assert_eq!(maximum_subarray_difference(&[-7]), 0);
    // the run [3] before the run [-4]
    assert_eq!(maximum_subarray_difference(&[3, -4]), 7);
    // no positive difference
    assert_eq!(maximum_subarray_difference(&[-4, 3]), 0);
    // the run [2, 6] before the run [-3, -1]: last item [-1] alone counts
    // for the run that starts there
    assert_eq!(maximum_subarray_difference(&[2, 6, -3, -1]), 12);
}
