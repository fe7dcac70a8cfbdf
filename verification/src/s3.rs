//! The greatest difference between two neighbouring runs of a sequence, in
//! one pass from each end.

use vstd::prelude::*;

verus! {

/// The greater of two numbers.
pub open spec fn greater(x: int, y: int) -> int {
    if x >= y {
        x
    } else {
        y
    }
}

/// The smaller of two numbers.
pub open spec fn smaller(x: int, y: int) -> int {
    if x <= y {
        x
    } else {
        y
    }
}

/// The greatest sum of a run of items of `arr` that ends with the item at
/// position `k - 2`; 0 where there is no such item.
pub open spec fn best_before(arr: Seq<i32>, k: int) -> int
    decreases k,
{
    if k <= 1 {
        0
    } else {
        greater(arr[k - 2] as int, best_before(arr, k - 1) + arr[k - 2])
    }
}

/// The smallest sum of a run of items of `arr` that starts with the item at
/// position `m`; 0 for the first position and beyond the last.
pub open spec fn least_from(arr: Seq<i32>, m: int) -> int
    decreases arr.len() - m,
{
    if m <= 0 || m >= arr.len() {
        0
    } else {
        smaller(arr[m] as int, least_from(arr, m + 1) + arr[m])
    }
}

/// The greatest of 0 and the differences, for each position `i` before
/// `upto`, between the greatest sum that ends before `i` and the smallest
/// sum that starts at `i`.
pub open spec fn best_difference(arr: Seq<i32>, upto: int) -> int
    decreases upto,
{
    if upto <= 0 {
        0
    } else {
        greater(
            best_difference(arr, upto - 1),
            best_before(arr, upto) - least_from(arr, upto - 1),
        )
    }
}

/// Whether a 32-bit integer can hold `x`.
pub open spec fn fits(x: int) -> bool {
    i32::MIN <= x <= i32::MAX
}

/// Whether every sum and every difference that `best_difference` is made of
/// fits in a 32-bit integer.
pub open spec fn sums_fit(arr: Seq<i32>) -> bool {
    &&& arr.len() < usize::MAX
    &&& forall|k: int| 2 <= k <= arr.len() ==> fits(#[trigger] best_before(arr, k - 1) + arr[k - 2])
    &&& forall|m: int| 1 <= m < arr.len() ==> fits(#[trigger] least_from(arr, m + 1) + arr[m])
    &&& forall|i: int|
        0 <= i < arr.len() ==> fits(#[trigger] best_before(arr, i + 1) - least_from(arr, i))
}

/// The greatest difference between the sum of a run of `arr` and the sum of
/// the run that follows it, or 0 where no difference is positive.
///
/// For each position the greatest sum of a run that ends before it and the
/// smallest sum of a run that starts at it are tabulated, each table in one
/// pass; a third pass finds the greatest difference.
pub fn maximum_subarray_difference(arr: &[i32]) -> (max_diff: i32)
    requires
        sums_fit(arr@),
    ensures
        max_diff == best_difference(arr@, arr@.len() as int),
{
    let n: usize = arr.len();
    if n == 0 {
        return 0;
    }
    let mut max: Vec<i32> = vec![0; n + 1];
    let mut min: Vec<i32> = vec![0; n + 1];
    let mut max_diff: i32 = 0;
    // Fill max and min
    let mut idx: usize = 1;
    while idx < n
        invariant
            1 <= idx <= n,
            n == arr@.len(),
            sums_fit(arr@),
            max@.len() == n + 1,
            min@.len() == n + 1,
            forall|k: int| 0 <= k <= idx ==> #[trigger] max@[k] == best_before(arr@, k),
            forall|k: int| idx < k <= n ==> #[trigger] max@[k] == 0,
            forall|m: int| n - idx < m <= n ==> #[trigger] min@[m] == least_from(arr@, m),
            forall|m: int| 0 <= m <= n - idx ==> #[trigger] min@[m] == 0,
        decreases n - idx,
    {
        proof {
            assert(fits(best_before(arr@, (idx + 1) - 1) + arr@[(idx + 1) - 2]));
            assert(fits(least_from(arr@, (n - idx) + 1) + arr@[n - idx]));
        }
        let ending: i32 = max[idx] + arr[idx - 1];
        max[idx + 1] = if arr[idx - 1] >= ending {
            arr[idx - 1]
        } else {
            ending
        };
        let starting: i32 = min[n - idx + 1] + arr[n - idx];
        min[n - idx] = if arr[n - idx] <= starting {
            arr[n - idx]
        } else {
            starting
        };
        idx = idx + 1;
    }
    let mut i: usize = 0;
    while i < n
        invariant
            i <= n,
            n == arr@.len(),
            sums_fit(arr@),
            max@.len() == n + 1,
            min@.len() == n + 1,
            forall|k: int| 0 <= k <= n ==> #[trigger] max@[k] == best_before(arr@, k),
            forall|m: int| 0 <= m <= n ==> #[trigger] min@[m] == least_from(arr@, m),
            max_diff == best_difference(arr@, i as int),
        decreases n - i,
    {
        proof {
            assert(fits(best_before(arr@, i + 1) - least_from(arr@, i as int)));
        }
        let diff: i32 = max[i + 1] - min[i];
        if max_diff < diff {
            max_diff = diff;
        }
        i = i + 1;
    }
    max_diff
}

} // verus!
