//! The sequence `F(0) = 0`, `F(1) = F(2) = F(3) = 1`,
//! `F(i) = F(i - 1) + F(i - 2) + F(i - 3)`, computed in three ways.

use vstd::prelude::*;

verus! {

/// The member of the sequence at position `num`.
pub open spec fn dp(num: nat) -> nat
    decreases num,
{
    if num == 0 {
        0
    } else if num <= 3 {
        1
    } else {
        dp((num - 1) as nat) + dp((num - 2) as nat) + dp((num - 3) as nat)
    }
}

/// The sequence never falls.
pub proof fn lemma_dp_monotonic(i: nat, j: nat)
    requires
        i <= j,
    ensures
        dp(i) <= dp(j),
    decreases j,
{
    if i < j {
        lemma_dp_monotonic(i, (j - 1) as nat);
        if j > 3 {
            assert(dp(j) >= dp((j - 1) as nat));
        } else if j >= 2 {
            assert(dp((j - 1) as nat) == 1);
        }
    }
}

/// From position 6 on, a member of the sequence exceeds its position.
pub proof fn lemma_dp_exceeds_position(num: nat)
    requires
        num >= 6,
    ensures
        dp(num) > num,
    decreases num,
{
    reveal_with_fuel(dp, 9);
    if num >= 9 {
        lemma_dp_exceeds_position((num - 1) as nat);
        lemma_dp_exceeds_position((num - 2) as nat);
        lemma_dp_exceeds_position((num - 3) as nat);
    }
}

/// `F(num)`, by the definition: each member from the three before it, each
/// of them computed anew.
pub fn dp_recursive(num: usize) -> (value: usize)
    requires
        dp(num as nat) <= usize::MAX,
    ensures
        value == dp(num as nat),
    decreases num,
{
    if num == 0 {
        0
    } else if num <= 3 {
        1
    } else {
        proof {
            lemma_dp_monotonic((num - 1) as nat, num as nat);
            lemma_dp_monotonic((num - 2) as nat, num as nat);
            lemma_dp_monotonic((num - 3) as nat, num as nat);
        }
        dp_recursive(num - 1) + dp_recursive(num - 2) + dp_recursive(num - 3)
    }
}

/// Whether `memo` holds, at each position from 1 on, the member of the
/// sequence at that position or 0, which stands for "not computed yet", and
/// holds the members at the positions 1 to 3.
pub open spec fn is_memo(memo: Seq<usize>) -> bool {
    &&& memo.len() >= 4
    &&& memo[1] == 1 && memo[2] == 1 && memo[3] == 1
    &&& forall|i: int| 1 <= i < memo.len() ==> #[trigger] memo[i] == 0 || memo[i] == dp(i as nat)
}

/// `F(num)`, looked up in `memo` or, where `memo` does not hold it yet,
/// computed from the three members before it and noted in `memo`.
fn memoized(num: usize, memo: &mut Vec<usize>) -> (value: usize)
    requires
        1 <= num < old(memo)@.len(),
        is_memo(old(memo)@),
        dp(num as nat) <= usize::MAX,
    ensures
        value == dp(num as nat),
        final(memo)@.len() == old(memo)@.len(),
        is_memo(final(memo)@),
    decreases num,
{
    let element: usize = memo[num];
    if element == 0 {
        proof {
            lemma_dp_monotonic((num - 1) as nat, num as nat);
            lemma_dp_monotonic((num - 2) as nat, num as nat);
            lemma_dp_monotonic((num - 3) as nat, num as nat);
        }
        let a: usize = memoized(num - 1, memo);
        let b: usize = memoized(num - 2, memo);
        let c: usize = memoized(num - 3, memo);
        let val: usize = a + b + c;
        memo[num] = val;
    }
    memo[num]
}

/// `F(num)`, top down, with a table in which each member is computed once.
pub fn dp_memoized(num: usize) -> (value: usize)
    requires
        dp(num as nat) <= usize::MAX,
    ensures
        value == dp(num as nat),
{
    if num == 0 {
        0
    } else if num <= 3 {
        1
    } else {
        proof {
            if num >= 6 {
                lemma_dp_exceeds_position(num as nat);
            }
        }
        let mut memo: Vec<usize> = vec![0; 1 + num];
        memo[1] = 1;
        memo[2] = 1;
        memo[3] = 1;
        memoized(num, &mut memo)
    }
}

/// `F(num)`, bottom up: the table of all members up to `num` is filled in
/// order.
pub fn dp_bottom_up(num: usize) -> (value: usize)
    requires
        dp(num as nat) <= usize::MAX,
    ensures
        value == dp(num as nat),
{
    proof {
        if num >= 6 {
            lemma_dp_exceeds_position(num as nat);
        }
    }
    let mut table: Vec<usize> = Vec::with_capacity(num + 1);
    table.push(0);
    table.push(1);
    table.push(1);
    table.push(1);
    let mut i: usize = 4;
    while i <= num
        invariant
            4 <= i,
            num < 4 || i <= num + 1,
            num < usize::MAX,
            table@.len() == i,
            dp(num as nat) <= usize::MAX,
            forall|k: int| 0 <= k < i ==> #[trigger] table@[k] == dp(k as nat),
        decreases num + 1 - i,
    {
        proof {
            lemma_dp_monotonic(i as nat, num as nat);
        }
        let next: usize = table[i - 1] + table[i - 2] + table[i - 3];
        table.push(next);
        i = i + 1;
    }
    table[num]
}

} // verus!
