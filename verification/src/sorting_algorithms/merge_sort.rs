//! Merge sort: the sequence is split in half, each half is sorted, and the
//! two sorted halves are merged.
//!
//! Every item is part of O(log n) sequences, each of which is walked once:
//! sorting takes O(n log n) time and O(n) space beside the sequence.

use crate::datastructures::heap::HeapItem;
use crate::sorting_algorithms::heap_sort::is_sorted;
use vstd::prelude::*;

verus! {

/// The items of `a` and `b` in one sequence: at each step the first item of
/// `a` comes next unless the first item of `b` ranks below it.
pub open spec fn merged<I: HeapItem>(a: Seq<I>, b: Seq<I>) -> Seq<I>
    decreases a.len() + b.len(),
{
    if a.len() == 0 {
        b
    } else if b.len() == 0 {
        a
    } else if a[0].rank() <= b[0].rank() {
        seq![a[0]] + merged(a.skip(1), b)
    } else {
        seq![b[0]] + merged(a, b.skip(1))
    }
}

/// Merging keeps every item, and merging two sorted sequences gives a
/// sorted sequence.
pub proof fn lemma_merged<I: HeapItem>(a: Seq<I>, b: Seq<I>)
    ensures
        merged(a, b).len() == a.len() + b.len(),
        merged(a, b).to_multiset() == a.to_multiset().add(b.to_multiset()),
        is_sorted(a) && is_sorted(b) ==> is_sorted(merged(a, b)),
        forall|i: int|
            0 <= i < merged(a, b).len() ==> a.contains(#[trigger] merged(a, b)[i]) || b.contains(
                merged(a, b)[i],
            ),
    decreases a.len() + b.len(),
{
    broadcast use vstd::multiset::group_multiset_axioms;

    let m = merged(a, b);
    if a.len() == 0 {
        vstd::seq_lib::to_multiset_len(a);
        assert(a.to_multiset().add(b.to_multiset()) =~= b.to_multiset());
        assert forall|i: int| 0 <= i < m.len() implies b.contains(#[trigger] m[i]) by {}
    } else if b.len() == 0 {
        vstd::seq_lib::to_multiset_len(b);
        assert(a.to_multiset().add(b.to_multiset()) =~= a.to_multiset());
        assert forall|i: int| 0 <= i < m.len() implies a.contains(#[trigger] m[i]) by {}
    } else if a[0].rank() <= b[0].rank() {
        let rest = merged(a.skip(1), b);
        lemma_merged(a.skip(1), b);
        lemma_first_and_rest(a);
        lemma_prepend_multiset(a[0], rest);
        assert(m.to_multiset() =~= a.to_multiset().add(b.to_multiset()));
        assert forall|i: int| 0 <= i < m.len() implies a.contains(#[trigger] m[i]) || b.contains(
            m[i],
        ) by {
            if i > 0 {
                assert(m[i] == rest[i - 1]);
                if a.skip(1).contains(rest[i - 1]) {
                    let k = choose|k: int| 0 <= k < a.skip(1).len() && a.skip(1)[k] == rest[i - 1];
                    assert(a[k + 1] == rest[i - 1]);
                }
            } else {
                assert(a[0] == m[0]);
            }
        }
        if is_sorted(a) && is_sorted(b) {
            assert(is_sorted(a.skip(1))) by {
                assert forall|i: int, j: int| 0 <= i <= j < a.skip(1).len() implies a.skip(
                    1,
                )[i].rank() <= a.skip(1)[j].rank() by {
                    assert(a[i + 1].rank() <= a[j + 1].rank());
                }
            }
            assert forall|i: int, j: int| 0 <= i <= j < m.len() implies m[i].rank()
                <= m[j].rank() by {
                if i > 0 {
                    assert(rest[i - 1].rank() <= rest[j - 1].rank());
                } else if j > 0 {
                    let item = rest[j - 1];
                    if a.skip(1).contains(item) {
                        let k = choose|k: int| 0 <= k < a.skip(1).len() && a.skip(1)[k] == item;
                        assert(a[0].rank() <= a[k + 1].rank());
                    } else {
                        let k = choose|k: int| 0 <= k < b.len() && b[k] == item;
                        assert(b[0].rank() <= b[k].rank());
                    }
                }
            }
        }
    } else {
        let rest = merged(a, b.skip(1));
        lemma_merged(a, b.skip(1));
        lemma_first_and_rest(b);
        lemma_prepend_multiset(b[0], rest);
        assert(m.to_multiset() =~= a.to_multiset().add(b.to_multiset()));
        assert forall|i: int| 0 <= i < m.len() implies a.contains(#[trigger] m[i]) || b.contains(
            m[i],
        ) by {
            if i > 0 {
                assert(m[i] == rest[i - 1]);
                if b.skip(1).contains(rest[i - 1]) {
                    let k = choose|k: int| 0 <= k < b.skip(1).len() && b.skip(1)[k] == rest[i - 1];
                    assert(b[k + 1] == rest[i - 1]);
                }
            } else {
                assert(b[0] == m[0]);
            }
        }
        if is_sorted(a) && is_sorted(b) {
            assert(is_sorted(b.skip(1))) by {
                assert forall|i: int, j: int| 0 <= i <= j < b.skip(1).len() implies b.skip(
                    1,
                )[i].rank() <= b.skip(1)[j].rank() by {
                    assert(b[i + 1].rank() <= b[j + 1].rank());
                }
            }
            assert forall|i: int, j: int| 0 <= i <= j < m.len() implies m[i].rank()
                <= m[j].rank() by {
                if i > 0 {
                    assert(rest[i - 1].rank() <= rest[j - 1].rank());
                } else if j > 0 {
                    let item = rest[j - 1];
                    if b.skip(1).contains(item) {
                        let k = choose|k: int| 0 <= k < b.skip(1).len() && b.skip(1)[k] == item;
                        assert(b[0].rank() <= b[k + 1].rank());
                    } else {
                        let k = choose|k: int| 0 <= k < a.len() && a[k] == item;
                        assert(a[0].rank() <= a[k].rank());
                    }
                }
            }
        }
    }
}

/// A sequence holds its first item and the items after it.
proof fn lemma_first_and_rest<I>(s: Seq<I>)
    requires
        s.len() > 0,
    ensures
        s.to_multiset() == s.skip(1).to_multiset().insert(s[0]),
{
    broadcast use vstd::multiset::group_multiset_axioms;

    vstd::seq_lib::to_multiset_remove(s, 0);
    vstd::seq_lib::to_multiset_contains(s, s[0]);
    assert(s.contains(s[0]));
    assert(s.remove(0) =~= s.skip(1));
    assert(s.to_multiset() =~= s.skip(1).to_multiset().insert(s[0]));
}

/// A sequence with one item in front holds that item and its own.
proof fn lemma_prepend_multiset<I>(first: I, s: Seq<I>)
    ensures
        (seq![first] + s).to_multiset() == s.to_multiset().insert(first),
{
    let whole = seq![first] + s;
    lemma_first_and_rest(whole);
    assert(whole.skip(1) =~= s);
}

/// What comes first when the items of `a` from `i` on are merged with the
/// items of `b` from `j` on.
proof fn lemma_merge_step<I: HeapItem>(a: Seq<I>, b: Seq<I>, i: int, j: int)
    requires
        0 <= i <= a.len(),
        0 <= j <= b.len(),
    ensures
        i < a.len() && (j == b.len() || a[i].rank() <= b[j].rank()) ==> merged(
            a.skip(i),
            b.skip(j),
        ) == seq![a[i]] + merged(a.skip(i + 1), b.skip(j)),
        j < b.len() && (i == a.len() || a[i].rank() > b[j].rank()) ==> merged(
            a.skip(i),
            b.skip(j),
        ) == seq![b[j]] + merged(a.skip(i), b.skip(j + 1)),
        i == a.len() && j == b.len() ==> merged(a.skip(i), b.skip(j)).len() == 0,
{
    if i < a.len() {
        assert(a.skip(i).skip(1) =~= a.skip(i + 1));
        assert(a.skip(i) =~= seq![a[i]] + a.skip(i + 1));
    }
    if j < b.len() {
        assert(b.skip(j).skip(1) =~= b.skip(j + 1));
        assert(b.skip(j) =~= seq![b[j]] + b.skip(j + 1));
    }
    if i < a.len() && j == b.len() {
        assert(merged(a.skip(i + 1), b.skip(j)) =~= a.skip(i + 1));
    }
    if j < b.len() && i == a.len() {
        assert(merged(a.skip(i), b.skip(j + 1)) =~= b.skip(j + 1));
    }
}

/// Merges the two parts of `seq`, the first before `second` and the other
/// from `second` on, through `temp`: afterwards `seq` holds the items of
/// both parts, at each step the next of the first part unless the next of
/// the other ranks below it. Two sorted parts give a sorted sequence.
pub fn merge<I: HeapItem + Copy>(seq: &mut [I], second: usize, temp: &mut [I])
    requires
        second <= old(seq)@.len(),
        old(seq)@.len() <= old(temp)@.len(),
    ensures
        final(seq)@ == merged(old(seq)@.take(second as int), old(seq)@.skip(second as int)),
        final(temp)@.len() == old(temp)@.len(),
        final(temp)@.take(old(seq)@.len() as int) == final(seq)@,
        final(temp)@.skip(old(seq)@.len() as int) == old(temp)@.skip(old(seq)@.len() as int),
{
    let n: usize = seq.len();
    let ghost a = seq@.take(second as int);
    let ghost b = seq@.skip(second as int);
    let mut i: usize = 0;
    let mut j: usize = second;
    let mut k: usize = 0;
    proof {
        assert(a.skip(0) =~= a);
        assert(b.skip(0) =~= b);
        assert(temp@.take(0) + merged(a, b) =~= merged(a, b));
    }
    // Merge at least half of the elements (the min ones)
    while i < second && j < n
        invariant
            n == seq@.len(),
            seq@ == old(seq)@,
            a == seq@.take(second as int),
            b == seq@.skip(second as int),
            i <= second <= j <= n <= temp@.len(),
            k == i + j - second,
            temp@.len() == old(temp)@.len(),
            temp@.take(k as int) + merged(a.skip(i as int), b.skip(j - second)) == merged(a, b),
            forall|x: int| n <= x < temp@.len() ==> temp@[x] == old(temp)@[x],
        decreases n - k,
    {
        let ghost filled = temp@.take(k as int);
        proof {
            lemma_merge_step(a, b, i as int, j - second);
        }
        if !seq[j].ranks_below(&seq[i]) {
            temp[k] = seq[i];
            proof {
                assert(temp@.take(k + 1) + merged(a.skip(i + 1), b.skip(j - second)) =~= filled + (
                seq![a[i as int]] + merged(a.skip(i + 1), b.skip(j - second))));
            }
            i += 1;
        } else {
            temp[k] = seq[j];
            proof {
                assert(temp@.take(k + 1) + merged(a.skip(i as int), b.skip(j - second + 1))
                    =~= filled + (seq![b[j - second]] + merged(
                    a.skip(i as int),
                    b.skip(j - second + 1),
                )));
            }
            j += 1;
        }
        k += 1;
    }
    // Now add the remaining ones to temp (they're all bigger
    // than the previous ones)
    while k < temp.len() && i < second
        invariant
            n == seq@.len(),
            seq@ == old(seq)@,
            a == seq@.take(second as int),
            b == seq@.skip(second as int),
            i <= second <= j <= n <= temp@.len(),
            i < second ==> j == n,
            k == i + j - second,
            temp@.len() == old(temp)@.len(),
            temp@.take(k as int) + merged(a.skip(i as int), b.skip(j - second)) == merged(a, b),
            forall|x: int| n <= x < temp@.len() ==> temp@[x] == old(temp)@[x],
        decreases second - i,
    {
        let ghost filled = temp@.take(k as int);
        proof {
            lemma_merge_step(a, b, i as int, j - second);
        }
        temp[k] = seq[i];
        proof {
            assert(temp@.take(k + 1) + merged(a.skip(i + 1), b.skip(j - second)) =~= filled + (
            seq![a[i as int]] + merged(a.skip(i + 1), b.skip(j - second))));
        }
        i += 1;
        k += 1;
    }
    while k < temp.len() && j < n
        invariant
            n == seq@.len(),
            seq@ == old(seq)@,
            a == seq@.take(second as int),
            b == seq@.skip(second as int),
            i == second,
            second <= j <= n <= temp@.len(),
            k == i + j - second,
            temp@.len() == old(temp)@.len(),
            temp@.take(k as int) + merged(a.skip(i as int), b.skip(j - second)) == merged(a, b),
            forall|x: int| n <= x < temp@.len() ==> temp@[x] == old(temp)@[x],
        decreases n - j,
    {
        let ghost filled = temp@.take(k as int);
        proof {
            lemma_merge_step(a, b, i as int, j - second);
        }
        temp[k] = seq[j];
        proof {
            assert(temp@.take(k + 1) + merged(a.skip(i as int), b.skip(j - second + 1)) =~= filled
                + (seq![b[j - second]] + merged(a.skip(i as int), b.skip(j - second + 1))));
        }
        j += 1;
        k += 1;
    }
    proof {
        lemma_merge_step(a, b, i as int, j - second);
        assert(temp@.take(n as int) =~= merged(a, b));
    }
    // Copy the values from temp back to the sequence.
    let mut idx: usize = 0;
    while idx < n
        invariant
            idx <= n,
            n == seq@.len(),
            n <= temp@.len(),
            forall|x: int| 0 <= x < idx ==> seq@[x] == temp@[x],
        decreases n - idx,
    {
        seq[idx] = temp[idx];
        idx += 1;
    }
    proof {
        assert(seq@ =~= temp@.take(n as int));
        assert(temp@.skip(n as int) =~= old(temp)@.skip(n as int));
    }
}

/// Sorts `seq` by rank, with `temp` as the place where two halves are
/// merged.
pub fn sort<I: HeapItem + Copy>(seq: &mut [I], temp: &mut [I])
    requires
        old(seq)@.len() <= old(temp)@.len(),
    ensures
        final(seq)@.len() == old(seq)@.len(),
        final(seq)@.to_multiset() == old(seq)@.to_multiset(),
        is_sorted(final(seq)@),
        final(temp)@.len() == old(temp)@.len(),
    decreases old(seq)@.len(),
{
    if seq.len() < 2 {
        return ;
    }
    // split in two
    let second: usize = seq.len() / 2;
    let ghost whole = seq@;
    let ghost mut a: Seq<I> = Seq::empty();
    let ghost mut b: Seq<I> = Seq::empty();
    {
        let (first_half, second_half) = seq.split_at_mut(second);
        let (first_temp, second_temp) = temp.split_at_mut(second);
        sort(first_half, first_temp);
        sort(second_half, second_temp);
        proof {
            a = first_half@;
            b = second_half@;
        }
    }
    proof {
        let a0 = whole.subrange(0, second as int);
        let b0 = whole.subrange(second as int, whole.len() as int);
        assert(whole =~= a0 + b0);
        vstd::seq_lib::lemma_multiset_commutative(a0, b0);
        assert(seq@ == a + b);
        assert(seq@.take(second as int) =~= a);
        assert(seq@.skip(second as int) =~= b);
        vstd::seq_lib::lemma_multiset_commutative(a, b);
        lemma_merged(a, b);
    }
    merge(seq, second, temp);
}

/// Sorts `sequence` by rank.
pub fn merge_sort<I: HeapItem + Copy + Default>(sequence: &mut [I])
    ensures
        final(sequence)@.len() == old(sequence)@.len(),
        final(sequence)@.to_multiset() == old(sequence)@.to_multiset(),
        is_sorted(final(sequence)@),
{
    if sequence.len() < 2 {
        // already sorted
        return ;
    }
    let mut temp: Vec<I> = vec![I::default(); sequence.len()];
    sort(sequence, temp.as_mut_slice());
}

} // verus!
