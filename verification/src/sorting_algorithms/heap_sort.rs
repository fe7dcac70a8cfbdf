//! Sorting with a min-heap that is built in place.
//!
//! Building the heap takes O(n), each of the n removals O(log n): sorting
//! takes O(n log n) time and O(n) space beside the sequence.

use crate::datastructures::heap::{
    exchange, is_heap, is_heap_from, lemma_exchange_multiset, lemma_root_dominates,
    lemma_sift_down_done, lemma_sift_down_step, sifting_down, HeapItem, HeapOrder,
};
use vstd::prelude::*;

verus! {

/// Whether the ranks of `s` never fall.
pub open spec fn is_sorted<I: HeapItem>(s: Seq<I>) -> bool {
    forall|i: int, j: int| 0 <= i <= j < s.len() ==> s[i].rank() <= s[j].rank()
}

/// A min-heap in the first `len` places of a borrowed sequence.
pub struct MinHeap<'s, I> {
    pub len: usize,
    pub seq: &'s mut [I],
}

impl<'s, I: HeapItem + Copy> MinHeap<'s, I> {
    /// The items of the heap, root first.
    pub open spec fn live(&self) -> Seq<I> {
        self.seq@.take(self.len as int)
    }

    /// Whether the heap lies within its sequence and is ordered.
    pub open spec fn wf(&self) -> bool {
        self.len <= self.seq@.len() && is_heap(self.live(), HeapOrder::Min)
    }

    /// Builds a min heap by moving the elements in the given sequence.
    pub fn new(seq: &'s mut [I]) -> (heap: Self)
        ensures
            heap.wf(),
            heap.len == old(seq)@.len(),
            heap.seq@.len() == old(seq)@.len(),
            heap.live().to_multiset() == old(seq)@.to_multiset(),
            final(heap.seq)@ == final(seq)@,
    {
        let len: usize = seq.len();
        let mut heap = Self { seq, len };
        proof {
            assert(heap.live() =~= old(seq)@);
        }
        heap.build_heap();
        heap
    }

    /// Orders the heap: sifts down from the last item with a child to the
    /// root.
    fn build_heap(&mut self)
        requires
            old(self).len <= old(self).seq@.len(),
        ensures
            final(self).wf(),
            final(self).len == old(self).len,
            final(self).seq@.len() == old(self).seq@.len(),
            final(self).live().to_multiset() == old(self).live().to_multiset(),
            final(final(self).seq)@ == final(old(self).seq)@,
    {
        // if 0- or 1-length it's already built
        if self.len > 1 {
            // last non-leaf node
            let start: usize = (self.len / 2) - 1;
            let mut idx: usize = start + 1;
            while idx > 0
                invariant
                    idx <= start + 1,
                    start == self.len / 2 - 1,
                    self.len > 1,
                    self.len == old(self).len,
                    self.len <= self.seq@.len(),
                    self.seq@.len() == old(self).seq@.len(),
                    self.live().to_multiset() == old(self).live().to_multiset(),
                    final(self.seq)@ == final(old(self).seq)@,
                    is_heap_from(self.live(), HeapOrder::Min, idx as int),
                decreases idx,
            {
                idx = idx - 1;
                self.min_heapify(idx);
            }
        }
    }

    /// Moves the item at `idx` towards the leaves while a child ranks below
    /// it, exchanging it with the child of lowest rank.
    fn min_heapify(&mut self, idx: usize)
        requires
            old(self).len <= old(self).seq@.len(),
        ensures
            final(self).len == old(self).len,
            final(self).seq@.len() == old(self).seq@.len(),
            final(self).live().to_multiset() == old(self).live().to_multiset(),
            final(final(self).seq)@ == final(old(self).seq)@,
            is_heap_from(old(self).live(), HeapOrder::Min, idx + 1) ==> is_heap_from(
                final(self).live(),
                HeapOrder::Min,
                idx as int,
            ),
    {
        let mut checking: usize = idx;
        while checking < self.len / 2
            invariant
                idx <= checking,
                self.len == old(self).len,
                self.len <= self.seq@.len(),
                self.seq@.len() == old(self).seq@.len(),
                self.live().to_multiset() == old(self).live().to_multiset(),
                final(self.seq)@ == final(old(self).seq)@,
                is_heap_from(old(self).live(), HeapOrder::Min, idx + 1) ==> sifting_down(
                    self.live(),
                    HeapOrder::Min,
                    idx as int,
                    checking as int,
                ),
            ensures
                self.len == old(self).len,
                self.seq@.len() == old(self).seq@.len(),
                self.live().to_multiset() == old(self).live().to_multiset(),
                final(self.seq)@ == final(old(self).seq)@,
                is_heap_from(old(self).live(), HeapOrder::Min, idx + 1) ==> is_heap_from(
                    self.live(),
                    HeapOrder::Min,
                    idx as int,
                ),
            decreases self.len - checking,
        {
            let parent: usize = checking;
            let left: usize = 2 * checking + 1;
            let right: usize = 2 * checking + 2;
            let mut min_idx: usize = parent;
            if left < self.len && self.seq[left].ranks_below(&self.seq[min_idx]) {
                min_idx = left;
            }
            if right < self.len && self.seq[right].ranks_below(&self.seq[min_idx]) {
                min_idx = right;
            }
            // min-heap property broken, must swap

            if min_idx != parent {
                let ghost before = self.live();
                exchange(self.seq, parent, min_idx);
                proof {
                    assert(self.live() =~= before.update(parent as int, before[min_idx as int]).update(
                        min_idx as int,
                        before[parent as int],
                    ));
                    lemma_exchange_multiset(before, parent as int, min_idx as int);
                    if sifting_down(before, HeapOrder::Min, idx as int, parent as int) {
                        lemma_sift_down_step(
                            before,
                            HeapOrder::Min,
                            idx as int,
                            parent as int,
                            min_idx as int,
                        );
                    }
                }
                checking = min_idx;
            } else {
                // this parent is fine and thus also all its children are.
                proof {
                    if sifting_down(self.live(), HeapOrder::Min, idx as int, checking as int) {
                        lemma_sift_down_done(
                            self.live(),
                            HeapOrder::Min,
                            idx as int,
                            checking as int,
                        );
                    }
                }
                break ;
            }
        }
        proof {
            if checking >= self.len / 2 && sifting_down(
                self.live(),
                HeapOrder::Min,
                idx as int,
                checking as int,
            ) {
                lemma_sift_down_done(self.live(), HeapOrder::Min, idx as int, checking as int);
            }
        }
    }

    /// Takes the root, an item of lowest rank, out of the heap; the last
    /// item takes its place and is moved to where it belongs.
    pub fn remove_min(&mut self) -> (min: Option<I>)
        requires
            old(self).wf(),
        ensures
            final(self).wf(),
            final(self).seq@.len() == old(self).seq@.len(),
            final(final(self).seq)@ == final(old(self).seq)@,
            match min {
                None => old(self).len == 0 && final(self).len == 0,
                Some(item) => {
                    &&& old(self).len > 0
                    &&& final(self).len == old(self).len - 1
                    &&& item == old(self).live()[0]
                    &&& final(self).live().to_multiset() == old(self).live().to_multiset().remove(
                        item,
                    )
                    &&& forall|i: int|
                        0 <= i < old(self).len ==> item.rank() <= (#[trigger] old(
                            self,
                        ).live()[i]).rank()
                },
            },
    {
        if self.len > 0 {
            let ghost before = self.live();
            let min = self.seq[0];
            // swap head (min) with the last element
            self.seq[0] = self.seq[self.len - 1];
            self.len -= 1;
            proof {
                let moved = before.update(0, before.last());
                assert(self.live() =~= moved.drop_last());
                vstd::seq_lib::to_multiset_update(before, 0, before.last());
                vstd::seq_lib::to_multiset_remove(moved, moved.len() - 1);
                vstd::seq_lib::to_multiset_contains(before, before[0]);
                assert(before.contains(before[0]));
                assert(moved.drop_last() =~= moved.remove(moved.len() - 1));
                assert(self.live().to_multiset() =~= before.to_multiset().remove(min));
                assert forall|i: int|
                    0 < i < self.live().len() && (i - 1) / 2 >= 1 implies crate::datastructures::heap::parent_ok(
                    self.live(),
                    HeapOrder::Min,
                    i,
                ) by {
                    assert(crate::datastructures::heap::parent_ok(before, HeapOrder::Min, i));
                }
                assert forall|i: int| 0 <= i < before.len() implies min.rank() <= (
                #[trigger] before[i]).rank() by {
                    lemma_root_dominates(before, HeapOrder::Min, i);
                }
            }
            // Fix heap to restore min-heap property
            self.min_heapify(0);
            Some(min)
        } else {
            None
        }
    }
}

/// Sorts `seq` by rank: a min-heap is built of its items, and the items
/// are taken out of it one by one, lowest rank first.
pub fn heap_sort<I: HeapItem + Copy>(seq: &mut [I])
    ensures
        final(seq)@.len() == old(seq)@.len(),
        final(seq)@.to_multiset() == old(seq)@.to_multiset(),
        is_sorted(final(seq)@),
{
    let n: usize = seq.len();
    let mut temp: Vec<I> = Vec::with_capacity(n);
    // build min heap in O(n)
    let mut heap = MinHeap::new(&mut *seq);
    proof {
        broadcast use vstd::multiset::group_multiset_axioms;

        vstd::seq_lib::to_multiset_len(temp@);
        assert(temp@.to_multiset().add(heap.live().to_multiset()) =~= heap.live().to_multiset());
    }
    // Remove every element from the min heap in O(n log n)
    loop
        invariant
            heap.wf(),
            after_borrow(seq)@ == final(heap.seq)@,
            heap.seq@.len() == n,
            n == old(seq)@.len(),
            temp@.len() + heap.len == n,
            is_sorted(temp@),
            forall|i: int, j: int|
                0 <= i < temp@.len() && 0 <= j < heap.len ==> (#[trigger] temp@[i]).rank() <= (
                #[trigger] heap.live()[j]).rank(),
            temp@.to_multiset().add(heap.live().to_multiset()) == old(seq)@.to_multiset(),
        ensures
            after_borrow(seq)@ == final(heap.seq)@,
            heap.seq@.len() == n,
            temp@.len() == n,
            is_sorted(temp@),
            temp@.to_multiset() == old(seq)@.to_multiset(),
        decreases heap.len,
    {
        let ghost live = heap.live();
        let ghost sorted = temp@;
        match heap.remove_min() {
            Some(removed) => {
                temp.push(removed);
                proof {
                    broadcast use vstd::multiset::group_multiset_axioms;

                    vstd::seq_lib::to_multiset_build(sorted, removed);
                    vstd::seq_lib::to_multiset_contains(live, removed);
                    assert(live.contains(live[0]));
                    assert(temp@.to_multiset().add(heap.live().to_multiset()) =~= sorted.to_multiset().add(
                        live.to_multiset(),
                    ));
                    assert forall|i: int, j: int|
                        0 <= i < temp@.len() && 0 <= j < heap.len implies (
                    #[trigger] temp@[i]).rank() <= (#[trigger] heap.live()[j]).rank() by {
                        let item = heap.live()[j];
                        vstd::seq_lib::to_multiset_contains(heap.live(), item);
                        assert(heap.live().contains(item));
                        vstd::seq_lib::to_multiset_contains(live, item);
                        let k = choose|k: int| 0 <= k < live.len() && live[k] == item;
                        assert(live[k].rank() >= removed.rank());
                    }
                }
            },
            None => {
                proof {
                    broadcast use vstd::multiset::group_multiset_axioms;

                    assert(heap.live() =~= Seq::empty());
                    assert(live =~= Seq::empty());
                    vstd::seq_lib::to_multiset_len(heap.live());
                    assert(temp@.to_multiset().add(heap.live().to_multiset()) =~= temp@.to_multiset());
                }
                break ;
            },
        }
    }
    let mut i: usize = 0;
    while i < n
        invariant
            i <= n,
            seq@.len() == n,
            temp@.len() == n,
            forall|k: int| 0 <= k < i ==> seq@[k] == temp@[k],
        decreases n - i,
    {
        seq[i] = temp[i];
        i = i + 1;
    }
    proof {
        assert(seq@ =~= temp@);
    }
}

} // verus!
