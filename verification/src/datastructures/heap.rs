//! A binary heap stored in a `Vec`, usable as a min- or max-priority queue.
//!
//! Items are ordered by an integer rank. Both orderings share one
//! implementation, selected by a [`HeapOrder`].

use vstd::prelude::*;

verus! {

/// An item that can be stored in a heap: it is ordered by an integer rank.
pub trait HeapItem: Sized {
    /// The integer by which items are ordered.
    spec fn rank(&self) -> int;

    /// Whether `self` ranks strictly below `other`.
    fn ranks_below(&self, other: &Self) -> (b: bool)
        ensures
            b == (self.rank() < other.rank()),
    ;
}

impl HeapItem for i32 {
    open spec fn rank(&self) -> int {
        *self as int
    }

    fn ranks_below(&self, other: &Self) -> (b: bool) {
        *self < *other
    }
}

impl HeapItem for i64 {
    open spec fn rank(&self) -> int {
        *self as int
    }

    fn ranks_below(&self, other: &Self) -> (b: bool) {
        *self < *other
    }
}

impl HeapItem for u32 {
    open spec fn rank(&self) -> int {
        *self as int
    }

    fn ranks_below(&self, other: &Self) -> (b: bool) {
        *self < *other
    }
}

impl HeapItem for u64 {
    open spec fn rank(&self) -> int {
        *self as int
    }

    fn ranks_below(&self, other: &Self) -> (b: bool) {
        *self < *other
    }
}

impl HeapItem for usize {
    open spec fn rank(&self) -> int {
        *self as int
    }

    fn ranks_below(&self, other: &Self) -> (b: bool) {
        *self < *other
    }
}

/// Which item a heap keeps at its root.
#[derive(Clone, Copy, Debug, PartialEq, Eq, Structural)]
pub enum HeapOrder {
    /// The root has the smallest rank.
    Min,
    /// The root has the greatest rank.
    Max,
}

/// Whether `a` must be placed strictly above `b` under `order`.
pub open spec fn beats<V: HeapItem>(order: HeapOrder, a: V, b: V) -> bool {
    match order {
        HeapOrder::Min => a.rank() < b.rank(),
        HeapOrder::Max => a.rank() > b.rank(),
    }
}

/// Whether `a` may be the parent of `b` under `order`.
pub open spec fn dominates<V: HeapItem>(order: HeapOrder, a: V, b: V) -> bool {
    !beats(order, b, a)
}

/// Exec counterpart of [`beats`].
pub fn item_beats<V: HeapItem>(order: HeapOrder, a: &V, b: &V) -> (r: bool)
    ensures
        r == beats(order, *a, *b),
{
    match order {
        HeapOrder::Min => a.ranks_below(b),
        HeapOrder::Max => b.ranks_below(a),
    }
}

/// Whether the item at position `i` of `s` may sit below its parent.
pub open spec fn parent_ok<V: HeapItem>(s: Seq<V>, order: HeapOrder, i: int) -> bool {
    dominates(order, s[(i - 1) / 2], s[i])
}

/// The heap property: every item but the root may sit below its parent.
pub open spec fn is_heap<V: HeapItem>(s: Seq<V>, order: HeapOrder) -> bool {
    forall|i: int| 0 < i < s.len() ==> parent_ok(s, order, i)
}

/// The heap property restricted to the items whose parent is at position
/// `from` or later.
pub open spec fn is_heap_from<V: HeapItem>(s: Seq<V>, order: HeapOrder, from: int) -> bool {
    forall|i: int| 0 < i < s.len() && (i - 1) / 2 >= from ==> parent_ok(s, order, i)
}

/// The heap property everywhere but between `hole` and its parent, where the
/// children of `hole` may in turn sit below the parent of `hole`.
pub open spec fn is_heap_except<V: HeapItem>(s: Seq<V>, order: HeapOrder, hole: int) -> bool {
    &&& forall|i: int| 0 < i < s.len() && i != hole ==> parent_ok(s, order, i)
    &&& forall|i: int|
        0 < i < s.len() && hole > 0 && (i - 1) / 2 == hole ==> dominates(
            order,
            s[(hole - 1) / 2],
            #[trigger] s[i],
        )
}

/// The sequence `s` with the items at `i` and `j` exchanged.
pub open spec fn exchanged<V>(s: Seq<V>, i: int, j: int) -> Seq<V> {
    s.update(i, s[j]).update(j, s[i])
}

/// Which of the item at `i` and its children goes on top: the left child
/// unless the item beats it, and the right child unless the one of the two
/// that was chosen beats it.
pub open spec fn top_of_three<V: HeapItem>(s: Seq<V>, order: HeapOrder, i: int) -> int {
    let first = if 2 * i + 1 < s.len() && !beats(order, s[i], s[2 * i + 1]) {
        2 * i + 1
    } else {
        i
    };
    if 2 * i + 2 < s.len() && !beats(order, s[first], s[2 * i + 2]) {
        2 * i + 2
    } else {
        first
    }
}

/// The sequence `s` once the item at `start` has been sifted down.
pub open spec fn sifted_down<V: HeapItem>(s: Seq<V>, order: HeapOrder, start: int) -> Seq<V>
    decreases s.len() - start,
{
    let top = top_of_three(s, order, start);
    if 0 <= start && 2 * start + 1 < s.len() && top != start {
        sifted_down(exchanged(s, start, top), order, top)
    } else {
        s
    }
}

/// The sequence `s` once the item at `start` has been sifted up.
pub open spec fn sifted_up<V: HeapItem>(s: Seq<V>, order: HeapOrder, start: int) -> Seq<V>
    decreases start,
{
    if 0 < start < s.len() && beats(order, s[start], s[(start - 1) / 2]) {
        sifted_up(exchanged(s, start, (start - 1) / 2), order, (start - 1) / 2)
    } else {
        s
    }
}

/// The sequence `s` once the items before `idx` have been sifted down, the
/// last of them first.
pub open spec fn heapified_from<V: HeapItem>(s: Seq<V>, order: HeapOrder, idx: int) -> Seq<V>
    decreases idx,
{
    if idx <= 0 {
        s
    } else {
        heapified_from(sifted_down(s, order, idx - 1), order, idx - 1)
    }
}

/// The heap that `heapify` makes of `s`.
pub open spec fn heapified<V: HeapItem>(s: Seq<V>, order: HeapOrder) -> Seq<V> {
    heapified_from(s, order, s.len() as int)
}

/// Exchanges the items at two positions of `seq`.
pub fn exchange<V>(seq: &mut [V], i: usize, j: usize)
    requires
        i < old(seq)@.len(),
        j < old(seq)@.len(),
    ensures
        final(seq)@ == exchanged(old(seq)@, i as int, j as int),
{
    if i == j {
        return ;
    }
    let (lo, hi) = if i < j {
        (i, j)
    } else {
        (j, i)
    };
    let (left, right) = seq.split_at_mut(hi);
    let a = &mut left[lo];
    let b = &mut right[0];
    core::mem::swap(a, b);
}

/// Moves the item at `start` towards the root while it beats its parent.
///
/// If only the item at `start` was out of place, `seq` is a heap afterwards.
pub fn sift_up<V: HeapItem>(seq: &mut [V], order: HeapOrder, start: usize)
    requires
        start < old(seq)@.len() || start == 0,
    ensures
        final(seq)@ == sifted_up(old(seq)@, order, start as int),
        final(seq)@.len() == old(seq)@.len(),
        final(seq)@.to_multiset() == old(seq)@.to_multiset(),
        forall|i: int| start < i < old(seq)@.len() ==> final(seq)@[i] == old(seq)@[i],
        is_heap_except(old(seq)@, order, start as int) ==> is_heap(final(seq)@, order),
{
    let mut cursor: usize = start;
    while cursor > 0
        invariant
            cursor <= start,
            cursor < seq@.len() || cursor == 0,
            sifted_up(seq@, order, cursor as int) == sifted_up(old(seq)@, order, start as int),
            seq@.len() == old(seq)@.len(),
            seq@.to_multiset() == old(seq)@.to_multiset(),
            forall|i: int| start < i < old(seq)@.len() ==> seq@[i] == old(seq)@[i],
            is_heap_except(old(seq)@, order, start as int) ==> is_heap_except(
                seq@,
                order,
                cursor as int,
            ),
        ensures
            seq@ == sifted_up(old(seq)@, order, start as int),
            seq@.len() == old(seq)@.len(),
            seq@.to_multiset() == old(seq)@.to_multiset(),
            forall|i: int| start < i < old(seq)@.len() ==> seq@[i] == old(seq)@[i],
            is_heap_except(old(seq)@, order, start as int) ==> is_heap(seq@, order),
        decreases cursor,
    {
        let parent: usize = (cursor - 1) / 2;
        if item_beats(order, &seq[cursor], &seq[parent]) {
            let ghost before = seq@;
            exchange(seq, cursor, parent);
            proof {
                lemma_exchange_multiset(before, cursor as int, parent as int);
                if is_heap_except(before, order, cursor as int) {
                    lemma_sift_up_step(before, order, cursor as int);
                }
            }
            cursor = parent;
        } else {
            break ;
        }
    }
}

/// Moves the item at `start` towards the leaves: while a child is not
/// beaten by it, the item is exchanged with the child that no other of the
/// three beats (on a tie, the later one).
///
/// If every item below `start` was in place, every item from `start` on is
/// in place afterwards. A `start` beyond the end changes nothing.
pub fn sift_down<V: HeapItem>(seq: &mut [V], order: HeapOrder, start: usize)
    ensures
        final(seq)@ == sifted_down(old(seq)@, order, start as int),
        final(seq)@.len() == old(seq)@.len(),
        final(seq)@.to_multiset() == old(seq)@.to_multiset(),
        forall|i: int| 0 <= i < start && i < old(seq)@.len() ==> final(seq)@[i] == old(seq)@[i],
        is_heap_from(old(seq)@, order, start + 1) ==> is_heap_from(
            final(seq)@,
            order,
            start as int,
        ),
{
    let len: usize = seq.len();
    let mut cursor: usize = start;
    while cursor < len / 2
        invariant
            len == seq@.len(),
            start <= cursor,
            sifted_down(seq@, order, cursor as int) == sifted_down(old(seq)@, order, start as int),
            seq@.len() == old(seq)@.len(),
            seq@.to_multiset() == old(seq)@.to_multiset(),
            forall|i: int| 0 <= i < start && i < old(seq)@.len() ==> seq@[i] == old(seq)@[i],
            is_heap_from(old(seq)@, order, start + 1) ==> sifting_down(
                seq@,
                order,
                start as int,
                cursor as int,
            ),
        ensures
            seq@ == sifted_down(old(seq)@, order, start as int),
            seq@.len() == old(seq)@.len(),
            seq@.to_multiset() == old(seq)@.to_multiset(),
            forall|i: int| 0 <= i < start && i < old(seq)@.len() ==> seq@[i] == old(seq)@[i],
            is_heap_from(old(seq)@, order, start + 1) ==> is_heap_from(seq@, order, start as int),
        decreases len - cursor,
    {
        let left: usize = 2 * cursor + 1;
        let right: usize = left + 1;
        let mut top: usize = cursor;
        if !item_beats(order, &seq[top], &seq[left]) {
            top = left;
        }
        if right < len && !item_beats(order, &seq[top], &seq[right]) {
            top = right;
        }
        if top != cursor {
            let ghost before = seq@;
            exchange(seq, cursor, top);
            proof {
                lemma_exchange_multiset(before, cursor as int, top as int);
                if sifting_down(before, order, start as int, cursor as int) {
                    lemma_sift_down_step(before, order, start as int, cursor as int, top as int);
                }
            }
            cursor = top;
        } else {
            proof {
                if sifting_down(seq@, order, start as int, cursor as int) {
                    lemma_sift_down_done(seq@, order, start as int, cursor as int);
                }
            }
            break ;
        }
    }
}

/// The state of sifting down from `start` with the moving item at `cursor`:
/// every item whose parent is at `start` or later, and is not the moving
/// item, is in place, and the children of the moving item may sit below its
/// parent.
pub open spec fn sifting_down<V: HeapItem>(
    s: Seq<V>,
    order: HeapOrder,
    start: int,
    cursor: int,
) -> bool {
    &&& forall|i: int|
        0 < i < s.len() && (i - 1) / 2 >= start && (i - 1) / 2 != cursor ==> parent_ok(s, order, i)
    &&& forall|i: int|
        0 < i < s.len() && cursor > start && (i - 1) / 2 == cursor ==> dominates(
            order,
            s[(cursor - 1) / 2],
            #[trigger] s[i],
        )
}

/// The moving item stays where none of its children beats it; every item
/// from `start` on is then in place.
pub proof fn lemma_sift_down_done<V: HeapItem>(s: Seq<V>, order: HeapOrder, start: int, cursor: int)
    requires
        0 <= start <= cursor,
        sifting_down(s, order, start, cursor),
        2 * cursor + 1 < s.len() ==> !beats(order, s[2 * cursor + 1], s[cursor]),
        2 * cursor + 2 < s.len() ==> !beats(order, s[2 * cursor + 2], s[cursor]),
    ensures
        is_heap_from(s, order, start),
{
    assert forall|i: int| 0 < i < s.len() && (i - 1) / 2 >= start implies parent_ok(
        s,
        order,
        i,
    ) by {
        if (i - 1) / 2 == cursor {
            assert(i == 2 * cursor + 1 || i == 2 * cursor + 2);
        }
    }
}

/// One step of sifting down: exchanging the moving item with the child
/// `top` that neither the moving item nor the other child beats moves the
/// moving item to `top`.
pub proof fn lemma_sift_down_step<V: HeapItem>(
    s: Seq<V>,
    order: HeapOrder,
    start: int,
    cursor: int,
    top: int,
)
    requires
        0 <= start <= cursor,
        top == 2 * cursor + 1 || top == 2 * cursor + 2,
        top < s.len(),
        sifting_down(s, order, start, cursor),
        !beats(order, s[cursor], s[top]),
        !beats(order, s[2 * cursor + 1], s[top]),
        2 * cursor + 2 < s.len() ==> !beats(order, s[2 * cursor + 2], s[top]),
    ensures
        sifting_down(s.update(cursor, s[top]).update(top, s[cursor]), order, start, top),
{
    let t = s.update(cursor, s[top]).update(top, s[cursor]);
    assert forall|i: int|
        0 < i < t.len() && (i - 1) / 2 >= start && (i - 1) / 2 != top implies parent_ok(
        t,
        order,
        i,
    ) by {
        if (i - 1) / 2 == cursor {
            assert(i == 2 * cursor + 1 || i == 2 * cursor + 2);
        } else if i == cursor {
            assert(dominates(order, s[(cursor - 1) / 2], s[top]));
        } else {
            assert(parent_ok(s, order, i));
        }
    }
    assert forall|i: int|
        0 < i < t.len() && top > start && (i - 1) / 2 == top implies dominates(
        order,
        t[(top - 1) / 2],
        #[trigger] t[i],
    ) by {
        assert(parent_ok(s, order, i));
    }
}

/// Arranges `seq` as a heap under `order`, sifting down from the last
/// position to the root.
pub fn heapify<V: HeapItem>(seq: &mut [V], order: HeapOrder)
    ensures
        final(seq)@ == heapified(old(seq)@, order),
        final(seq)@.len() == old(seq)@.len(),
        final(seq)@.to_multiset() == old(seq)@.to_multiset(),
        is_heap(final(seq)@, order),
{
    let mut idx: usize = seq.len();
    while idx > 0
        invariant
            idx <= seq@.len(),
            heapified_from(seq@, order, idx as int) == heapified(old(seq)@, order),
            seq@.len() == old(seq)@.len(),
            seq@.to_multiset() == old(seq)@.to_multiset(),
            is_heap_from(seq@, order, idx as int),
        decreases idx,
    {
        idx = idx - 1;
        sift_down(seq, order, idx);
    }
}

/// Arranges `seq` as a heap with an item of smallest rank at the root.
pub fn heapify_min<V: HeapItem>(seq: &mut [V])
    ensures
        final(seq)@ == heapified(old(seq)@, HeapOrder::Min),
        final(seq)@.len() == old(seq)@.len(),
        final(seq)@.to_multiset() == old(seq)@.to_multiset(),
        is_heap(final(seq)@, HeapOrder::Min),
{
    heapify(seq, HeapOrder::Min);
}

/// Arranges `seq` as a heap with an item of greatest rank at the root.
pub fn heapify_max<V: HeapItem>(seq: &mut [V])
    ensures
        final(seq)@ == heapified(old(seq)@, HeapOrder::Max),
        final(seq)@.len() == old(seq)@.len(),
        final(seq)@.to_multiset() == old(seq)@.to_multiset(),
        is_heap(final(seq)@, HeapOrder::Max),
{
    heapify(seq, HeapOrder::Max);
}

/// In a heap no item beats the root.
pub proof fn lemma_root_dominates<V: HeapItem>(s: Seq<V>, order: HeapOrder, i: int)
    requires
        is_heap(s, order),
        0 <= i < s.len(),
    ensures
        dominates(order, s[0], s[i]),
    decreases i,
{
    if i > 0 {
        lemma_root_dominates(s, order, (i - 1) / 2);
        assert(parent_ok(s, order, i));
    }
}

/// Removes the root of the heap `seq` and restores the heap: the last item
/// takes the root's place and is sifted down.
fn extract_top<V: HeapItem>(seq: &mut Vec<V>, order: HeapOrder) -> (top: Option<V>)
    requires
        is_heap(old(seq)@, order),
    ensures
        is_heap(final(seq)@, order),
        match top {
            None => old(seq)@.len() == 0 && final(seq)@ == old(seq)@,
            Some(item) => {
                &&& old(seq)@.len() > 0
                &&& item == old(seq)@[0]
                &&& final(seq)@ == sifted_down(
                    old(seq)@.update(0, old(seq)@.last()).drop_last(),
                    order,
                    0,
                )
                &&& final(seq)@.len() == old(seq)@.len() - 1
                &&& final(seq)@.to_multiset() == old(seq)@.to_multiset().remove(item)
                &&& forall|i: int|
                    0 <= i < old(seq)@.len() ==> dominates(order, item, #[trigger] old(seq)@[i])
            },
        },
{
    if seq.len() == 0 {
        None
    } else {
        let ghost before = seq@;
        let item = seq.swap_remove(0);
        proof {
            let moved = before.update(0, before.last());
            vstd::seq_lib::to_multiset_update(before, 0, before.last());
            vstd::seq_lib::to_multiset_remove(moved, moved.len() - 1);
            vstd::seq_lib::to_multiset_contains(before, before[0]);
            assert(before.contains(before[0]));
            assert(moved.drop_last() =~= moved.remove(moved.len() - 1));
            assert(seq@.to_multiset() =~= before.to_multiset().remove(item));
            assert forall|i: int| 0 < i < seq@.len() && (i - 1) / 2 >= 1 implies parent_ok(
                seq@,
                order,
                i,
            ) by {
                assert(parent_ok(before, order, i));
            }
            assert forall|i: int| 0 <= i < before.len() implies dominates(
                order,
                item,
                #[trigger] before[i],
            ) by {
                lemma_root_dominates(before, order, i);
            }
        }
        sift_down(seq.as_mut_slice(), order, 0);
        Some(item)
    }
}

/// Adds `value` to the heap `seq`: it is appended and sifted up.
fn insert_item<V: HeapItem>(seq: &mut Vec<V>, order: HeapOrder, value: V)
    requires
        is_heap(old(seq)@, order),
    ensures
        is_heap(final(seq)@, order),
        final(seq)@ == sifted_up(old(seq)@.push(value), order, old(seq)@.len() as int),
        final(seq)@.len() == old(seq)@.len() + 1,
        final(seq)@.to_multiset() == old(seq)@.to_multiset().insert(value),
{
    let ghost before = seq@;
    seq.push(value);
    let start: usize = seq.len() - 1;
    proof {
        vstd::seq_lib::to_multiset_build(before, value);
        assert forall|i: int| 0 < i < seq@.len() && i != start implies parent_ok(
            seq@,
            order,
            i,
        ) by {
            assert(parent_ok(before, order, i));
        }
    }
    sift_up(seq.as_mut_slice(), order, start);
}

/// A priority queue that hands out an item of greatest rank first.
pub struct MaxHeap<V: HeapItem> {
    seq: Vec<V>,
}

impl<V: HeapItem> MaxHeap<V> {
    #[verifier::type_invariant]
    spec fn heap_ordered(self) -> bool {
        is_heap(self.seq@, HeapOrder::Max)
    }

    /// The items in the order in which the heap stores them, root first.
    pub closed spec fn view(&self) -> Seq<V> {
        self.seq@
    }

    /// Builds a heap out of the items of `seq`.
    pub fn new(seq: Vec<V>) -> (heap: Self)
        ensures
            heap@ == heapified(seq@, HeapOrder::Max),
            heap@.to_multiset() == seq@.to_multiset(),
            heap@.len() == seq@.len(),
            is_heap(heap@, HeapOrder::Max),
    {
        let mut seq = seq;
        heapify_max(seq.as_mut_slice());
        Self { seq }
    }

    /// Removes and returns the root, an item of greatest rank, or returns
    /// `None` when the heap is empty.
    pub fn extract(&mut self) -> (top: Option<V>)
        ensures
            is_heap(final(self)@, HeapOrder::Max),
            match top {
                None => old(self)@.len() == 0 && final(self)@ == old(self)@,
                Some(item) => {
                    &&& old(self)@.len() > 0
                    &&& item == old(self)@[0]
                    &&& final(self)@ == sifted_down(
                        old(self)@.update(0, old(self)@.last()).drop_last(),
                        HeapOrder::Max,
                        0,
                    )
                    &&& final(self)@.len() == old(self)@.len() - 1
                    &&& final(self)@.to_multiset() == old(self)@.to_multiset().remove(item)
                    &&& forall|i: int|
                        0 <= i < old(self)@.len() ==> item.rank() >= (#[trigger] old(
                            self,
                        )@[i]).rank()
                },
            },
    {
        proof {
            use_type_invariant(&*self);
        }
        // The items leave the heap while they are rearranged, so that the
        // heap is well-formed at every moment.
        let mut seq: Vec<V> = Vec::new();
        core::mem::swap(&mut self.seq, &mut seq);
        let top = extract_top(&mut seq, HeapOrder::Max);
        core::mem::swap(&mut self.seq, &mut seq);
        top
    }
}

/// A priority queue that hands out an item of smallest rank first.
pub struct MinHeap<V: HeapItem> {
    seq: Vec<V>,
}

impl<V: HeapItem> MinHeap<V> {
    #[verifier::type_invariant]
    spec fn heap_ordered(self) -> bool {
        is_heap(self.seq@, HeapOrder::Min)
    }

    /// The items in the order in which the heap stores them, root first.
    pub closed spec fn view(&self) -> Seq<V> {
        self.seq@
    }

    /// Builds a heap out of the items of `seq`.
    pub fn new(seq: Vec<V>) -> (heap: Self)
        ensures
            heap@ == heapified(seq@, HeapOrder::Min),
            heap@.to_multiset() == seq@.to_multiset(),
            heap@.len() == seq@.len(),
            is_heap(heap@, HeapOrder::Min),
    {
        let mut seq = seq;
        heapify_min(seq.as_mut_slice());
        Self { seq }
    }

    /// Removes and returns the root, an item of smallest rank, or returns
    /// `None` when the heap is empty.
    pub fn extract(&mut self) -> (top: Option<V>)
        ensures
            is_heap(final(self)@, HeapOrder::Min),
            match top {
                None => old(self)@.len() == 0 && final(self)@ == old(self)@,
                Some(item) => {
                    &&& old(self)@.len() > 0
                    &&& item == old(self)@[0]
                    &&& final(self)@ == sifted_down(
                        old(self)@.update(0, old(self)@.last()).drop_last(),
                        HeapOrder::Min,
                        0,
                    )
                    &&& final(self)@.len() == old(self)@.len() - 1
                    &&& final(self)@.to_multiset() == old(self)@.to_multiset().remove(item)
                    &&& forall|i: int|
                        0 <= i < old(self)@.len() ==> item.rank() <= (#[trigger] old(
                            self,
                        )@[i]).rank()
                },
            },
    {
        proof {
            use_type_invariant(&*self);
        }
        // The items leave the heap while they are rearranged, so that the
        // heap is well-formed at every moment.
        let mut seq: Vec<V> = Vec::new();
        core::mem::swap(&mut self.seq, &mut seq);
        let top = extract_top(&mut seq, HeapOrder::Min);
        core::mem::swap(&mut self.seq, &mut seq);
        top
    }

    /// The root, an item of smallest rank, or `None` when the heap is empty.
    pub fn peek(&self) -> (top: Option<&V>)
        ensures
            is_heap(self@, HeapOrder::Min),
            match top {
                None => self@.len() == 0,
                Some(item) => {
                    &&& self@.len() > 0
                    &&& *item == self@[0]
                    &&& forall|i: int|
                        0 <= i < self@.len() ==> item.rank() <= (#[trigger] self@[i]).rank()
                },
            },
    {
        proof {
            use_type_invariant(self);
            assert forall|i: int| 0 <= i < self@.len() implies self@[0].rank() <= (
            #[trigger] self@[i]).rank() by {
                lemma_root_dominates(self@, HeapOrder::Min, i);
            }
        }
        if self.seq.len() == 0 {
            None
        } else {
            Some(&self.seq[0])
        }
    }

    /// Adds `value` to the heap.
    pub fn insert(&mut self, value: V)
        ensures
            is_heap(final(self)@, HeapOrder::Min),
            final(self)@ == sifted_up(old(self)@.push(value), HeapOrder::Min, old(self)@.len() as int),
            final(self)@.len() == old(self)@.len() + 1,
            final(self)@.to_multiset() == old(self)@.to_multiset().insert(value),
    {
        proof {
            use_type_invariant(&*self);
        }
        let mut seq: Vec<V> = Vec::new();
        core::mem::swap(&mut self.seq, &mut seq);
        insert_item(&mut seq, HeapOrder::Min, value);
        core::mem::swap(&mut self.seq, &mut seq);
    }
}

/// Exchanging two items keeps the multiset of items.
pub proof fn lemma_exchange_multiset<V>(s: Seq<V>, i: int, j: int)
    requires
        0 <= i < s.len(),
        0 <= j < s.len(),
    ensures
        s.update(i, s[j]).update(j, s[i]).to_multiset() == s.to_multiset(),
{
    broadcast use vstd::seq_lib::to_multiset_update;

    let t = s.update(i, s[j]);
    assert(t.to_multiset() == s.to_multiset().insert(s[j]).remove(s[i]));
    assert(t.update(j, s[i]).to_multiset() == t.to_multiset().insert(s[i]).remove(t[j]));
    assert(s.to_multiset().count(s[j]) > 0) by {
        vstd::seq_lib::to_multiset_contains(s, s[j]);
        assert(s.contains(s[j]));
    }
    assert(s.to_multiset().count(s[i]) > 0) by {
        vstd::seq_lib::to_multiset_contains(s, s[i]);
        assert(s.contains(s[i]));
    }
    assert(t.update(j, s[i]).to_multiset() =~= s.to_multiset());
}

/// One step of sifting up: when the item in the hole beats its parent,
/// exchanging the two moves the hole to the parent.
proof fn lemma_sift_up_step<V: HeapItem>(s: Seq<V>, order: HeapOrder, hole: int)
    requires
        0 < hole < s.len(),
        is_heap_except(s, order, hole),
        beats(order, s[hole], s[(hole - 1) / 2]),
    ensures
        is_heap_except(
            s.update(hole, s[(hole - 1) / 2]).update((hole - 1) / 2, s[hole]),
            order,
            (hole - 1) / 2,
        ),
{
    let p = (hole - 1) / 2;
    let t = s.update(hole, s[p]).update(p, s[hole]);
    assert forall|i: int| 0 < i < t.len() && i != p implies parent_ok(t, order, i) by {
        if i != hole {
            assert(parent_ok(s, order, i));
            if (i - 1) / 2 == hole {
                assert(dominates(order, s[p], s[i]));
            }
        }
    }
    assert forall|i: int| 0 < i < t.len() && p > 0 && (i - 1) / 2 == p implies dominates(
        order,
        t[(p - 1) / 2],
        #[trigger] t[i],
    ) by {
        assert(parent_ok(s, order, p));
        if i != hole {
            assert(parent_ok(s, order, i));
        }
    }
}

} // verus!
