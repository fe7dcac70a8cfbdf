//! Adjacency storage for graphs and the operations every storage offers.
//!
//! Vertices are the integers `0..n`, handed out in order. A storage is
//! modelled by its adjacency: for each vertex, the targets of its outgoing
//! edges in the order in which the storage keeps them.

use core::marker::PhantomData;
use vstd::prelude::*;

verus! {

/// Marks whether the edges of a graph have a direction.
pub trait Direction {

}

/// Marker of graphs whose edges lead from one vertex to another.
pub struct Directed;

/// Marker of graphs whose edges join two vertices symmetrically.
pub struct Undirected;

impl Direction for Directed {

}

impl Direction for Undirected {

}

/// A graph: an adjacency storage together with the direction of its edges.
/// Every operation is that of the storage.
pub struct Graph<D: Direction, A> {
    adjacency_structure: A,
    _phantom: PhantomData<D>,
}

impl<D: Direction, A: AdjacencyStructure<D>> Graph<D, A> {
    /// The storage of the graph.
    pub closed spec fn view(&self) -> A {
        self.adjacency_structure
    }

    /// A graph without vertices.
    pub fn new() -> (graph: Self)
        ensures
            graph@.adjacency().len() == 0,
    {
        Self::with_adjacency_structure(A::empty())
    }

    /// The graph whose vertices and edges are those of `adjacency_structure`.
    pub fn with_adjacency_structure(adjacency_structure: A) -> (graph: Self)
        ensures
            graph@ == adjacency_structure,
    {
        Self { adjacency_structure, _phantom: PhantomData }
    }
}

impl<D: Direction, A: AdjacencyStructure<D>> core::ops::Deref for Graph<D, A> {
    type Target = A;

    fn deref(&self) -> (structure: &A)
        ensures
            *structure == self@,
    {
        &self.adjacency_structure
    }
}

impl<D: Direction, A: AdjacencyStructure<D>> core::ops::DerefMut for Graph<D, A> {
    fn deref_mut(&mut self) -> (structure: &mut A)
        ensures
            *structure == old(self)@,
            final(self)@ == *final(structure),
    {
        &mut self.adjacency_structure
    }
}

/// Adjacency storage as a matrix; it has no operations yet.
pub struct AdjacencyMatrix {}

/// Whether the adjacency `adj` holds the edge from `v1` to `v2`.
pub open spec fn has_edge(adj: Seq<Seq<usize>>, v1: usize, v2: usize) -> bool {
    v1 < adj.len() && adj[v1 as int].contains(v2)
}

/// Whether the edge from `v1` to `v2` can join the adjacency `adj`: it joins
/// two distinct vertices of `adj` and is not present.
pub open spec fn insertable(adj: Seq<Seq<usize>>, v1: usize, v2: usize) -> bool {
    v1 != v2 && v1 < adj.len() && v2 < adj.len() && !has_edge(adj, v1, v2)
}

/// The rules of an adjacency: every target is a vertex, no edge leads from a
/// vertex to itself, and no edge occurs twice.
pub open spec fn well_formed(adj: Seq<Seq<usize>>) -> bool {
    forall|v: int|
        0 <= v < adj.len() ==> {
            &&& (#[trigger] adj[v]).no_duplicates()
            &&& forall|j: int|
                0 <= j < adj[v].len() ==> (#[trigger] adj[v][j]) < adj.len() && adj[v][j] != v
        }
}

/// The row `row` once the item at `pos` has left it and the last item has
/// taken its place.
pub open spec fn swap_removed<T>(row: Seq<T>, pos: int) -> Seq<T> {
    row.update(pos, row.last()).drop_last()
}

/// The row `row` without the edges that lead to `target`.
pub open spec fn without_target(row: Seq<usize>, target: int) -> Seq<usize> {
    row.filter(other_than(target))
}

/// Whether a vertex differs from `target`.
pub open spec fn other_than(target: int) -> spec_fn(usize) -> bool {
    |t: usize| t != target
}

/// The adjacency `adj` without its last vertex and the edges that lead to it.
pub open spec fn without_last_vertex(adj: Seq<Seq<usize>>) -> Seq<Seq<usize>> {
    Seq::new(
        (adj.len() - 1) as nat,
        |v: int| without_target(adj[v], adj.len() - 1),
    )
}

/// The operations of an adjacency storage for unweighted graphs.
pub trait AdjacencyStructure<D: Direction>: Sized {
    /// For each vertex, the targets of its edges in stored order.
    spec fn adjacency(&self) -> Seq<Seq<usize>>;

    /// A storage without vertices.
    fn empty() -> (structure: Self)
        ensures
            structure.adjacency().len() == 0,
    ;

    /// Whether the edge from `v1` to `v2` is present.
    fn contains_edge(&self, v1: usize, v2: usize) -> (found: bool)
        ensures
            found == has_edge(self.adjacency(), v1, v2),
    ;

    /// Adds the edge from `v1` to `v2` at the end of the edges of `v1`.
    /// Nothing changes where the edge is present, leads from a vertex to
    /// itself, or names a vertex that does not exist.
    fn insert_edge(&mut self, v1: usize, v2: usize) -> (inserted: bool)
        ensures
            well_formed(final(self).adjacency()),
            inserted == insertable(old(self).adjacency(), v1, v2),
            inserted ==> final(self).adjacency() == old(self).adjacency().update(
                v1 as int,
                old(self).adjacency()[v1 as int].push(v2),
            ),
            !inserted ==> final(self).adjacency() == old(self).adjacency(),
    ;

    /// Removes the edge from `v1` to `v2`; the last edge of `v1` takes its
    /// place. Nothing changes where the edge is absent.
    fn remove_edge(&mut self, v1: usize, v2: usize) -> (removed: bool)
        ensures
            well_formed(final(self).adjacency()),
            removed == has_edge(old(self).adjacency(), v1, v2),
            removed ==> final(self).adjacency() == old(self).adjacency().update(
                v1 as int,
                swap_removed(
                    old(self).adjacency()[v1 as int],
                    old(self).adjacency()[v1 as int].index_of(v2),
                ),
            ),
            !removed ==> final(self).adjacency() == old(self).adjacency(),
    ;

    /// Adds a vertex without edges and returns its id, the number of
    /// vertices before the call.
    fn insert_vertex(&mut self) -> (id: usize)
        ensures
            well_formed(final(self).adjacency()),
            id == old(self).adjacency().len(),
            final(self).adjacency() == old(self).adjacency().push(Seq::empty()),
    ;

    /// Removes the vertex with the highest id, and every edge that leads to
    /// it, and returns the id; `None` where there is no vertex.
    fn remove_vertex(&mut self) -> (id: Option<usize>)
        ensures
            well_formed(final(self).adjacency()),
            match id {
                None => old(self).adjacency().len() == 0 && final(self).adjacency() == old(
                    self,
                ).adjacency(),
                Some(v) => old(self).adjacency().len() == v + 1 && final(self).adjacency()
                    == without_last_vertex(old(self).adjacency()),
            },
    ;

    /// Whether `vertex` is the id of a vertex.
    fn contains_vertex(&self, vertex: usize) -> (found: bool)
        ensures
            found == (vertex < self.adjacency().len()),
    ;

    /// The targets of the edges of `vertex` in stored order, or `None` where
    /// `vertex` does not exist. The result depends on the stored edges alone:
    /// as long as they stay, every call returns the same sequence.
    fn adjacency_iter(&self, vertex: usize) -> (targets: Option<Vec<usize>>)
        ensures
            well_formed(self.adjacency()),
            match targets {
                None => vertex >= self.adjacency().len(),
                Some(row) => vertex < self.adjacency().len() && row@ == self.adjacency()[vertex as int],
            },
    ;
}

/// An edge that has joined an adjacency is present, cannot join again, and
/// brings no edge in the opposite direction with it.
pub proof fn lemma_inserted_edge_is_directed(adj: Seq<Seq<usize>>, v1: usize, v2: usize)
    requires
        insertable(adj, v1, v2),
    ensures
        has_edge(adj.update(v1 as int, adj[v1 as int].push(v2)), v1, v2),
        !insertable(adj.update(v1 as int, adj[v1 as int].push(v2)), v1, v2),
        has_edge(adj.update(v1 as int, adj[v1 as int].push(v2)), v2, v1) == has_edge(adj, v2, v1),
{
    let row = adj[v1 as int].push(v2);
    assert(row[row.len() - 1] == v2);
}

/// Once the last vertex has left an adjacency, no edge leads to it, and
/// every edge between the other vertices is still present.
pub proof fn lemma_removed_vertex_leaves_no_edge(adj: Seq<Seq<usize>>, v1: usize, v2: usize)
    requires
        adj.len() > 0,
    ensures
        v2 == adj.len() - 1 ==> !has_edge(without_last_vertex(adj), v1, v2),
        v1 < adj.len() - 1 && v2 < adj.len() - 1 ==> has_edge(without_last_vertex(adj), v1, v2)
            == has_edge(adj, v1, v2),
{
    if v1 < adj.len() - 1 {
        lemma_without_target(adj[v1 as int], adj.len() - 1);
        assert(without_last_vertex(adj)[v1 as int] == without_target(
            adj[v1 as int],
            adj.len() - 1,
        ));
    }
}

/// The rows of `lists` as sequences.
pub open spec fn rows(lists: Vec<Vec<usize>>) -> Seq<Seq<usize>> {
    lists@.map_values(|row: Vec<usize>| row@)
}

/// The first position of `target` in `row`.
fn position(row: &Vec<usize>, target: usize) -> (pos: Option<usize>)
    ensures
        match pos {
            None => !row@.contains(target),
            Some(i) => i < row@.len() && row@[i as int] == target && forall|j: int|
                0 <= j < i ==> row@[j] != target,
        },
{
    let mut i: usize = 0;
    while i < row.len()
        invariant
            i <= row@.len(),
            forall|j: int| 0 <= j < i ==> row@[j] != target,
        decreases row@.len() - i,
    {
        if row[i] == target {
            return Some(i);
        }
        i = i + 1;
    }
    None
}

/// Adjacency lists: for each vertex the list of the targets of its edges.
pub struct AdjacencyList<D: Direction> {
    pub(crate) vertices_list: Vec<Vec<usize>>,
    _phantom: PhantomData<D>,
}

impl<D: Direction> AdjacencyList<D> {
    #[verifier::type_invariant]
    spec fn obeys_rules(self) -> bool {
        well_formed(rows(self.vertices_list))
    }

    /// For each vertex, the targets of its edges in stored order.
    pub closed spec fn view(&self) -> Seq<Seq<usize>> {
        rows(self.vertices_list)
    }

    /// A storage without vertices.
    pub fn new() -> (list: Self)
        ensures
            list@.len() == 0,
    {
        Self { vertices_list: Vec::new(), _phantom: PhantomData }
    }
}

impl<D: Direction> Default for AdjacencyList<D> {
    fn default() -> (list: Self)
        ensures
            list@.len() == 0,
    {
        Self::new()
    }
}

impl AdjacencyStructure<Directed> for AdjacencyList<Directed> {
    open spec fn adjacency(&self) -> Seq<Seq<usize>> {
        self@
    }

    fn empty() -> (structure: Self) {
        Self::new()
    }

    fn contains_edge(&self, v1: usize, v2: usize) -> (found: bool) {
        if v1 < self.vertices_list.len() {
            position(&self.vertices_list[v1], v2).is_some()
        } else {
            false
        }
    }

    fn insert_edge(&mut self, v1: usize, v2: usize) -> (inserted: bool) {
        proof {
            use_type_invariant(&*self);
        }
        if self.contains_edge(v1, v2) {
            return false;
        }
        if v1 == v2 || v1 >= self.vertices_list.len() || v2 >= self.vertices_list.len() {
            return false;
        }
        let mut lists: Vec<Vec<usize>> = Vec::new();
        core::mem::swap(&mut self.vertices_list, &mut lists);
        let ghost before = rows(lists);
        lists[v1].push(v2);
        proof {
            assert(rows(lists) =~= before.update(v1 as int, before[v1 as int].push(v2)));
            lemma_push_keeps_rules(before, v1, v2);
        }
        core::mem::swap(&mut self.vertices_list, &mut lists);
        true
    }

    fn remove_edge(&mut self, v1: usize, v2: usize) -> (removed: bool) {
        proof {
            use_type_invariant(&*self);
        }
        if v1 >= self.vertices_list.len() {
            return false;
        }
        match position(&self.vertices_list[v1], v2) {
            Some(pos) => {
                let mut lists: Vec<Vec<usize>> = Vec::new();
                core::mem::swap(&mut self.vertices_list, &mut lists);
                let ghost before = rows(lists);
                lists[v1].swap_remove(pos);
                proof {
                    assert(before[v1 as int].index_of(v2) == pos);
                    assert(rows(lists) =~= before.update(
                        v1 as int,
                        swap_removed(before[v1 as int], pos as int),
                    ));
                    lemma_swap_remove_keeps_rules(before, v1, pos as int);
                }
                core::mem::swap(&mut self.vertices_list, &mut lists);
                true
            },
            None => false,
        }
    }

    fn insert_vertex(&mut self) -> (id: usize) {
        proof {
            use_type_invariant(&*self);
        }
        let mut lists: Vec<Vec<usize>> = Vec::new();
        core::mem::swap(&mut self.vertices_list, &mut lists);
        let ghost before = rows(lists);
        let new_vertex: usize = lists.len();
        lists.push(Vec::new());
        proof {
            assert(rows(lists) =~= before.push(Seq::empty()));
            lemma_new_vertex_keeps_rules(before);
        }
        core::mem::swap(&mut self.vertices_list, &mut lists);
        new_vertex
    }

    fn remove_vertex(&mut self) -> (id: Option<usize>) {
        proof {
            use_type_invariant(&*self);
        }
        let mut lists: Vec<Vec<usize>> = Vec::new();
        core::mem::swap(&mut self.vertices_list, &mut lists);
        let ghost before = rows(lists);
        let removed = lists.pop();
        let idx: usize = lists.len();
        match removed {
            Some(_) => {
                let mut v: usize = 0;
                while v < lists.len()
                    invariant
                        v <= lists@.len(),
                        lists@.len() == idx,
                        before.len() == idx + 1,
                        forall|u: int| 0 <= u < v ==> (#[trigger] lists@[u])@ == without_target(before[u], idx as int),
                        forall|u: int| v <= u < idx ==> (#[trigger] lists@[u])@ == before[u],
                    decreases lists@.len() - v,
                {
                    let kept = without(&lists[v], idx);
                    lists[v] = kept;
                    v = v + 1;
                }
                proof {
                    assert(rows(lists) =~= without_last_vertex(before));
                    lemma_fewer_vertices_keep_rules(before);
                }
                core::mem::swap(&mut self.vertices_list, &mut lists);
                Some(idx)
            },
            None => {
                proof {
                    assert(rows(lists) =~= before);
                }
                core::mem::swap(&mut self.vertices_list, &mut lists);
                None
            },
        }
    }

    fn contains_vertex(&self, vertex: usize) -> (found: bool) {
        vertex < self.vertices_list.len()
    }

    fn adjacency_iter(&self, vertex: usize) -> (targets: Option<Vec<usize>>) {
        proof {
            use_type_invariant(self);
        }
        if vertex < self.vertices_list.len() {
            Some(self.vertices_list[vertex].clone())
        } else {
            None
        }
    }
}

/// The items of `row` that differ from `target`, in their order.
fn without(row: &Vec<usize>, target: usize) -> (kept: Vec<usize>)
    ensures
        kept@ == without_target(row@, target as int),
{
    let mut kept: Vec<usize> = Vec::new();
    let mut i: usize = 0;
    while i < row.len()
        invariant
            i <= row@.len(),
            kept@ == without_target(row@.take(i as int), target as int),
        decreases row@.len() - i,
    {
        proof {
            lemma_without_target_step(row@, i as int, target as int);
        }
        if row[i] != target {
            kept.push(row[i]);
        }
        i = i + 1;
    }
    proof {
        assert(row@.take(row@.len() as int) =~= row@);
    }
    kept
}

/// Filtering one item more: it joins the result where it differs from
/// `target`.
proof fn lemma_without_target_step(row: Seq<usize>, i: int, target: int)
    requires
        0 <= i < row.len(),
    ensures
        without_target(row.take(i + 1), target) == if row[i] != target {
            without_target(row.take(i), target).push(row[i])
        } else {
            without_target(row.take(i), target)
        },
{
    reveal(Seq::filter);
    assert(row.take(i + 1).drop_last() =~= row.take(i));
}

/// A new edge between two distinct vertices that is not yet present keeps
/// the rules.
proof fn lemma_push_keeps_rules(adj: Seq<Seq<usize>>, v1: usize, v2: usize)
    requires
        well_formed(adj),
        v1 != v2,
        v1 < adj.len(),
        v2 < adj.len(),
        !has_edge(adj, v1, v2),
    ensures
        well_formed(adj.update(v1 as int, adj[v1 as int].push(v2))),
{
    let row = adj[v1 as int];
    let next = adj.update(v1 as int, row.push(v2));
    assert forall|v: int| 0 <= v < next.len() implies {
        &&& (#[trigger] next[v]).no_duplicates()
        &&& forall|j: int|
            0 <= j < next[v].len() ==> (#[trigger] next[v][j]) < next.len() && next[v][j] != v
    } by {
        if v == v1 {
            assert forall|i: int, j: int|
                0 <= i < next[v].len() && 0 <= j < next[v].len() && i != j implies next[v][i]
                != next[v][j] by {
                if i < row.len() {
                    assert(row.contains(row[i]));
                }
                if j < row.len() {
                    assert(row.contains(row[j]));
                }
            }
        } else {
            assert(next[v] == adj[v]);
        }
    }
}

/// Taking one edge out of a row keeps the rules.
proof fn lemma_swap_remove_keeps_rules(adj: Seq<Seq<usize>>, v1: usize, pos: int)
    requires
        well_formed(adj),
        v1 < adj.len(),
        0 <= pos < adj[v1 as int].len(),
    ensures
        well_formed(adj.update(v1 as int, swap_removed(adj[v1 as int], pos))),
{
    let row = adj[v1 as int];
    let next = adj.update(v1 as int, swap_removed(row, pos));
    assert forall|v: int| 0 <= v < next.len() implies {
        &&& (#[trigger] next[v]).no_duplicates()
        &&& forall|j: int|
            0 <= j < next[v].len() ==> (#[trigger] next[v][j]) < next.len() && next[v][j] != v
    } by {
        if v == v1 {
            assert forall|j: int| 0 <= j < next[v].len() implies row.contains(
                #[trigger] next[v][j],
            ) by {
                if j == pos {
                    assert(row[row.len() - 1] == next[v][j]);
                } else {
                    assert(row[j] == next[v][j]);
                }
            }
        } else {
            assert(next[v] == adj[v]);
        }
    }
}

/// A new vertex without edges keeps the rules.
proof fn lemma_new_vertex_keeps_rules(adj: Seq<Seq<usize>>)
    requires
        well_formed(adj),
    ensures
        well_formed(adj.push(Seq::empty())),
{
    let next = adj.push(Seq::<usize>::empty());
    assert forall|v: int| 0 <= v < next.len() implies {
        &&& (#[trigger] next[v]).no_duplicates()
        &&& forall|j: int|
            0 <= j < next[v].len() ==> (#[trigger] next[v][j]) < next.len() && next[v][j] != v
    } by {
        if v < adj.len() {
            assert(next[v] == adj[v]);
        }
    }
}

/// What a row holds once the edges to `target` have left it: the other
/// targets of the row, none of them twice where the row held none twice.
pub proof fn lemma_without_target(row: Seq<usize>, target: int)
    ensures
        forall|t: usize| #[trigger]
            without_target(row, target).contains(t) <==> row.contains(t) && t != target,
        row.no_duplicates() ==> without_target(row, target).no_duplicates(),
    decreases row.len(),
{
    reveal(Seq::filter);
    let kept = without_target(row, target);
    if row.len() > 0 {
        let front = row.drop_last();
        let kept_front = without_target(front, target);
        lemma_without_target(front, target);
        assert(kept == if row.last() != target {
            kept_front.push(row.last())
        } else {
            kept_front
        });
        assert forall|t: usize| #[trigger]
            kept.contains(t) <==> row.contains(t) && t != target by {
            if kept.contains(t) {
                let k = choose|k: int| 0 <= k < kept.len() && kept[k] == t;
                if k < kept_front.len() {
                    assert(kept_front[k] == t);
                    assert(kept_front.contains(t));
                    assert(front.contains(t));
                    let j = choose|j: int| 0 <= j < front.len() && front[j] == t;
                    assert(row[j] == t);
                } else {
                    assert(row[row.len() - 1] == t);
                }
            }
            if row.contains(t) && t != target {
                let j = choose|j: int| 0 <= j < row.len() && row[j] == t;
                if j < front.len() {
                    assert(front[j] == t);
                    assert(front.contains(t));
                    assert(kept_front.contains(t));
                    let k = choose|k: int| 0 <= k < kept_front.len() && kept_front[k] == t;
                    assert(kept[k] == t);
                } else {
                    assert(kept[kept.len() - 1] == t);
                }
            }
        }
        if row.no_duplicates() {
            assert(front.no_duplicates());
            if row.last() != target && kept_front.contains(row.last()) {
                assert(front.contains(row.last()));
                let j = choose|j: int| 0 <= j < front.len() && front[j] == row.last();
                assert(row[j] == row[row.len() - 1]);
            }
        }
    }
}

/// Without its last vertex, and the edges that lead to it, an adjacency
/// keeps the rules.
proof fn lemma_fewer_vertices_keep_rules(adj: Seq<Seq<usize>>)
    requires
        well_formed(adj),
        adj.len() > 0,
    ensures
        well_formed(without_last_vertex(adj)),
{
    let next = without_last_vertex(adj);
    let last = adj.len() - 1;
    assert forall|v: int| 0 <= v < next.len() implies {
        &&& (#[trigger] next[v]).no_duplicates()
        &&& forall|j: int|
            0 <= j < next[v].len() ==> (#[trigger] next[v][j]) < next.len() && next[v][j] != v
    } by {
        lemma_without_target(adj[v], last);
        assert(next[v] == without_target(adj[v], last));
        assert forall|j: int| 0 <= j < next[v].len() implies (#[trigger] next[v][j])
            < next.len() && next[v][j] != v by {
            let t = next[v][j];
            assert(without_target(adj[v], last).contains(t));
            assert(adj[v].contains(t) && t != last);
            let k = choose|k: int| 0 <= k < adj[v].len() && adj[v][k] == t;
            assert(adj[v][k] < adj.len());
        }
    }
}

/// The targets of the weighted edges of `row`.
pub open spec fn targets_of(row: Seq<(usize, u32)>) -> Seq<usize> {
    row.map_values(|edge: (usize, u32)| edge.0)
}

/// The weighted adjacency `adj` without its weights.
pub open spec fn targets(adj: Seq<Seq<(usize, u32)>>) -> Seq<Seq<usize>> {
    adj.map_values(|row: Seq<(usize, u32)>| targets_of(row))
}

/// Whether a weighted edge leads to another vertex than `target`.
pub open spec fn leads_elsewhere(target: int) -> spec_fn((usize, u32)) -> bool {
    |edge: (usize, u32)| edge.0 != target
}

/// The weighted adjacency `adj` without its last vertex and the edges that
/// lead to it.
pub open spec fn weighted_without_last_vertex(adj: Seq<Seq<(usize, u32)>>) -> Seq<
    Seq<(usize, u32)>,
> {
    Seq::new(
        (adj.len() - 1) as nat,
        |v: int| adj[v].filter(leads_elsewhere(adj.len() - 1)),
    )
}

/// Once the last vertex has left a weighted adjacency, no edge leads to it.
pub proof fn lemma_weighted_removed_vertex_leaves_no_edge(
    adj: Seq<Seq<(usize, u32)>>,
    v1: usize,
    v2: usize,
)
    requires
        adj.len() > 0,
        v2 == adj.len() - 1,
    ensures
        !has_edge(targets(weighted_without_last_vertex(adj)), v1, v2),
{
    let next = weighted_without_last_vertex(adj);
    if v1 < next.len() {
        let row = next[v1 as int];
        assert(targets(next)[v1 as int] == targets_of(row));
        if targets_of(row).contains(v2) {
            let k = choose|k: int| 0 <= k < targets_of(row).len() && targets_of(row)[k] == v2;
            adj[v1 as int].lemma_filter_pred(leads_elsewhere(adj.len() - 1), k);
        }
    }
}

/// The operations of an adjacency storage for graphs whose edges carry a
/// weight.
pub trait WeightedAdjacencyStructure<D: Direction>: Sized {
    /// For each vertex, its edges in stored order, each as target and weight.
    spec fn adjacency(&self) -> Seq<Seq<(usize, u32)>>;

    /// Whether the edge from `v1` to `v2` is present.
    fn contains_edge(&self, v1: usize, v2: usize) -> (found: bool)
        ensures
            found == has_edge(targets(self.adjacency()), v1, v2),
    ;

    /// Adds the edge from `v1` to `v2` with `weight` at the end of the edges
    /// of `v1`. Nothing changes where the edge is present, leads from a
    /// vertex to itself, or names a vertex that does not exist.
    fn insert_edge(&mut self, v1: usize, v2: usize, weight: u32) -> (inserted: bool)
        ensures
            well_formed(targets(final(self).adjacency())),
            inserted == insertable(targets(old(self).adjacency()), v1, v2),
            inserted ==> final(self).adjacency() == old(self).adjacency().update(
                v1 as int,
                old(self).adjacency()[v1 as int].push((v2, weight)),
            ),
            !inserted ==> final(self).adjacency() == old(self).adjacency(),
    ;

    /// Removes the edge from `v1` to `v2`; the last edge of `v1` takes its
    /// place. Nothing changes where the edge is absent.
    fn remove_edge(&mut self, v1: usize, v2: usize) -> (removed: bool)
        ensures
            well_formed(targets(final(self).adjacency())),
            removed == has_edge(targets(old(self).adjacency()), v1, v2),
            removed ==> final(self).adjacency() == old(self).adjacency().update(
                v1 as int,
                swap_removed(
                    old(self).adjacency()[v1 as int],
                    targets_of(old(self).adjacency()[v1 as int]).index_of(v2),
                ),
            ),
            !removed ==> final(self).adjacency() == old(self).adjacency(),
    ;

    /// Adds a vertex without edges and returns its id, the number of
    /// vertices before the call.
    fn insert_vertex(&mut self) -> (id: usize)
        ensures
            well_formed(targets(final(self).adjacency())),
            id == old(self).adjacency().len(),
            final(self).adjacency() == old(self).adjacency().push(Seq::empty()),
    ;

    /// Removes the vertex with the highest id, and every edge that leads to
    /// it, and returns the id; `None` where there is no vertex.
    fn remove_vertex(&mut self) -> (id: Option<usize>)
        ensures
            well_formed(targets(final(self).adjacency())),
            match id {
                None => old(self).adjacency().len() == 0 && final(self).adjacency() == old(
                    self,
                ).adjacency(),
                Some(v) => old(self).adjacency().len() == v + 1 && final(self).adjacency()
                    == weighted_without_last_vertex(old(self).adjacency()),
            },
    ;

    /// Whether `vertex` is the id of a vertex.
    fn contains_vertex(&self, vertex: usize) -> (found: bool)
        ensures
            found == (vertex < self.adjacency().len()),
    ;

    /// The number of vertices.
    fn count_vertices(&self) -> (count: usize)
        ensures
            count == self.adjacency().len(),
    ;

    /// The edges of `vertex` in stored order, each as target and weight, or
    /// `None` where `vertex` does not exist. The result depends on the
    /// stored edges alone: as long as they stay, every call returns the same
    /// sequence.
    fn adjacency_iter(&self, vertex: usize) -> (edges: Option<Vec<(usize, u32)>>)
        ensures
            well_formed(targets(self.adjacency())),
            match edges {
                None => vertex >= self.adjacency().len(),
                Some(row) => vertex < self.adjacency().len() && row@ == self.adjacency()[vertex as int],
            },
    ;

    /// The weight of the edge from `v1` to `v2`, or `None` where the edge is
    /// absent.
    fn get_weight(&self, v1: usize, v2: usize) -> (weight: Option<u32>)
        ensures
            match weight {
                None => !has_edge(targets(self.adjacency()), v1, v2),
                Some(w) => has_edge(targets(self.adjacency()), v1, v2) && w
                    == self.adjacency()[v1 as int][targets_of(
                    self.adjacency()[v1 as int],
                ).index_of(v2)].1,
            },
    ;
}

/// The rows of `lists` as sequences.
pub open spec fn weight_rows(lists: Vec<Vec<u32>>) -> Seq<Seq<u32>> {
    lists@.map_values(|row: Vec<u32>| row@)
}

/// Whether every row of `weights` is as long as the row of `targets` at the
/// same position.
pub open spec fn aligned(targets: Seq<Seq<usize>>, weights: Seq<Seq<u32>>) -> bool {
    &&& weights.len() == targets.len()
    &&& forall|v: int| 0 <= v < targets.len() ==> (#[trigger] weights[v]).len() == targets[v].len()
}

/// The edges of one vertex that a row of targets and the row of weights
/// beside it stand for.
pub open spec fn weighted_row(targets: Seq<usize>, weights: Seq<u32>) -> Seq<(usize, u32)> {
    Seq::new(targets.len(), |j: int| (targets[j], weights[j]))
}

/// The edges that the aligned rows `targets` and `weights` stand for.
pub open spec fn weighted(targets: Seq<Seq<usize>>, weights: Seq<Seq<u32>>) -> Seq<
    Seq<(usize, u32)>,
> {
    Seq::new(targets.len(), |v: int| weighted_row(targets[v], weights[v]))
}

/// Adjacency lists with a weight for each edge: beside the list of targets
/// of each vertex stands the list of the weights of its edges, in the same
/// order.
pub struct WeightedAdjacencyList<D: Direction> {
    list: AdjacencyList<D>,
    weights: Vec<Vec<u32>>,
}

impl<D: Direction> WeightedAdjacencyList<D> {
    #[verifier::type_invariant]
    spec fn weights_aligned(self) -> bool {
        aligned(self.list@, weight_rows(self.weights))
    }

    /// For each vertex, the stored targets of its edges.
    pub closed spec fn stored_targets(&self) -> Seq<Seq<usize>> {
        self.list@
    }

    /// For each vertex, the stored weights of its edges.
    pub closed spec fn stored_weights(&self) -> Seq<Seq<u32>> {
        weight_rows(self.weights)
    }

    /// For each vertex, its edges in stored order, each as target and weight.
    pub open spec fn view(&self) -> Seq<Seq<(usize, u32)>> {
        weighted(self.stored_targets(), self.stored_weights())
    }
}

impl<D: Direction> Default for WeightedAdjacencyList<D> {
    fn default() -> (list: Self)
        ensures
            list@.len() == 0,
            aligned(list.stored_targets(), list.stored_weights()),
    {
        Self { list: AdjacencyList::new(), weights: Vec::new() }
    }
}

/// Without their weights, the edges that aligned rows stand for are the
/// rows of targets.
pub proof fn lemma_targets_of_weighted(t: Seq<Seq<usize>>, w: Seq<Seq<u32>>)
    requires
        aligned(t, w),
    ensures
        targets(weighted(t, w)) == t,
{
    let adj = weighted(t, w);
    assert forall|v: int| 0 <= v < t.len() implies #[trigger] targets(adj)[v] == t[v] by {
        assert(targets(adj)[v] == targets_of(adj[v]));
        assert(targets_of(adj[v]) =~= t[v]);
    }
    assert(targets(adj) =~= t);
}

impl WeightedAdjacencyStructure<Directed> for WeightedAdjacencyList<Directed> {
    open spec fn adjacency(&self) -> Seq<Seq<(usize, u32)>> {
        self@
    }

    fn contains_edge(&self, v1: usize, v2: usize) -> (found: bool) {
        proof {
            use_type_invariant(self);
            lemma_targets_of_weighted(self.list@, weight_rows(self.weights));
        }
        self.list.contains_edge(v1, v2)
    }

    fn insert_edge(&mut self, v1: usize, v2: usize, weight: u32) -> (inserted: bool)
        ensures
            aligned(final(self).stored_targets(), final(self).stored_weights()),
    {
        proof {
            use_type_invariant(&*self);
        }
        let mut this = Self::default();
        core::mem::swap(self, &mut this);
        let WeightedAdjacencyList { mut list, mut weights } = this;
        let ghost t0 = list@;
        let ghost w0 = weight_rows(weights);
        let res = list.insert_edge(v1, v2);
        if res {
            weights[v1].push(weight);
        }
        proof {
            lemma_targets_of_weighted(t0, w0);
            if res {
                assert(weight_rows(weights) =~= w0.update(v1 as int, w0[v1 as int].push(weight)));
                assert(aligned(list@, weight_rows(weights)));
                assert(weighted(list@, weight_rows(weights)) =~= weighted(t0, w0).update(
                    v1 as int,
                    weighted(t0, w0)[v1 as int].push((v2, weight)),
                )) by {
                    assert forall|v: int| 0 <= v < t0.len() implies #[trigger] weighted(
                        list@,
                        weight_rows(weights),
                    )[v] =~= weighted(t0, w0).update(
                        v1 as int,
                        weighted(t0, w0)[v1 as int].push((v2, weight)),
                    )[v] by {}
                }
            } else {
                assert(weight_rows(weights) =~= w0);
            }
            lemma_targets_of_weighted(list@, weight_rows(weights));
        }
        *self = WeightedAdjacencyList { list, weights };
        res
    }

    fn remove_edge(&mut self, v1: usize, v2: usize) -> (removed: bool)
        ensures
            aligned(final(self).stored_targets(), final(self).stored_weights()),
    {
        proof {
            use_type_invariant(&*self);
        }
        let mut this = Self::default();
        core::mem::swap(self, &mut this);
        let WeightedAdjacencyList { mut list, mut weights } = this;
        let ghost t0 = list@;
        let ghost w0 = weight_rows(weights);
        proof {
            use_type_invariant(&list);
            lemma_targets_of_weighted(t0, w0);
        }
        if list.contains_vertex(v1) {
            match position(&list.vertices_list[v1], v2) {
                Some(pos) => {
                    proof {
                        assert(w0[v1 as int] == weights@[v1 as int]@);
                        assert(t0[v1 as int] == list.vertices_list@[v1 as int]@);
                    }
                    weights[v1].swap_remove(pos);
                    proof {
                        assert(t0[v1 as int].index_of(v2) == pos);
                        assert(weight_rows(weights) =~= w0.update(
                            v1 as int,
                            swap_removed(w0[v1 as int], pos as int),
                        ));
                    }
                },
                None => {
                    proof {
                        assert(weight_rows(weights) =~= w0);
                    }
                },
            }
        }
        let res = list.remove_edge(v1, v2);
        proof {
            if res {
                let pos = t0[v1 as int].index_of(v2);
                let before = weighted(t0, w0);
                assert(targets_of(before[v1 as int]) == t0[v1 as int]) by {
                    assert(targets(before)[v1 as int] == targets_of(before[v1 as int]));
                }
                assert(aligned(list@, weight_rows(weights)));
                assert forall|v: int| 0 <= v < t0.len() implies #[trigger] weighted(
                    list@,
                    weight_rows(weights),
                )[v] =~= before.update(v1 as int, swap_removed(before[v1 as int], pos))[v] by {}
                assert(weighted(list@, weight_rows(weights)) =~= before.update(
                    v1 as int,
                    swap_removed(before[v1 as int], pos),
                ));
            }
            lemma_targets_of_weighted(list@, weight_rows(weights));
        }
        *self = WeightedAdjacencyList { list, weights };
        res
    }

    fn insert_vertex(&mut self) -> (id: usize)
        ensures
            aligned(final(self).stored_targets(), final(self).stored_weights()),
    {
        proof {
            use_type_invariant(&*self);
        }
        let mut this = Self::default();
        core::mem::swap(self, &mut this);
        let WeightedAdjacencyList { mut list, mut weights } = this;
        let ghost t0 = list@;
        let ghost w0 = weight_rows(weights);
        weights.push(Vec::new());
        let id = list.insert_vertex();
        proof {
            assert(weight_rows(weights) =~= w0.push(Seq::empty()));
            assert(aligned(list@, weight_rows(weights)));
            assert forall|v: int| 0 <= v < list@.len() implies #[trigger] weighted(
                list@,
                weight_rows(weights),
            )[v] =~= weighted(t0, w0).push(Seq::empty())[v] by {}
            assert(weighted(list@, weight_rows(weights)) =~= weighted(t0, w0).push(Seq::empty()));
            lemma_targets_of_weighted(list@, weight_rows(weights));
        }
        *self = WeightedAdjacencyList { list, weights };
        id
    }

    fn remove_vertex(&mut self) -> (id: Option<usize>)
        ensures
            aligned(final(self).stored_targets(), final(self).stored_weights()),
    {
        proof {
            use_type_invariant(&*self);
        }
        let mut this = Self::default();
        core::mem::swap(self, &mut this);
        let WeightedAdjacencyList { mut list, mut weights } = this;
        let ghost t0 = list@;
        let ghost w0 = weight_rows(weights);
        proof {
            use_type_invariant(&list);
        }
        if weights.len() != 0 {
            let v_rem: usize = weights.len() - 1;
            weights.pop();
            let mut v: usize = 0;
            while v < weights.len()
                invariant
                    v <= weights@.len(),
                    weights@.len() == v_rem,
                    t0.len() == v_rem + 1,
                    list@ == t0,
                    aligned(t0, w0),
                    well_formed(t0),
                    forall|u: int|
                        0 <= u < v ==> (#[trigger] weights@[u])@.len() == without_target(
                            t0[u],
                            v_rem as int,
                        ).len() && weighted_row(without_target(t0[u], v_rem as int), weights@[u]@)
                            == weighted_row(t0[u], w0[u]).filter(leads_elsewhere(v_rem as int)),
                    forall|u: int| v <= u < v_rem ==> (#[trigger] weights@[u])@ == w0[u],
                decreases weights@.len() - v,
            {
                let ghost row = weighted_row(t0[v as int], w0[v as int]);
                match position(&list.vertices_list[v], v_rem) {
                    Some(pos) => {
                        weights[v].remove(pos);
                        proof {
                            lemma_filter_drops_one(t0[v as int], other_than(v_rem as int), pos as int);
                            lemma_filter_drops_one(row, leads_elsewhere(v_rem as int), pos as int);
                            assert(weighted_row(
                                t0[v as int].remove(pos as int),
                                w0[v as int].remove(pos as int),
                            ) =~= row.remove(pos as int));
                        }
                    },
                    None => {
                        proof {
                            lemma_filter_keeps_all(t0[v as int], other_than(v_rem as int));
                            lemma_filter_keeps_all(row, leads_elsewhere(v_rem as int));
                        }
                    },
                }
                v = v + 1;
            }
        } else {
            proof {
                assert(weight_rows(weights) =~= w0);
            }
        }
        let id = list.remove_vertex();
        proof {
            if id.is_some() {
                let before = weighted(t0, w0);
                assert(aligned(list@, weight_rows(weights)));
                assert forall|u: int| 0 <= u < list@.len() implies #[trigger] weighted(
                    list@,
                    weight_rows(weights),
                )[u] == weighted_without_last_vertex(before)[u] by {
                    assert(weighted(list@, weight_rows(weights))[u] =~= weighted_row(
                        without_target(t0[u], t0.len() - 1),
                        weights@[u]@,
                    ));
                    assert(before[u] =~= weighted_row(t0[u], w0[u]));
                }
                assert(weighted(list@, weight_rows(weights)) =~= weighted_without_last_vertex(
                    before,
                ));
            }
            lemma_targets_of_weighted(list@, weight_rows(weights));
        }
        *self = WeightedAdjacencyList { list, weights };
        id
    }

    fn contains_vertex(&self, vertex: usize) -> (found: bool) {
        proof {
            use_type_invariant(self);
        }
        self.list.contains_vertex(vertex)
    }

    fn count_vertices(&self) -> (count: usize) {
        proof {
            use_type_invariant(self);
        }
        self.weights.len()
    }

    fn adjacency_iter(&self, vertex: usize) -> (edges: Option<Vec<(usize, u32)>>) {
        proof {
            use_type_invariant(self);
            use_type_invariant(&self.list);
            lemma_targets_of_weighted(self.list@, weight_rows(self.weights));
        }
        if vertex < self.weights.len() {
            let targets = &self.list.vertices_list[vertex];
            let weights = &self.weights[vertex];
            let mut row: Vec<(usize, u32)> = Vec::new();
            let mut j: usize = 0;
            proof {
                assert(weight_rows(self.weights)[vertex as int] == weights@);
                assert(self.list@[vertex as int] == targets@);
            }
            while j < targets.len()
                invariant
                    j <= targets@.len(),
                    targets@.len() == weights@.len(),
                    row@ == weighted_row(targets@, weights@).take(j as int),
                decreases targets@.len() - j,
            {
                row.push((targets[j], weights[j]));
                proof {
                    assert(row@ =~= weighted_row(targets@, weights@).take(j + 1));
                }
                j = j + 1;
            }
            proof {
                assert(row@ =~= self@[vertex as int]);
            }
            Some(row)
        } else {
            None
        }
    }

    fn get_weight(&self, v1: usize, v2: usize) -> (weight: Option<u32>) {
        proof {
            use_type_invariant(self);
            use_type_invariant(&self.list);
            lemma_targets_of_weighted(self.list@, weight_rows(self.weights));
        }
        if v1 < self.weights.len() {
            match position(&self.list.vertices_list[v1], v2) {
                Some(pos) => {
                    proof {
                        assert(targets(self@)[v1 as int] == targets_of(self@[v1 as int]));
                        assert(self.list@[v1 as int].index_of(v2) == pos);
                    }
                    Some(self.weights[v1][pos])
                },
                None => None,
            }
        } else {
            None
        }
    }
}

/// A filter keeps a sequence whose items all pass.
pub proof fn lemma_filter_keeps_all<T>(s: Seq<T>, pred: spec_fn(T) -> bool)
    requires
        forall|i: int| 0 <= i < s.len() ==> pred(#[trigger] s[i]),
    ensures
        s.filter(pred) == s,
    decreases s.len(),
{
    reveal(Seq::filter);
    if s.len() > 0 {
        lemma_filter_keeps_all(s.drop_last(), pred);
        assert(s.drop_last().push(s.last()) =~= s);
    }
}

/// A filter that only the item at `pos` fails removes that item.
pub proof fn lemma_filter_drops_one<T>(s: Seq<T>, pred: spec_fn(T) -> bool, pos: int)
    requires
        0 <= pos < s.len(),
        forall|i: int| 0 <= i < s.len() ==> (pred(#[trigger] s[i]) <==> i != pos),
    ensures
        s.filter(pred) == s.remove(pos),
    decreases s.len(),
{
    reveal(Seq::filter);
    let front = s.drop_last();
    if pos == s.len() - 1 {
        lemma_filter_keeps_all(front, pred);
        assert(s.remove(pos) =~= front);
    } else {
        lemma_filter_drops_one(front, pred, pos);
        assert(front.remove(pos).push(s.last()) =~= s.remove(pos));
    }
}

} // verus!
