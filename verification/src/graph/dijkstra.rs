//! Single-source shortest paths in graphs with non-negative edge weights.
//!
//! A distance is the smallest total weight of a path from the start vertex;
//! it is counted up to `u32::MAX`, which stands for "not reached".

use crate::datastructures::heap::{HeapItem, MinHeap};
use crate::graph::structure::{
    has_edge, targets, targets_of, well_formed, Direction, WeightedAdjacencyStructure,
};
use vstd::multiset::Multiset;
use vstd::prelude::*;

verus! {

/// The distance of a vertex that no path reaches.
pub const UNREACHED: u32 = u32::MAX;

/// What a search from a start vertex has found: for each vertex its
/// distance from the start, and the vertex before it on a shortest path.
pub struct Dijkstra {
    pub distances: Vec<u32>,
    pub predecessor: Vec<Option<usize>>,
}

/// The failure of a search whose start is not a vertex of the graph.
#[derive(Debug, Clone, Copy, PartialEq, Eq, Structural)]
pub struct StartOutOfRange {
    /// The start that was asked for.
    pub start: usize,
    /// The number of vertices of the graph.
    pub vertices: usize,
}

/// A vertex waiting in the queue, together with the distance that was known
/// for it when it joined.
struct QueueEntry(u32, usize);

impl HeapItem for QueueEntry {
    closed spec fn rank(&self) -> int {
        self.0 as int
    }

    fn ranks_below(&self, other: &Self) -> (b: bool) {
        self.0 < other.0
    }
}

/// The weight of the edge from `v1` to `v2` in `adj`.
pub open spec fn edge_weight(adj: Seq<Seq<(usize, u32)>>, v1: usize, v2: usize) -> int {
    adj[v1 as int][targets_of(adj[v1 as int]).index_of(v2)].1 as int
}

/// Whether `path` is a path in `adj`: a vertex, followed by any number of
/// vertices to each of which an edge leads from the one before.
pub open spec fn is_path(adj: Seq<Seq<(usize, u32)>>, path: Seq<usize>) -> bool {
    &&& path.len() > 0
    &&& path[0] < adj.len()
    &&& forall|i: int|
        0 <= i < path.len() - 1 ==> has_edge(targets(adj), #[trigger] path[i], path[i + 1])
}

/// Whether `path` is a path in `adj` that leads from `from` to `to`.
pub open spec fn connects(
    adj: Seq<Seq<(usize, u32)>>,
    path: Seq<usize>,
    from: usize,
    to: usize,
) -> bool {
    is_path(adj, path) && path[0] == from && path.last() == to
}

/// The total weight of the edges along `path`.
pub open spec fn path_weight(adj: Seq<Seq<(usize, u32)>>, path: Seq<usize>) -> int
    decreases path.len(),
{
    if path.len() <= 1 {
        0
    } else {
        path_weight(adj, path.drop_last()) + edge_weight(
            adj,
            path[path.len() - 2],
            path[path.len() - 1],
        )
    }
}

/// Whether `dist` holds, for each vertex of `adj`, its distance from
/// `start`: no path from `start` weighs less, and some path weighs exactly
/// as much, unless the vertex counts as not reached.
pub open spec fn shortest_distances(
    adj: Seq<Seq<(usize, u32)>>,
    start: usize,
    dist: Seq<u32>,
) -> bool {
    &&& dist.len() == adj.len()
    &&& forall|v: usize, path: Seq<usize>| #[trigger]
        connects(adj, path, start, v) ==> dist[v as int] <= path_weight(adj, path)
    &&& forall|v: usize|
        v < adj.len() && (#[trigger] dist[v as int]) < UNREACHED ==> exists|path: Seq<usize>|
            connects(adj, path, start, v) && path_weight(adj, path) == dist[v as int]
}

/// Whether `pred` names, for each vertex that `dist` counts as reached from
/// `start`, a vertex from which one edge completes a shortest path to it,
/// and no vertex for `start` and for the vertices not reached.
pub open spec fn shortest_path_tree(
    adj: Seq<Seq<(usize, u32)>>,
    start: usize,
    dist: Seq<u32>,
    pred: Seq<Option<usize>>,
) -> bool {
    &&& pred.len() == adj.len()
    &&& forall|v: usize|
        v < adj.len() ==> match #[trigger] pred[v as int] {
            None => v == start || dist[v as int] == UNREACHED,
            Some(u) => {
                &&& v != start
                &&& dist[v as int] < UNREACHED
                &&& has_edge(targets(adj), u, v)
                &&& dist[v as int] == dist[u as int] + edge_weight(adj, u, v)
            },
        }
}

/// A vertex that no path from `start` reaches has the distance `UNREACHED`
/// and no predecessor.
pub proof fn lemma_unreachable_vertex(
    adj: Seq<Seq<(usize, u32)>>,
    start: usize,
    dist: Seq<u32>,
    pred: Seq<Option<usize>>,
    v: usize,
)
    requires
        shortest_distances(adj, start, dist),
        shortest_path_tree(adj, start, dist, pred),
        v < adj.len(),
        forall|path: Seq<usize>| !connects(adj, path, start, v),
    ensures
        dist[v as int] == UNREACHED,
        pred[v as int] is None,
{
    if dist[v as int] < UNREACHED {
        let path = choose|path: Seq<usize>|
            connects(adj, path, start, v) && path_weight(adj, path) == dist[v as int];
        assert(connects(adj, path, start, v));
    }
}

/// The predecessor of a vertex is the vertex before it on a shortest path:
/// some path from `start` to `v` has the distance of `v` as its weight and
/// the predecessor of `v` as its last vertex but one.
pub proof fn lemma_predecessor_on_shortest_path(
    adj: Seq<Seq<(usize, u32)>>,
    start: usize,
    dist: Seq<u32>,
    pred: Seq<Option<usize>>,
    v: usize,
)
    requires
        shortest_distances(adj, start, dist),
        shortest_path_tree(adj, start, dist, pred),
        v < adj.len(),
        pred[v as int] is Some,
    ensures
        exists|path: Seq<usize>|
            connects(adj, path, start, v) && path_weight(adj, path) == dist[v as int]
                && path.len() >= 2 && path[path.len() - 2] == pred[v as int]->0,
{
    let u = pred[v as int]->0;
    assert(u < adj.len());
    assert(edge_weight(adj, u, v) >= 0);
    assert(dist[u as int] < UNREACHED);
    let shorter = choose|path: Seq<usize>|
        connects(adj, path, start, u) && path_weight(adj, path) == dist[u as int];
    let path = shorter.push(v);
    assert(path.drop_last() =~= shorter);
    assert forall|i: int| 0 <= i < path.len() - 1 implies has_edge(
        targets(adj),
        #[trigger] path[i],
        path[i + 1],
    ) by {
        if i < shorter.len() - 1 {
            assert(has_edge(targets(adj), shorter[i], shorter[i + 1]));
        }
    }
    assert(connects(adj, path, start, v) && path_weight(adj, path) == dist[v as int] && path.len()
        >= 2 && path[path.len() - 2] == u);
}

/// The sum of the distances in `dist`.
spec fn total(dist: Seq<u32>) -> nat
    decreases dist.len(),
{
    if dist.len() == 0 {
        0
    } else {
        total(dist.drop_last()) + dist.last() as nat
    }
}

/// A smaller distance for one vertex makes the sum smaller by as much.
proof fn lemma_total_update(dist: Seq<u32>, v: int, d: u32)
    requires
        0 <= v < dist.len(),
    ensures
        total(dist.update(v, d)) == total(dist) - dist[v] + d,
    decreases dist.len(),
{
    if v == dist.len() - 1 {
        assert(dist.update(v, d).drop_last() =~= dist.drop_last());
    } else {
        lemma_total_update(dist.drop_last(), v, d);
        assert(dist.update(v, d).drop_last() =~= dist.drop_last().update(v, d));
    }
}

/// No edge from `u` leads to a vertex whose distance it could lower.
spec fn settled(adj: Seq<Seq<(usize, u32)>>, dist: Seq<u32>, u: usize) -> bool {
    forall|j: int|
        0 <= j < adj[u as int].len() ==> dist[(#[trigger] adj[u as int][j]).0 as int] <= dist[u as int]
            + adj[u as int][j].1
}

/// A reached vertex `u` waits in the queue with its distance, or is settled.
spec fn vertex_ok(
    adj: Seq<Seq<(usize, u32)>>,
    queue: Multiset<QueueEntry>,
    dist: Seq<u32>,
    u: usize,
) -> bool {
    dist[u as int] < UNREACHED ==> queue.count(QueueEntry(dist[u as int], u)) > 0 || settled(
        adj,
        dist,
        u,
    )
}

/// The distance of a reached vertex `v` is the weight of a path from `start`.
spec fn reached_ok(adj: Seq<Seq<(usize, u32)>>, start: usize, dist: Seq<u32>, v: usize) -> bool {
    dist[v as int] < UNREACHED ==> exists|path: Seq<usize>|
        connects(adj, path, start, v) && path_weight(adj, path) == dist[v as int]
}

/// The predecessor of `v` is absent exactly where `v` is the start or not
/// reached; otherwise an edge leads from it to `v`, and the distance of `v`
/// is at least what that edge allows.
spec fn pred_ok(
    adj: Seq<Seq<(usize, u32)>>,
    start: usize,
    dist: Seq<u32>,
    pred: Seq<Option<usize>>,
    v: usize,
) -> bool {
    match pred[v as int] {
        None => v == start || dist[v as int] == UNREACHED,
        Some(u) => {
            &&& v != start
            &&& dist[v as int] < UNREACHED
            &&& dist[u as int] < UNREACHED
            &&& has_edge(targets(adj), u, v)
            &&& dist[v as int] >= dist[u as int] + edge_weight(adj, u, v)
        },
    }
}

/// Every entry of the queue names a vertex, with a distance that is not
/// below the one known for it.
spec fn entries_ok(queue: Multiset<QueueEntry>, dist: Seq<u32>) -> bool {
    forall|e: QueueEntry| #[trigger]
        queue.count(e) > 0 ==> e.1 < dist.len() && e.0 >= dist[e.1 as int]
}

/// What holds of the search apart from the queue and the settled vertices.
spec fn tables_ok(
    adj: Seq<Seq<(usize, u32)>>,
    start: usize,
    queue: Multiset<QueueEntry>,
    dist: Seq<u32>,
    pred: Seq<Option<usize>>,
) -> bool {
    &&& dist.len() == adj.len()
    &&& pred.len() == adj.len()
    &&& start < adj.len()
    &&& dist[start as int] == 0
    &&& entries_ok(queue, dist)
    &&& forall|v: usize| v < adj.len() ==> #[trigger] reached_ok(adj, start, dist, v)
    &&& forall|v: usize| v < adj.len() ==> #[trigger] pred_ok(adj, start, dist, pred, v)
}

/// What holds of the search between two entries of the queue.
spec fn searching(
    adj: Seq<Seq<(usize, u32)>>,
    start: usize,
    queue: Multiset<QueueEntry>,
    dist: Seq<u32>,
    pred: Seq<Option<usize>>,
) -> bool {
    &&& tables_ok(adj, start, queue, dist, pred)
    &&& forall|u: usize| u < adj.len() ==> #[trigger] vertex_ok(adj, queue, dist, u)
}

/// What holds of the search while the edges of `vert` are looked at, the
/// first `done` of them already.
spec fn relaxing(
    adj: Seq<Seq<(usize, u32)>>,
    start: usize,
    queue: Multiset<QueueEntry>,
    dist: Seq<u32>,
    pred: Seq<Option<usize>>,
    vert: usize,
    done: int,
) -> bool {
    &&& tables_ok(adj, start, queue, dist, pred)
    &&& vert < adj.len()
    &&& 0 <= done <= adj[vert as int].len()
    &&& forall|u: usize| u < adj.len() && u != vert ==> #[trigger] vertex_ok(adj, queue, dist, u)
    &&& forall|j: int|
        0 <= j < done ==> dist[(#[trigger] adj[vert as int][j]).0 as int] <= dist[vert as int]
            + adj[vert as int][j].1
}

/// The edge at position `j` among the edges of `u` leads from `u` to
/// another vertex, and its weight is the weight from `u` to that vertex.
proof fn lemma_edge_at(adj: Seq<Seq<(usize, u32)>>, u: usize, j: int)
    requires
        well_formed(targets(adj)),
        u < adj.len(),
        0 <= j < adj[u as int].len(),
    ensures
        has_edge(targets(adj), u, adj[u as int][j].0),
        edge_weight(adj, u, adj[u as int][j].0) == adj[u as int][j].1,
        adj[u as int][j].0 < adj.len(),
        adj[u as int][j].0 != u,
{
    let row = targets_of(adj[u as int]);
    assert(targets(adj)[u as int] == row);
    assert(row[j] == adj[u as int][j].0);
    assert(row.contains(adj[u as int][j].0));
    let k = row.index_of(adj[u as int][j].0);
    assert(row[k] == row[j]);
}

/// An edge from `u` to `v` stands at some position among the edges of `u`,
/// with its weight.
proof fn lemma_edge_index(adj: Seq<Seq<(usize, u32)>>, u: usize, v: usize) -> (j: int)
    requires
        has_edge(targets(adj), u, v),
    ensures
        0 <= j < adj[u as int].len(),
        adj[u as int][j].0 == v,
        edge_weight(adj, u, v) == adj[u as int][j].1,
{
    let row = targets_of(adj[u as int]);
    assert(targets(adj)[u as int] == row);
    row.index_of(v)
}

/// Where every reached vertex is settled, no path from `start` weighs less
/// than the distance of the vertex it leads to.
proof fn lemma_lower_bound(
    adj: Seq<Seq<(usize, u32)>>,
    start: usize,
    dist: Seq<u32>,
    path: Seq<usize>,
)
    requires
        dist.len() == adj.len(),
        start < adj.len(),
        dist[start as int] == 0,
        forall|u: usize|
            u < adj.len() && (#[trigger] dist[u as int]) < UNREACHED ==> settled(adj, dist, u),
        is_path(adj, path),
        path[0] == start,
    ensures
        dist[path.last() as int] <= path_weight(adj, path),
        path_weight(adj, path) >= 0,
    decreases path.len(),
{
    if path.len() > 1 {
        let front = path.drop_last();
        let u = path[path.len() - 2];
        let v = path[path.len() - 1];
        assert(is_path(adj, front)) by {
            assert forall|i: int| 0 <= i < front.len() - 1 implies has_edge(
                targets(adj),
                #[trigger] front[i],
                front[i + 1],
            ) by {
                assert(has_edge(targets(adj), path[i], path[i + 1]));
            }
        }
        lemma_lower_bound(adj, start, dist, front);
        assert(front.last() == u);
        assert(has_edge(targets(adj), path[path.len() - 2], path[path.len() - 2 + 1]));
        let j = lemma_edge_index(adj, u, v);
        if dist[u as int] < UNREACHED {
            assert(settled(adj, dist, u));
            assert(dist[adj[u as int][j].0 as int] <= dist[u as int] + adj[u as int][j].1);
        }
    }
}

/// An entry whose distance has been undercut leaves the queue without
/// further ado.
proof fn lemma_stale_entry(
    adj: Seq<Seq<(usize, u32)>>,
    start: usize,
    queue: Multiset<QueueEntry>,
    dist: Seq<u32>,
    pred: Seq<Option<usize>>,
    entry: QueueEntry,
)
    requires
        searching(adj, start, queue, dist, pred),
        queue.count(entry) > 0,
        entry.0 > dist[entry.1 as int],
    ensures
        searching(adj, start, queue.remove(entry), dist, pred),
{
    broadcast use vstd::multiset::group_multiset_axioms;

    let rest = queue.remove(entry);
    assert forall|e: QueueEntry| #[trigger] rest.count(e) > 0 implies e.1 < dist.len() && e.0
        >= dist[e.1 as int] by {
        assert(queue.count(e) > 0);
    }
    assert forall|u: usize| u < adj.len() implies #[trigger] vertex_ok(adj, rest, dist, u) by {
        assert(vertex_ok(adj, queue, dist, u));
    }
    assert forall|v: usize| v < adj.len() implies #[trigger] reached_ok(adj, start, dist, v) by {}
    assert forall|v: usize| v < adj.len() implies #[trigger] pred_ok(adj, start, dist, pred, v) by {}
}

/// An entry with the distance known for its vertex leaves the queue, and
/// the edges of the vertex are looked at.
proof fn lemma_fresh_entry(
    adj: Seq<Seq<(usize, u32)>>,
    start: usize,
    queue: Multiset<QueueEntry>,
    dist: Seq<u32>,
    pred: Seq<Option<usize>>,
    entry: QueueEntry,
)
    requires
        searching(adj, start, queue, dist, pred),
        queue.count(entry) > 0,
        entry.0 <= dist[entry.1 as int],
    ensures
        entry.1 < adj.len(),
        entry.0 == dist[entry.1 as int],
        relaxing(adj, start, queue.remove(entry), dist, pred, entry.1, 0),
{
    broadcast use vstd::multiset::group_multiset_axioms;

    let rest = queue.remove(entry);
    assert forall|e: QueueEntry| #[trigger] rest.count(e) > 0 implies e.1 < dist.len() && e.0
        >= dist[e.1 as int] by {
        assert(queue.count(e) > 0);
    }
    assert forall|u: usize| u < adj.len() && u != entry.1 implies #[trigger] vertex_ok(
        adj,
        rest,
        dist,
        u,
    ) by {
        assert(vertex_ok(adj, queue, dist, u));
    }
    assert forall|v: usize| v < adj.len() implies #[trigger] reached_ok(adj, start, dist, v) by {}
    assert forall|v: usize| v < adj.len() implies #[trigger] pred_ok(adj, start, dist, pred, v) by {}
}

/// An edge of `vert` that lowers the distance of its target: the target
/// gets the new distance and `vert` as predecessor, and joins the queue.
proof fn lemma_edge_improves(
    adj: Seq<Seq<(usize, u32)>>,
    start: usize,
    queue: Multiset<QueueEntry>,
    dist: Seq<u32>,
    pred: Seq<Option<usize>>,
    vert: usize,
    j: int,
    lower: u32,
)
    requires
        well_formed(targets(adj)),
        relaxing(adj, start, queue, dist, pred, vert, j),
        j < adj[vert as int].len(),
        lower == dist[vert as int] + adj[vert as int][j].1,
        lower < dist[adj[vert as int][j].0 as int],
    ensures
        relaxing(
            adj,
            start,
            queue.insert(QueueEntry(lower, adj[vert as int][j].0)),
            dist.update(adj[vert as int][j].0 as int, lower),
            pred.update(adj[vert as int][j].0 as int, Some(vert)),
            vert,
            j + 1,
        ),
{
    broadcast use vstd::multiset::group_multiset_axioms;

    let t = adj[vert as int][j].0;
    let entry = QueueEntry(lower, t);
    let queue2 = queue.insert(entry);
    let dist2 = dist.update(t as int, lower);
    let pred2 = pred.update(t as int, Some(vert));
    lemma_edge_at(adj, vert, j);
    assert forall|e: QueueEntry| #[trigger] queue2.count(e) > 0 implies e.1 < dist2.len() && e.0
        >= dist2[e.1 as int] by {
        if e != entry {
            assert(queue.count(e) > 0);
        }
    }
    assert forall|v: usize| v < adj.len() implies #[trigger] reached_ok(adj, start, dist2, v) by {
        assert(reached_ok(adj, start, dist, v));
        if v == t {
            assert(reached_ok(adj, start, dist, vert));
            let path = choose|path: Seq<usize>|
                connects(adj, path, start, vert) && path_weight(adj, path) == dist[vert as int];
            let longer = path.push(t);
            assert(longer.drop_last() =~= path);
            assert forall|i: int| 0 <= i < longer.len() - 1 implies has_edge(
                targets(adj),
                #[trigger] longer[i],
                longer[i + 1],
            ) by {
                if i < path.len() - 1 {
                    assert(has_edge(targets(adj), path[i], path[i + 1]));
                }
            }
            assert(connects(adj, longer, start, t));
            assert(path_weight(adj, longer) == lower);
        }
    }
    assert forall|v: usize| v < adj.len() implies #[trigger] pred_ok(
        adj,
        start,
        dist2,
        pred2,
        v,
    ) by {
        assert(pred_ok(adj, start, dist, pred, v));
    }
    assert forall|u: usize| u < adj.len() && u != vert implies #[trigger] vertex_ok(
        adj,
        queue2,
        dist2,
        u,
    ) by {
        assert(vertex_ok(adj, queue, dist, u));
        if u != t && dist[u as int] < UNREACHED && queue.count(QueueEntry(dist[u as int], u))
            == 0 {
            assert(settled(adj, dist, u));
            assert forall|k: int| 0 <= k < adj[u as int].len() implies dist2[(
            #[trigger] adj[u as int][k]).0 as int] <= dist2[u as int] + adj[u as int][k].1 by {
                lemma_edge_at(adj, u, k);
            }
        }
    }
    assert forall|k: int| 0 <= k < j + 1 implies dist2[(#[trigger] adj[vert as int][k]).0 as int]
        <= dist2[vert as int] + adj[vert as int][k].1 by {
        lemma_edge_at(adj, vert, k);
    }
}

/// Once all edges of a vertex have been looked at, the vertex is settled.
proof fn lemma_all_edges_done(
    adj: Seq<Seq<(usize, u32)>>,
    start: usize,
    queue: Multiset<QueueEntry>,
    dist: Seq<u32>,
    pred: Seq<Option<usize>>,
    vert: usize,
)
    requires
        relaxing(adj, start, queue, dist, pred, vert, adj[vert as int].len() as int),
    ensures
        searching(adj, start, queue, dist, pred),
{
    assert forall|u: usize| u < adj.len() implies #[trigger] vertex_ok(adj, queue, dist, u) by {
        if u == vert {
            assert(settled(adj, dist, u));
        }
    }
}

/// With an empty queue the search has found the distances and the
/// predecessors.
proof fn lemma_search_complete(
    adj: Seq<Seq<(usize, u32)>>,
    start: usize,
    queue: Multiset<QueueEntry>,
    dist: Seq<u32>,
    pred: Seq<Option<usize>>,
)
    requires
        searching(adj, start, queue, dist, pred),
        queue.len() == 0,
    ensures
        shortest_distances(adj, start, dist),
        shortest_path_tree(adj, start, dist, pred),
{
    broadcast use vstd::multiset::group_multiset_axioms;

    assert forall|u: usize| u < adj.len() && (#[trigger] dist[u as int]) < UNREACHED implies settled(
        adj,
        dist,
        u,
    ) by {
        assert(vertex_ok(adj, queue, dist, u));
        let e = QueueEntry(dist[u as int], u);
        if queue.count(e) > 0 {
            assert(queue.remove(e).len() == queue.len() - 1);
        }
    }
    assert forall|v: usize, path: Seq<usize>| #[trigger]
        connects(adj, path, start, v) implies dist[v as int] <= path_weight(adj, path) by {
        lemma_lower_bound(adj, start, dist, path);
    }
    assert forall|v: usize|
        v < adj.len() && (#[trigger] dist[v as int]) < UNREACHED implies exists|path: Seq<usize>|
        connects(adj, path, start, v) && path_weight(adj, path) == dist[v as int] by {
        assert(reached_ok(adj, start, dist, v));
    }
    assert forall|v: usize| v < adj.len() implies match #[trigger] pred[v as int] {
        None => v == start || dist[v as int] == UNREACHED,
        Some(u) => {
            &&& v != start
            &&& dist[v as int] < UNREACHED
            &&& has_edge(targets(adj), u, v)
            &&& dist[v as int] == dist[u as int] + edge_weight(adj, u, v)
        },
    } by {
        assert(pred_ok(adj, start, dist, pred, v));
        match pred[v as int] {
            Some(u) => {
                let j = lemma_edge_index(adj, u, v);
                assert(settled(adj, dist, u));
                assert(dist[adj[u as int][j].0 as int] <= dist[u as int] + adj[u as int][j].1);
            },
            None => {},
        }
    }
}

/// Finds, for every vertex of `graph`, its distance from `start` and its
/// predecessor on a shortest path, with a queue of the vertices whose edges
/// are still to be looked at, nearest first.
///
/// A vertex joins the queue each time its distance is lowered; an entry
/// whose distance has been undercut meanwhile is skipped. The search fails
/// where `start` is not a vertex of `graph`.
pub fn dijkstra<D: Direction, A: WeightedAdjacencyStructure<D>>(graph: &A, start: usize) -> (result:
    Result<Dijkstra, StartOutOfRange>)
    ensures
        match result {
            Ok(found) => {
                &&& start < graph.adjacency().len()
                &&& shortest_distances(graph.adjacency(), start, found.distances@)
                &&& shortest_path_tree(
                    graph.adjacency(),
                    start,
                    found.distances@,
                    found.predecessor@,
                )
            },
            Err(failure) => {
                &&& start >= graph.adjacency().len()
                &&& failure.start == start
                &&& failure.vertices == graph.adjacency().len()
            },
        },
{
    let n: usize = graph.count_vertices();
    if start >= n {
        return Err(StartOutOfRange { start, vertices: n });
    }
    let ghost adj = graph.adjacency();
    let mut queue: MinHeap<QueueEntry> = MinHeap::new(Vec::new());
    let mut d: Vec<u32> = vec![UNREACHED; n];
    let mut p: Vec<Option<usize>> = vec![None; n];
    d[start] = 0;
    proof {
        broadcast use vstd::multiset::group_multiset_axioms;

        assert(queue@ =~= Seq::empty());
        assert(queue@.to_multiset() =~= Multiset::empty()) by {
            vstd::seq_lib::to_multiset_len(queue@);
        }
    }
    queue.insert(QueueEntry(0, start));
    proof {
        broadcast use vstd::multiset::group_multiset_axioms;

        let entries = queue@.to_multiset();
        assert forall|v: usize| v < adj.len() implies #[trigger] reached_ok(adj, start, d@, v) by {
            if v == start {
                let path = seq![start];
                assert(connects(adj, path, start, start));
                assert(path_weight(adj, path) == 0);
            }
        }
        assert forall|v: usize| v < adj.len() implies #[trigger] pred_ok(adj, start, d@, p@, v) by {}
        assert forall|u: usize| u < adj.len() implies #[trigger] vertex_ok(adj, entries, d@, u) by {}
        assert(entries_ok(entries, d@));
    }
    loop
        invariant
            adj == graph.adjacency(),
            n == adj.len(),
            d@.len() == n,
            p@.len() == n,
            searching(adj, start, queue@.to_multiset(), d@, p@),
        ensures
            searching(adj, start, queue@.to_multiset(), d@, p@),
            queue@.len() == 0,
        decreases total(d@), queue@.len(),
    {
        let ghost before = queue@;
        let ghost total_before = total(d@);
        match queue.extract() {
            None => {
                break ;
            },
            Some(entry) => {
                let cost: u32 = entry.0;
                let vert: usize = entry.1;
                proof {
                    vstd::seq_lib::to_multiset_contains(before, entry);
                    assert(before.contains(before[0]));
                }
                if cost > d[vert] {
                    proof {
                        lemma_stale_entry(adj, start, before.to_multiset(), d@, p@, entry);
                    }
                } else {
                    proof {
                        lemma_fresh_entry(adj, start, before.to_multiset(), d@, p@, entry);
                    }
                    match graph.adjacency_iter(vert) {
                        Some(edges) => {
                            let mut j: usize = 0;
                            while j < edges.len()
                                invariant
                                    adj == graph.adjacency(),
                                    well_formed(targets(adj)),
                                    n == adj.len(),
                                    d@.len() == n,
                                    p@.len() == n,
                                    vert < n,
                                    edges@ == adj[vert as int],
                                    j <= edges@.len(),
                                    cost == d@[vert as int],
                                    relaxing(
                                        adj,
                                        start,
                                        queue@.to_multiset(),
                                        d@,
                                        p@,
                                        vert,
                                        j as int,
                                    ),
                                    total(d@) <= total_before,
                                    total(d@) == total_before ==> queue@.len() == before.len() - 1,
                                decreases edges@.len() - j,
                            {
                                let target: usize = edges[j].0;
                                let weight: u32 = edges[j].1;
                                proof {
                                    lemma_edge_at(adj, vert, j as int);
                                }
                                let lower: u64 = cost as u64 + weight as u64;
                                if lower < d[target] as u64 {
                                    let ghost entries = queue@.to_multiset();
                                    let ghost dist = d@;
                                    let ghost pred = p@;
                                    let lower: u32 = lower as u32;
                                    d[target] = lower;
                                    p[target] = Some(vert);
                                    queue.insert(QueueEntry(lower, target));
                                    proof {
                                        lemma_total_update(dist, target as int, lower);
                                        lemma_edge_improves(
                                            adj,
                                            start,
                                            entries,
                                            dist,
                                            pred,
                                            vert,
                                            j as int,
                                            lower,
                                        );
                                    }
                                }
                                j = j + 1;
                            }
                            proof {
                                lemma_all_edges_done(
                                    adj,
                                    start,
                                    queue@.to_multiset(),
                                    d@,
                                    p@,
                                    vert,
                                );
                            }
                        },
                        None => {},
                    }
                }
            },
        }
    }
    proof {
        vstd::seq_lib::to_multiset_len(queue@);
        lemma_search_complete(adj, start, queue@.to_multiset(), d@, p@);
    }
    Ok(Dijkstra { distances: d, predecessor: p })
}

} // verus!
