use algorithms_and_datastructures::graph::dijkstra::{dijkstra, StartOutOfRange, UNREACHED};
use algorithms_and_datastructures::graph::structure::{
    Directed, WeightedAdjacencyList, WeightedAdjacencyStructure,
};

#[test]
fn dijkstra_simple() {
    let mut graph = WeightedAdjacencyList::<Directed>::default();

    for _i in 0..10 {
        graph.insert_vertex();
    }

    graph.insert_edge(0, 1, 2);
    graph.insert_edge(0, 2, 1);
    graph.insert_edge(1, 5, 2);
    graph.insert_edge(2, 5, 4);
    graph.insert_edge(5, 6, 1);
    graph.insert_edge(5, 8, 4);
    graph.insert_edge(6, 9, 3);
    graph.insert_edge(8, 9, 1);
    graph.insert_edge(9, 7, 0);

    let output = dijkstra(&graph, 0).unwrap();

    let expect_distances = vec![0, 2, 1, u32::MAX, u32::MAX, 4, 5, 8, 8, 8];
    let expect_predecessors = vec![
        None,
        Some(0),
        Some(0),
        None,
        None,
        Some(1),
        Some(5),
        Some(9),
        Some(5),
        Some(6),
    ];

    assert_eq!(expect_predecessors.len(), output.predecessor.len());
    assert_eq!(expect_distances.len(), output.distances.len());

    for ((idx, expected), actual) in expect_predecessors
        .iter()
        .enumerate()
        .zip(output.predecessor.iter())
    {
        assert_eq!(expected, actual, "Predecessor of vertex {}", idx);
    }

    for ((idx, expected), actual) in expect_distances
        .iter()
        .enumerate()
        .zip(output.distances.iter())
    {
        assert_eq!(expected, actual, "Shortest path to vertex {}", idx);
    }
}

#[test]
fn start_must_be_a_vertex() {
    let mut graph = WeightedAdjacencyList::<Directed>::default();
    assert_eq!(
        dijkstra(&graph, 0).err(),
        Some(StartOutOfRange { start: 0, vertices: 0 })
    );
    graph.insert_vertex();
    graph.insert_vertex();
    assert_eq!(
        dijkstra(&graph, 2).err(),
        Some(StartOutOfRange { start: 2, vertices: 2 })
    );
    assert_eq!(
        dijkstra(&graph, usize::MAX).err(),
        Some(StartOutOfRange { start: usize::MAX, vertices: 2 })
    );
    assert!(dijkstra(&graph, 1).is_ok());
}

#[test]
fn unreached_vertices_keep_the_sentinel() {
    let mut graph = WeightedAdjacencyList::<Directed>::default();
    for _ in 0..4 {
        graph.insert_vertex();
    }
    graph.insert_edge(0, 1, 3);
    graph.insert_edge(2, 0, 1);
    graph.insert_edge(2, 3, 1);
    let found = dijkstra(&graph, 0).unwrap();
    assert_eq!(found.distances, vec![0, 3, UNREACHED, UNREACHED]);
    assert_eq!(found.predecessor, vec![None, Some(0), None, None]);
    assert_eq!(UNREACHED, u32::MAX);

    let found = dijkstra(&graph, 3).unwrap();
    assert_eq!(found.distances, vec![UNREACHED, UNREACHED, UNREACHED, 0]);
    assert_eq!(found.predecessor, vec![None, None, None, None]);
}

#[test]
fn a_later_cheaper_path_replaces_an_earlier_one() {
    // 0 -> 1 directly costs 10, by way of 2 and 3 it costs 3; vertex 1 is in
    // the queue twice, and the entry with 10 is skipped when it comes out.
    let mut graph = WeightedAdjacencyList::<Directed>::default();
    for _ in 0..5 {
        graph.insert_vertex();
    }
    graph.insert_edge(0, 1, 10);
    graph.insert_edge(0, 2, 1);
    graph.insert_edge(2, 3, 1);
    graph.insert_edge(3, 1, 1);
    graph.insert_edge(1, 4, 5);
    graph.insert_edge(1, 0, 0);
    let found = dijkstra(&graph, 0).unwrap();
    assert_eq!(found.distances, vec![0, 3, 1, 2, 8]);
    assert_eq!(found.predecessor, vec![None, Some(3), Some(0), Some(2), Some(1)]);
}

#[test]
fn distances_count_up_to_the_sentinel() {
    let mut graph = WeightedAdjacencyList::<Directed>::default();
    for _ in 0..4 {
        graph.insert_vertex();
    }
    graph.insert_edge(0, 1, u32::MAX - 1);
    graph.insert_edge(1, 2, 1);
    graph.insert_edge(1, 3, 0);
    graph.insert_edge(0, 2, u32::MAX);
    let found = dijkstra(&graph, 0).unwrap();
    assert_eq!(found.distances, vec![0, u32::MAX - 1, UNREACHED, u32::MAX - 1]);
    assert_eq!(found.predecessor, vec![None, Some(0), None, Some(1)]);
}

#[test]
fn edges_of_weight_zero_in_a_cycle() {
    let mut graph = WeightedAdjacencyList::<Directed>::default();
    for _ in 0..3 {
        graph.insert_vertex();
    }
    graph.insert_edge(0, 1, 0);
    graph.insert_edge(1, 2, 0);
    graph.insert_edge(2, 0, 0);
    let found = dijkstra(&graph, 1).unwrap();
    assert_eq!(found.distances, vec![0, 0, 0]);
    assert_eq!(found.predecessor, vec![Some(2), None, Some(1)]);
}
