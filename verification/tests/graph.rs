use algorithms_and_datastructures::graph::structure::{
    AdjacencyList, AdjacencyStructure, Directed, Graph, WeightedAdjacencyList,
    WeightedAdjacencyStructure,
};

#[test]
fn graph_adjacency_list_directed() {
    let mut list = AdjacencyList::<Directed>::new();

    for _ in 0..10 {
        list.insert_vertex();
    }

    assert!(list.insert_edge(0, 1));
    assert!(!list.insert_edge(0, 1));
    assert!(list.contains_edge(0, 1));

    assert!(list.insert_edge(0, 2));
    assert!(!list.insert_edge(0, 2));
    assert!(list.contains_edge(0, 2));

    assert!(list.remove_edge(0, 1));
    assert!(!list.remove_edge(0, 1));
    assert!(!list.contains_edge(0, 1));

    assert!(list.remove_edge(0, 2));
    assert!(!list.remove_edge(0, 2));
    assert!(!list.contains_edge(0, 2));
}

#[test]
fn graph() {
    let list = AdjacencyList::<Directed>::new();
    let mut graph = Graph::with_adjacency_structure(list);

    graph.insert_vertex();

    assert!(graph.contains_vertex(0));
}

#[test]
fn structure_adjacency_list_directed() {
    let mut list = AdjacencyList::<Directed>::new();

    for _ in 0..10 {
        list.insert_vertex();
    }

    // insert edge to same vertex should fail
    assert!(!list.insert_edge(0, 0));

    assert!(list.insert_edge(0, 1));
    assert!(!list.insert_edge(0, 1));
    assert!(list.contains_edge(0, 1));

    assert!(list.insert_edge(0, 2));
    assert!(!list.insert_edge(0, 2));
    assert!(list.contains_edge(0, 2));

    assert!(list.remove_edge(0, 1));
    assert!(!list.remove_edge(0, 1));
    assert!(!list.contains_edge(0, 1));

    assert!(list.remove_edge(0, 2));
    assert!(!list.remove_edge(0, 2));
    assert!(!list.contains_edge(0, 2));

    let mut list = AdjacencyList::<Directed>::new();

    for _ in 0..10 {
        list.insert_vertex();
    }
    // Connect the last vertex and the first to every other vertex
    for i in 1..9 {
        list.insert_edge(0, i);
        list.insert_edge(i, 9);
    }

    for i in 1..9 {
        assert!(list.contains_edge(0, i));
        assert!(list.contains_edge(i, 9));
    }

    list.insert_edge(0, 9);
    assert!(list.contains_edge(0, 9));

    // remove 9. now check whether all related edges got removed too.
    list.remove_vertex();

    for i in 0..9 {
        assert!(!list.contains_edge(i, 9));
    }
}

#[test]
fn weighted_adjacency_list() {
    let mut list = WeightedAdjacencyList::<Directed>::default();

    list.insert_vertex();
    list.insert_vertex();

    assert_eq!(None, list.adjacency_iter(0).unwrap().into_iter().next());

    list.insert_edge(0, 1, 4);

    assert_eq!(Some(4), list.get_weight(0, 1));

    let mut iter = list.adjacency_iter(0).unwrap().into_iter().map(|edge| edge.0);

    assert_eq!(Some(1), iter.next());
    assert_eq!(None, iter.next());
}

#[test]
fn new_graph_has_no_vertices() {
    let mut graph: Graph<Directed, AdjacencyList<Directed>> = Graph::new();
    assert!(!graph.contains_vertex(0));
    assert_eq!(None, graph.adjacency_iter(0));
    assert_eq!(None, graph.remove_vertex());
    assert_eq!(0, graph.insert_vertex());
    assert_eq!(1, graph.insert_vertex());
    assert!(graph.contains_vertex(1));
    assert!(!graph.contains_vertex(2));

    let list: AdjacencyList<Directed> = Default::default();
    assert!(!list.contains_vertex(0));
    let list = <AdjacencyList<Directed> as AdjacencyStructure<Directed>>::empty();
    assert!(!list.contains_vertex(0));
}

#[test]
fn inserted_edge_has_one_direction() {
    let mut list = AdjacencyList::<Directed>::new();
    list.insert_vertex();
    list.insert_vertex();
    assert!(list.insert_edge(0, 1));
    assert!(list.contains_edge(0, 1));
    assert!(!list.contains_edge(1, 0));
    assert!(list.insert_edge(1, 0));
    assert!(list.contains_edge(1, 0));
}

#[test]
fn rejected_edges_change_nothing() {
    let mut list = AdjacencyList::<Directed>::new();
    for _ in 0..3 {
        list.insert_vertex();
    }
    assert!(list.insert_edge(0, 1));
    assert!(list.insert_edge(0, 2));
    let before: Vec<Option<Vec<usize>>> = (0..4).map(|v| list.adjacency_iter(v)).collect();

    // self-loops
    for v in 0..4 {
        assert!(!list.insert_edge(v, v));
    }
    // present already
    assert!(!list.insert_edge(0, 1));
    // vertices that do not exist
    assert!(!list.insert_edge(0, 3));
    assert!(!list.insert_edge(3, 0));
    assert!(!list.insert_edge(7, 8));
    // absent edges
    assert!(!list.remove_edge(1, 0));
    assert!(!list.remove_edge(3, 0));
    assert!(!list.remove_edge(0, 3));

    let after: Vec<Option<Vec<usize>>> = (0..4).map(|v| list.adjacency_iter(v)).collect();
    assert_eq!(before, after);
    assert_eq!(after[0], Some(vec![1, 2]));
    assert_eq!(after[1], Some(vec![]));
    assert_eq!(after[3], None);
    assert!(!list.contains_edge(3, 0));
    assert!(!list.contains_edge(0, 3));
}

#[test]
fn removed_edge_gives_its_place_to_the_last() {
    let mut list = AdjacencyList::<Directed>::new();
    for _ in 0..5 {
        list.insert_vertex();
    }
    for target in 1..5 {
        assert!(list.insert_edge(0, target));
    }
    assert_eq!(list.adjacency_iter(0), Some(vec![1, 2, 3, 4]));
    assert!(list.remove_edge(0, 2));
    assert_eq!(list.adjacency_iter(0), Some(vec![1, 4, 3]));
    assert!(list.remove_edge(0, 3));
    assert_eq!(list.adjacency_iter(0), Some(vec![1, 4]));
    assert!(list.insert_edge(0, 2));
    assert_eq!(list.adjacency_iter(0), Some(vec![1, 4, 2]));
}

#[test]
fn vertices_leave_highest_first() {
    let mut list = AdjacencyList::<Directed>::new();
    assert_eq!(None, list.remove_vertex());
    assert_eq!(0, list.insert_vertex());
    assert_eq!(1, list.insert_vertex());
    assert_eq!(2, list.insert_vertex());
    assert!(list.insert_edge(0, 2));
    assert!(list.insert_edge(0, 1));
    assert!(list.insert_edge(1, 2));
    assert!(list.insert_edge(2, 0));
    assert_eq!(Some(2), list.remove_vertex());
    assert!(!list.contains_vertex(2));
    assert_eq!(list.adjacency_iter(0), Some(vec![1]));
    assert_eq!(list.adjacency_iter(1), Some(vec![]));
    assert_eq!(list.adjacency_iter(2), None);
    assert_eq!(2, list.insert_vertex());
    assert!(!list.contains_edge(0, 2));
    assert!(!list.contains_edge(2, 0));
    assert_eq!(Some(2), list.remove_vertex());
    assert_eq!(Some(1), list.remove_vertex());
    assert_eq!(Some(0), list.remove_vertex());
    assert_eq!(None, list.remove_vertex());
}

#[test]
fn adjacency_iter_can_be_asked_again() {
    let mut list = AdjacencyList::<Directed>::new();
    for _ in 0..4 {
        list.insert_vertex();
    }
    list.insert_edge(1, 3);
    list.insert_edge(1, 0);
    list.insert_edge(1, 2);
    let first = list.adjacency_iter(1);
    let second = list.adjacency_iter(1);
    assert_eq!(first, second);
    assert_eq!(first, Some(vec![3, 0, 2]));

    let mut weighted = WeightedAdjacencyList::<Directed>::default();
    for _ in 0..4 {
        weighted.insert_vertex();
    }
    weighted.insert_edge(1, 3, 7);
    weighted.insert_edge(1, 0, 0);
    let first = weighted.adjacency_iter(1);
    let second = weighted.adjacency_iter(1);
    assert_eq!(first, second);
    assert_eq!(first, Some(vec![(3, 7), (0, 0)]));
    assert_eq!(weighted.adjacency_iter(4), None);
}

#[test]
fn weights_stay_beside_their_edges() {
    let mut list = WeightedAdjacencyList::<Directed>::default();
    assert_eq!(0, list.count_vertices());
    for id in 0..5 {
        assert_eq!(id, list.insert_vertex());
    }
    assert_eq!(5, list.count_vertices());
    assert!(list.insert_edge(0, 4, 40));
    assert!(list.insert_edge(0, 1, 10));
    assert!(list.insert_edge(0, 2, 20));
    assert!(list.insert_edge(0, 3, 30));
    assert!(list.insert_edge(1, 4, 14));
    assert!(list.insert_edge(4, 0, 5));
    assert!(!list.insert_edge(0, 1, 99));
    assert!(!list.insert_edge(2, 2, 1));
    assert!(!list.insert_edge(0, 5, 1));
    assert!(!list.insert_edge(5, 0, 1));
    assert_eq!(Some(10), list.get_weight(0, 1));
    assert_eq!(None, list.get_weight(1, 0));
    assert_eq!(None, list.get_weight(5, 0));
    assert!(list.contains_edge(0, 1));
    assert!(!list.contains_edge(1, 0));

    assert!(list.remove_edge(0, 1));
    assert!(!list.remove_edge(0, 1));
    assert!(!list.remove_edge(9, 1));
    assert_eq!(list.adjacency_iter(0), Some(vec![(4, 40), (3, 30), (2, 20)]));
    assert_eq!(None, list.get_weight(0, 1));
    assert_eq!(Some(30), list.get_weight(0, 3));

    assert_eq!(Some(4), list.remove_vertex());
    assert_eq!(list.adjacency_iter(0), Some(vec![(3, 30), (2, 20)]));
    assert_eq!(list.adjacency_iter(1), Some(vec![]));
    assert_eq!(list.adjacency_iter(4), None);
    assert!(!list.contains_vertex(4));
    assert!(list.contains_vertex(3));
    assert_eq!(Some(20), list.get_weight(0, 2));
    assert_eq!(None, list.get_weight(0, 4));
    assert_eq!(4, list.count_vertices());

    for id in (0..4).rev() {
        assert_eq!(Some(id), list.remove_vertex());
    }
    assert_eq!(None, list.remove_vertex());
    assert_eq!(0, list.count_vertices());
}
