use nnsearch::graph::{DistanceCache, GraphOperator, NavigableSmallWorldGraph, VectorNode};
use nnsearch::linalg::distance::DistanceType;

#[test]
fn test_nsw() {
    // pass
}

fn fresh_graph(seed: u64) -> NavigableSmallWorldGraph {
    NavigableSmallWorldGraph {
        trial: 3,
        min_degree: 2,
        id2adjacency_ids: vec![],
        id2node: vec![],
        distance: DistanceType::EUCLIDEAN,
        seed,
    }
}

#[test]
fn test_first_node_has_no_edges() {
    let mut graph = fresh_graph(46);
    graph
        .add_node(VectorNode { id: 0, vec: vec![1, 2] })
        .unwrap();
    assert_eq!(graph.id2node.len(), 1);
    assert_eq!(graph.id2node[0].id, 0);
    assert_eq!(graph.id2adjacency_ids, vec![Vec::<usize>::new()]);
}

#[test]
fn test_edges_are_bidirectional() {
    let mut graph = fresh_graph(46);
    graph
        .add_node(VectorNode { id: 0, vec: vec![1, 2] })
        .unwrap();
    graph
        .add_node(VectorNode { id: 1, vec: vec![1, 3] })
        .unwrap();
    assert_eq!(graph.id2adjacency_ids[1], vec![0]);
    assert_eq!(graph.id2adjacency_ids[0], vec![1]);
}

#[test]
fn test_insert_sequence_is_deterministic_for_a_fixed_seed() {
    let data: Vec<Vec<i32>> = vec![
        vec![1, 2],
        vec![1, 3],
        vec![9, 0],
        vec![2, 2],
        vec![7, 7],
        vec![0, 0],
    ];
    let mut g1 = fresh_graph(46);
    let mut g2 = fresh_graph(46);
    for v in &data {
        let node1 = VectorNode { id: g1.len(), vec: v.clone() };
        g1.add_node(node1).unwrap();
        let node2 = VectorNode { id: g2.len(), vec: v.clone() };
        g2.add_node(node2).unwrap();
    }
    assert_eq!(g1.id2adjacency_ids, g2.id2adjacency_ids);
}

#[test]
fn test_distance_cache_is_idempotent() {
    let mut cache = DistanceCache::new(3);
    let query = VectorNode { id: usize::MAX, vec: vec![0, 0] };
    let target = VectorNode { id: 1, vec: vec![3, 4] };
    let first = cache.get_distance(DistanceType::EUCLIDEAN, &query, &target);
    assert_eq!(first, 25);
    let snapshot = cache.cache.clone();
    let second = cache.get_distance(DistanceType::EUCLIDEAN, &query, &target);
    assert_eq!(second, first);
    assert_eq!(cache.cache, snapshot);
}

#[test]
fn test_get_node_absent_id() {
    let mut graph = fresh_graph(46);
    graph
        .add_node(VectorNode { id: 0, vec: vec![1, 2] })
        .unwrap();
    assert!(graph.get_node(&0).is_some());
    assert!(graph.get_node(&1).is_none());
    assert!(!graph.is_empty());
    assert_eq!(graph.len(), 1);
}
