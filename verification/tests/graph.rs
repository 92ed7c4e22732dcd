use fixedbitset::FixedBitSet;
use lattice_decomp::graph::{Graph, TGraph};

#[test]
fn test_complete_graph_creation() {
    let graph = Graph::new_complete(4);
    assert_eq!(graph.num_edges(), 6);
    for i in 0..4 {
        for j in 0..4 {
            if i != j {
                assert!(graph.has_edge(i, j));
            } else {
                assert!(!graph.has_edge(i, j));
            }
        }
    }
}

#[test]
fn test_edge_removal() {
    let mut graph = Graph::new_complete(3);
    assert_eq!(graph.num_edges(), 3);
    graph.remove_edge(0, 1);
    assert_eq!(graph.num_edges(), 2);
    assert!(!graph.has_edge(0, 1));
    assert!(!graph.has_edge(1, 0));
    assert!(graph.has_edge(0, 2));
    assert!(graph.has_edge(1, 2));
}

#[test]
fn test_valence_calculation() {
    let graph = Graph::new_complete(4);
    for i in 0..4 {
        assert_eq!(graph.valence(i), 3);
    }
}

#[test]
fn test_find_candidates() {
    let graph = Graph::new_complete(4);
    let mut candidates = FixedBitSet::with_capacity(4);
    graph.find_candidates(&[], &mut candidates);
    assert_eq!(candidates.count_ones(..), 4);
    graph.find_candidates(&[0], &mut candidates);
    let result: Vec<usize> = candidates.ones().collect();
    assert_eq!(result, vec![1, 2, 3]);
    graph.find_candidates(&[0, 1], &mut candidates);
    let result: Vec<usize> = candidates.ones().collect();
    assert_eq!(result, vec![2, 3]);
}

#[test]
fn test_is_empty() {
    let mut graph = Graph::new_complete(2);
    assert!(!graph.is_empty());
    graph.remove_edge(0, 1);
    assert!(graph.is_empty());
}

#[test]
fn find_candidates_into_a_longer_buffer() {
    let graph = Graph::new_complete(3);
    let mut candidates = FixedBitSet::with_capacity(10);
    candidates.insert_range(..);
    graph.find_candidates(&[], &mut candidates);
    let result: Vec<usize> = candidates.ones().collect();
    assert_eq!(result, vec![0, 1, 2]);
    graph.find_candidates(&[1, 1], &mut candidates);
    let result: Vec<usize> = candidates.ones().collect();
    assert_eq!(result, vec![0, 2]);
    assert_eq!(candidates.len(), 3);
}

#[test]
fn find_candidates_after_removal() {
    let mut graph = Graph::new_complete(5);
    graph.remove_edge(0, 3);
    graph.remove_edge(1, 4);
    graph.remove_edge(1, 4);
    let mut candidates = FixedBitSet::with_capacity(0);
    graph.find_candidates(&[0, 1], &mut candidates);
    let result: Vec<usize> = candidates.ones().collect();
    assert_eq!(result, vec![2]);
    assert_eq!(graph.valence(1), 3);
    assert_eq!(graph.valence(2), 4);
    assert_eq!(graph.num_edges(), 8);
    assert_eq!(graph.num_nodes(), 5);
}

#[test]
fn graphs_without_nodes_or_edges() {
    let graph = Graph::new_complete(0);
    assert!(graph.is_empty());
    assert_eq!(graph.num_edges(), 0);
    let graph = Graph::new_complete(1);
    assert!(graph.is_empty());
    assert!(!graph.has_edge(0, 0));
    assert!(!graph.has_edge(0, 5));
}

#[test]
fn find_candidates_into_a_buffer_with_stray_bits() {
    let graph = Graph::new_complete(3);
    let mut candidates = FixedBitSet::with_capacity_and_blocks(1, vec![!0usize]);
    assert!(candidates.contains(0));
    assert!(!candidates.contains(2));
    graph.find_candidates(&[], &mut candidates);
    let result: Vec<usize> = candidates.ones().collect();
    assert_eq!(result, vec![0, 1, 2]);
    let mut candidates = FixedBitSet::with_capacity_and_blocks(1, vec![!0usize]);
    graph.find_candidates(&[2], &mut candidates);
    let result: Vec<usize> = candidates.ones().collect();
    assert_eq!(result, vec![0, 1]);
    assert_eq!(candidates.len(), 3);
}
