use lattice_decomp::graph::{Graph, TGraph};
use lattice_decomp::greedy::{count_nbs, solve_greedy};
use lattice_decomp::lattice::{Lattice, Neighbor};

fn covering(num_nodes: usize, patches: &[Lattice]) -> Vec<Vec<usize>> {
    let mut seen = vec![vec![0usize; num_nodes]; num_nodes];
    for patch in patches {
        assert_eq!(patch.len(), num_nodes);
        assert!(patch.validate());
        for (a, b) in patch.edges() {
            assert!(a < b);
            seen[a as usize][b as usize] += 1;
        }
    }
    seen
}

fn assert_decomposition(num_nodes: usize) -> usize {
    let patches = solve_greedy::<Graph>(num_nodes);
    let seen = covering(num_nodes, &patches);
    for a in 0..num_nodes {
        for b in (a + 1)..num_nodes {
            assert_eq!(seen[a][b], 1, "edge ({}, {}) of K_{}", a, b, num_nodes);
        }
    }
    let mut graph = Graph::new_complete(num_nodes);
    for patch in &patches {
        for (a, b) in patch.edges() {
            assert!(graph.has_edge(a, b));
            graph.remove_edge(a, b);
        }
    }
    assert!(graph.is_empty());
    let listed: usize = patches.iter().map(|p| p.edges().len()).sum();
    assert_eq!(2 * listed, num_nodes * (num_nodes - 1));
    patches.len()
}

#[test]
fn degenerate_orders_give_no_patch() {
    assert!(solve_greedy::<Graph>(0).is_empty());
    assert!(solve_greedy::<Graph>(1).is_empty());
}

#[test]
fn two_nodes_give_one_patch() {
    let patches = solve_greedy::<Graph>(2);
    assert_eq!(patches.len(), 1);
    assert_eq!(patches[0].edges(), vec![(0, 1)]);
}

#[test]
fn three_nodes_give_one_triangle() {
    let patches = solve_greedy::<Graph>(3);
    assert_eq!(patches.len(), 1);
    let mut edges = patches[0].edges();
    edges.sort();
    assert_eq!(edges, vec![(0, 1), (0, 2), (1, 2)]);
}

#[test]
fn four_nodes_end_to_end() {
    let patches = solve_greedy::<Graph>(4);
    let total: usize = patches.iter().map(|p| p.edges().len()).sum();
    assert_eq!(total, 6);
    assert_eq!(assert_decomposition(4), patches.len());
    assert_eq!(patches.len(), 2);
    assert_eq!(patches[0].edges().len(), 5);
    assert_eq!(patches[1].edges().len(), 1);
}

#[test]
fn small_orders_are_decomposed() {
    for n in 2..=12 {
        assert_decomposition(n);
    }
}

#[test]
fn order_nineteen_is_decomposed() {
    assert_decomposition(19);
}

#[test]
fn decomposition_is_repeatable() {
    for n in [4usize, 7, 11] {
        let one = solve_greedy::<Graph>(n);
        let two = solve_greedy::<Graph>(n);
        assert_eq!(one.len(), two.len());
        for (p, q) in one.iter().zip(two.iter()) {
            for id in 0..n as u32 {
                assert_eq!(p.neighbors_with_dirs(id), q.neighbors_with_dirs(id));
            }
        }
    }
}

#[test]
fn count_nbs_counts_taken_slots() {
    let mut nbs = [Neighbor::default(); 6];
    assert_eq!(count_nbs(&nbs), 0);
    nbs[1].put(4);
    nbs[4].put(0);
    assert_eq!(count_nbs(&nbs), 2);
    nbs[4].clear();
    assert_eq!(count_nbs(&nbs), 1);
}

#[test]
fn verify_accepts_what_solve_greedy_gives() {
    for n in [0usize, 1, 2, 3, 4, 9, 19] {
        let patches = solve_greedy::<Graph>(n);
        assert!(lattice_decomp::greedy::verify(n, &patches));
    }
}

#[test]
fn verify_rejects_a_missing_edge() {
    assert!(!lattice_decomp::greedy::verify(4, &Vec::new()));
    let mut patch = Lattice::new(3);
    patch.insert(0, lattice_decomp::lattice::Direction::RIGHT, 1);
    assert!(!lattice_decomp::greedy::verify(3, &vec![patch.clone()]));
    patch.insert(1, lattice_decomp::lattice::Direction::RIGHT, 2);
    assert!(!lattice_decomp::greedy::verify(3, &vec![patch.clone()]));
    let mut other = Lattice::new(3);
    other.insert(2, lattice_decomp::lattice::Direction::LEFT, 0);
    assert!(lattice_decomp::greedy::verify(3, &vec![patch, other]));
    assert!(lattice_decomp::greedy::verify(1, &Vec::new()));
}

#[test]
fn seven_nodes_in_three_patches() {
    let patches = solve_greedy::<Graph>(7);
    let sizes: Vec<usize> = patches.iter().map(|p| p.edges().len()).collect();
    assert_eq!(sizes, vec![12, 6, 3]);
}

#[test]
fn graph_can_be_cloned() {
    let mut graph = Graph::new_complete(3);
    let copy = graph.clone();
    graph.remove_edge(0, 2);
    assert!(copy.has_edge(0, 2));
    assert!(!graph.has_edge(2, 0));
}
