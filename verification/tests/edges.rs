use lattice_decomp::lattice::{Direction, Lattice};

#[test]
fn t_edges_empty_lattice() {
    let lattice = Lattice::new(5);
    let edges: Vec<_> = lattice.edges();
    assert!(edges.is_empty(), "Empty lattice should have no edges");
}

#[test]
fn t_edges_single_edge() {
    let mut lattice = Lattice::new(2);
    lattice.insert(0, Direction::RIGHT, 1);
    let edges: Vec<_> = lattice.edges();
    assert_eq!(edges.len(), 1, "Single connection should produce one edge");
    assert_eq!(edges[0], (0, 1), "Edge should be (0, 1)");
}

#[test]
fn t_edges_triangle() {
    let mut lattice = Lattice::new(3);
    lattice.insert(0, Direction::RIGHT, 1);
    lattice.insert(0, Direction::TOP_RIGHT, 2);
    let mut edges: Vec<_> = lattice.edges();
    edges.sort();
    assert_eq!(edges.len(), 3, "Triangle should have 3 edges");
    assert_eq!(
        edges,
        vec![(0, 1), (0, 2), (1, 2)],
        "Triangle edges should be (0,1), (0,2), (1,2)"
    );
}

#[test]
fn t_edges_linear_chain() {
    let mut lattice = Lattice::new(4);
    lattice.insert(0, Direction::RIGHT, 1);
    lattice.insert(1, Direction::RIGHT, 2);
    lattice.insert(2, Direction::RIGHT, 3);
    let mut edges: Vec<_> = lattice.edges();
    edges.sort();
    assert_eq!(
        edges.len(),
        3,
        "Linear chain of 4 nodes should have 3 edges"
    );
    assert_eq!(
        edges,
        vec![(0, 1), (1, 2), (2, 3)],
        "Chain edges should be consecutive"
    );
}

#[test]
fn t_edges_disjoint_components() {
    let mut lattice = Lattice::new(6);
    lattice.insert(0, Direction::RIGHT, 1);
    lattice.insert(0, Direction::TOP_RIGHT, 2);
    lattice.insert(3, Direction::RIGHT, 4);
    lattice.insert(5, Direction::RIGHT, 5);
    let mut edges: Vec<_> = lattice.edges();
    edges.sort();
    assert_eq!(edges.len(), 4, "Two components should have 4 total edges");
    assert_eq!(
        edges,
        vec![(0, 1), (0, 2), (1, 2), (3, 4)],
        "Edges from all components"
    );
}

#[test]
fn t_edges_star_pattern() {
    let mut lattice = Lattice::new(7);
    lattice.insert(0, Direction::RIGHT, 1);
    lattice.insert(0, Direction::TOP_RIGHT, 2);
    lattice.insert(0, Direction::TOP_LEFT, 3);
    lattice.insert(0, Direction::LEFT, 4);
    lattice.insert(0, Direction::BOTTOM_LEFT, 5);
    lattice.insert(0, Direction::BOTTOM_RIGHT, 6);
    let mut edges: Vec<_> = lattice.edges();
    edges.sort();
    let expected = vec![
        (0, 1),
        (0, 2),
        (0, 3),
        (0, 4),
        (0, 5),
        (0, 6),
        (1, 2),
        (1, 6),
        (2, 3),
        (3, 4),
        (4, 5),
        (5, 6),
    ];
    assert_eq!(
        edges.len(),
        12,
        "Star pattern creates a hexagon with 12 edges"
    );
    assert_eq!(
        edges, expected,
        "Should have center edges plus perimeter connections"
    );
}

#[test]
fn t_edges_no_duplicates() {
    let mut lattice = Lattice::new(3);
    lattice.insert(0, Direction::RIGHT, 1);
    lattice.insert(1, Direction::LEFT, 0);
    let edges: Vec<_> = lattice.edges();
    assert_eq!(
        edges.len(),
        1,
        "Bidirectional connection should only produce one edge"
    );
    assert_eq!(
        edges[0],
        (0, 1),
        "Edge should be in canonical form (smaller, larger)"
    );
}

#[test]
fn t_edges_canonical_order() {
    let mut lattice = Lattice::new(5);
    lattice.insert(4, Direction::RIGHT, 1);
    lattice.insert(3, Direction::RIGHT, 0);
    lattice.insert(2, Direction::RIGHT, 2);

    let mut edges: Vec<_> = lattice.edges();
    edges.sort();

    for &(a, b) in &edges {
        assert!(a < b, "Edge ({}, {}) should have smaller ID first", a, b);
    }

    assert_eq!(edges, vec![(0, 3), (1, 4)], "Edges in canonical order");
}

#[test]
fn t_edges_complex_pattern() {
    let mut lattice = Lattice::new(6);
    lattice.insert(0, Direction::RIGHT, 1);
    lattice.insert(0, Direction::TOP_RIGHT, 2);
    lattice.insert(3, Direction::RIGHT, 4);
    lattice.insert(4, Direction::RIGHT, 5);

    let mut edges: Vec<_> = lattice.edges();
    edges.sort();
    let expected = vec![(0, 1), (0, 2), (1, 2), (3, 4), (4, 5)];
    assert_eq!(
        edges.len(),
        expected.len(),
        "Triangle plus chain should have 5 edges"
    );
    assert_eq!(
        edges, expected,
        "Should have triangle edges plus chain edges"
    );
}

#[test]
fn t_edges_after_removal() {
    let mut lattice = Lattice::new(4);
    lattice.insert(0, Direction::RIGHT, 1);
    lattice.insert(1, Direction::RIGHT, 2);
    lattice.insert(2, Direction::RIGHT, 3);
    lattice.remove(1);
    let mut edges: Vec<_> = lattice.edges();
    edges.sort();
    assert_eq!(
        edges.len(),
        1,
        "After removing middle node, should have 1 edge left"
    );
    assert_eq!(edges[0], (2, 3), "Remaining edge should be (2, 3)");
}

#[test]
fn t_edges_sparse_ids() {
    let mut lattice = Lattice::new(10);
    lattice.insert(1, Direction::RIGHT, 3);
    lattice.insert(5, Direction::RIGHT, 7);
    lattice.insert(8, Direction::RIGHT, 9);
    let mut edges: Vec<_> = lattice.edges();
    edges.sort();
    assert_eq!(edges.len(), 3, "Three separate edges with sparse IDs");
    assert_eq!(
        edges,
        vec![(1, 3), (5, 7), (8, 9)],
        "Edges should use actual sparse node IDs"
    );
}
