use lattice_decomp::lattice::Neighbor;

#[test]
fn t_neighbor_put_get() {
    let values = [0, 1, 42, 1000, u32::MAX / 2, u32::MAX - 1];
    for &id in &values {
        let mut neighbor = Neighbor::default();
        assert!(!neighbor.get().is_some());
        neighbor.put(id);
        assert_eq!(neighbor.get(), Some(id));
    }
}

#[test]
fn t_neighbor_max_value_edge_case() {
    let mut neighbor = Neighbor::default();
    neighbor.put(u32::MAX);
    assert!(neighbor.get().is_none());
}

#[test]
fn t_neighbor_overwrite() {
    let mut neighbor = Neighbor::default();
    neighbor.put(42);
    assert_eq!(neighbor.get(), Some(42));
    neighbor.put(0);
    assert_eq!(neighbor.get(), Some(0));
}

#[test]
fn t_neighbor_clear() {
    let mut neighbor = Neighbor::empty();
    assert_eq!(neighbor.get(), None);
    neighbor.put(7);
    neighbor.clear();
    assert_eq!(neighbor.get(), None);
}
