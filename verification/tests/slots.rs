use lattice_decomp::lattice::Direction::{BOTTOM_LEFT, BOTTOM_RIGHT, LEFT, RIGHT, TOP_LEFT, TOP_RIGHT};
use lattice_decomp::lattice::{Direction, Lattice, Neighbor};

fn ring(entries: &[(Direction, u32)]) -> Vec<Option<u32>> {
    let mut r = vec![None; 6];
    for (d, id) in entries {
        r[d.ordinal()] = Some(*id);
    }
    r
}

fn listed(lattice: &Lattice) -> Vec<(u32, Direction, Vec<Option<u32>>)> {
    let mut visited = vec![true; 2];
    let mut out = vec![(9, Direction::LEFT, [Neighbor::default(); 6])];
    lattice.empty_slots(&mut visited, &mut out);
    assert_eq!(visited.len(), lattice.len());
    out.iter()
        .map(|(a, d, r)| (*a, *d, r.iter().map(|n| n.get()).collect()))
        .collect()
}

#[test]
fn empty_lattice_has_no_open_position() {
    let lattice = Lattice::new(3);
    let mut visited = Vec::new();
    let mut out = Vec::new();
    lattice.empty_slots(&mut visited, &mut out);
    assert!(out.is_empty());
    assert_eq!(visited, vec![false, false, false]);
}

#[test]
fn open_positions_round_two_nodes() {
    let mut lattice = Lattice::new(3);
    lattice.insert(0, Direction::RIGHT, 1);
    let slots = listed(&lattice);
    let expected = vec![
        (0, TOP_LEFT, ring(&[(BOTTOM_RIGHT, 0)])),
        (0, LEFT, ring(&[(RIGHT, 0)])),
        (0, BOTTOM_LEFT, ring(&[(TOP_RIGHT, 0)])),
        (0, BOTTOM_RIGHT, ring(&[(TOP_LEFT, 0), (TOP_RIGHT, 1)])),
        (1, RIGHT, ring(&[(LEFT, 1)])),
        (1, TOP_RIGHT, ring(&[(BOTTOM_LEFT, 1)])),
        (1, TOP_LEFT, ring(&[(BOTTOM_RIGHT, 1), (BOTTOM_LEFT, 0)])),
        (1, BOTTOM_RIGHT, ring(&[(TOP_LEFT, 1)])),
    ];
    assert_eq!(slots, expected);
}

#[test]
fn boundary_of_a_triangle() {
    let mut lattice = Lattice::new(3);
    lattice.insert(0, Direction::RIGHT, 1);
    lattice.insert(0, Direction::TOP_RIGHT, 2);
    let mut visited = Vec::new();
    let mut out = Vec::new();
    lattice.empty_slots(&mut visited, &mut out);
    assert_eq!(visited, vec![true, true, true]);
    assert_eq!(out.len(), 9);
    let with_two = out
        .iter()
        .filter(|(_, _, r)| r.iter().filter(|n| n.get().is_some()).count() == 2)
        .count();
    assert_eq!(with_two, 3);
    for (a, d, r) in &out {
        assert_eq!(lattice.neighbor(*a, *d), None);
        assert_eq!(r[d.opposite().ordinal()].get(), Some(*a));
        assert!(lattice.ring_ok(r, *a, *d));
    }
}

#[test]
fn filling_an_open_position_links_its_ring() {
    let mut lattice = Lattice::new(5);
    lattice.insert(0, Direction::RIGHT, 1);
    lattice.insert(0, Direction::TOP_RIGHT, 2);
    lattice.insert(1, Direction::RIGHT, 3);
    let mut visited = Vec::new();
    let mut out = Vec::new();
    lattice.empty_slots(&mut visited, &mut out);
    let before = lattice.edges().len();
    for (a, d, r) in &out {
        let mut next = lattice.clone();
        next.insert(*a, *d, 4);
        let linked: Vec<Option<u32>> = (0..6)
            .map(|k| next.neighbor(4, Direction::from_ordinal(k)))
            .collect();
        let ring: Vec<Option<u32>> = r.iter().map(|n| n.get()).collect();
        assert_eq!(linked, ring);
        let taken = ring.iter().filter(|x| x.is_some()).count();
        assert_eq!(next.edges().len(), before + taken);
        assert!(next.validate());
    }
}

#[test]
fn interior_nodes_are_not_on_the_boundary() {
    let mut lattice = Lattice::new(7);
    lattice.insert(0, Direction::RIGHT, 1);
    lattice.insert(0, Direction::TOP_RIGHT, 2);
    lattice.insert(0, Direction::TOP_LEFT, 3);
    lattice.insert(0, Direction::LEFT, 4);
    lattice.insert(0, Direction::BOTTOM_LEFT, 5);
    lattice.insert(0, Direction::BOTTOM_RIGHT, 6);
    let mut visited = Vec::new();
    let mut out = Vec::new();
    lattice.empty_slots(&mut visited, &mut out);
    assert_eq!(visited, vec![false, true, true, true, true, true, true]);
    assert_eq!(out.len(), 12);
    assert!(out.iter().all(|(a, _, _)| *a != 0));
}

#[test]
fn a_closed_ring_is_reported_once() {
    let mut lattice = Lattice::new(8);
    lattice.insert(0, Direction::RIGHT, 1);
    lattice.insert(0, Direction::TOP_RIGHT, 2);
    lattice.insert(0, Direction::TOP_LEFT, 3);
    lattice.insert(0, Direction::LEFT, 4);
    lattice.insert(0, Direction::BOTTOM_LEFT, 5);
    lattice.insert(0, Direction::BOTTOM_RIGHT, 6);
    lattice.remove(0);
    let mut visited = Vec::new();
    let mut out = Vec::new();
    lattice.empty_slots(&mut visited, &mut out);
    let full: Vec<_> = out
        .iter()
        .filter(|(_, _, r)| r.iter().all(|n| n.get().is_some()))
        .collect();
    assert_eq!(full.len(), 1);
    assert_eq!((full[0].0, full[0].1), (1, Direction::LEFT));
    assert_eq!(out.len(), 13);
}

#[test]
fn ring_at_walks_both_ways() {
    let mut lattice = Lattice::new(4);
    lattice.insert(0, Direction::RIGHT, 1);
    lattice.insert(1, Direction::RIGHT, 2);
    let r = lattice.ring_at(1, Direction::TOP_RIGHT);
    let got: Vec<Option<u32>> = r.iter().map(|n| n.get()).collect();
    assert_eq!(got, ring(&[(Direction::BOTTOM_LEFT, 1), (Direction::BOTTOM_RIGHT, 2)]));
    assert!(lattice.ring_ok(&r, 1, Direction::TOP_RIGHT));
    assert!(!lattice.ring_ok(&r, 1, Direction::TOP_LEFT));
    let taken = lattice.ring_at(0, Direction::RIGHT);
    assert!(!lattice.ring_ok(&taken, 0, Direction::RIGHT));
}
