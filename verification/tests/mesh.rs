use lattice_decomp::direction::Direction;
use lattice_decomp::lattice::Lattice;

fn triangle() -> Lattice {
    let mut lattice = Lattice::new(3);
    lattice.insert(0, Direction::RIGHT, 1);
    lattice.insert(0, Direction::TOP_RIGHT, 2);
    lattice
}

fn star() -> Lattice {
    let mut lattice = Lattice::new(8);
    lattice.insert(0, Direction::RIGHT, 1);
    lattice.insert(0, Direction::TOP_RIGHT, 2);
    lattice.insert(0, Direction::TOP_LEFT, 3);
    lattice.insert(0, Direction::LEFT, 4);
    lattice.insert(0, Direction::BOTTOM_LEFT, 5);
    lattice.insert(0, Direction::BOTTOM_RIGHT, 6);
    lattice
}

#[test]
fn new_lattice_is_empty() {
    let lattice = Lattice::new(4);
    assert_eq!(lattice.len(), 4);
    for id in 0..4 {
        assert!(!lattice.contains(id));
        assert!(lattice.neighbors(id).is_empty());
    }
    assert!(Lattice::new(0).edges().is_empty());
    assert!(Lattice::new(0).validate());
}

#[test]
fn insert_links_both_ways() {
    let mut lattice = Lattice::new(2);
    lattice.insert(0, Direction::TOP_LEFT, 1);
    assert_eq!(lattice.neighbor(0, Direction::TOP_LEFT), Some(1));
    assert_eq!(lattice.neighbor(1, Direction::BOTTOM_RIGHT), Some(0));
    assert_eq!(lattice.neighbor(0, Direction::RIGHT), None);
    assert!(lattice.contains(0));
    assert!(lattice.contains(1));
    assert!(lattice.validate());
}

#[test]
fn insert_closes_the_triangle() {
    let lattice = triangle();
    assert_eq!(lattice.neighbor(1, Direction::TOP_LEFT), Some(2));
    assert_eq!(lattice.neighbor(2, Direction::BOTTOM_RIGHT), Some(1));
    assert_eq!(lattice.neighbors(0), vec![1, 2]);
    assert_eq!(lattice.neighbors(1), vec![2, 0]);
    assert_eq!(lattice.neighbors(2), vec![0, 1]);
    assert_eq!(
        lattice.neighbors_with_dirs(2),
        vec![(0, Direction::BOTTOM_LEFT), (1, Direction::BOTTOM_RIGHT)]
    );
}

#[test]
fn insert_on_an_occupied_slot_evicts() {
    let mut lattice = Lattice::new(4);
    lattice.insert(0, Direction::RIGHT, 1);
    lattice.insert(0, Direction::TOP_RIGHT, 2);
    lattice.insert(0, Direction::RIGHT, 3);
    assert!(!lattice.contains(1));
    assert!(lattice.neighbors(1).is_empty());
    assert_eq!(lattice.neighbor(0, Direction::RIGHT), Some(3));
    assert_eq!(lattice.neighbor(2, Direction::BOTTOM_RIGHT), Some(3));
    let mut edges = lattice.edges();
    edges.sort();
    assert_eq!(edges, vec![(0, 2), (0, 3), (2, 3)]);
    assert!(lattice.validate());
}

#[test]
fn insert_evicts_what_the_new_node_held() {
    let mut lattice = Lattice::new(4);
    lattice.insert(0, Direction::RIGHT, 1);
    lattice.insert(2, Direction::RIGHT, 3);
    lattice.insert(1, Direction::RIGHT, 3);
    assert!(!lattice.contains(2));
    assert_eq!(lattice.edges(), vec![(0, 1), (1, 3)]);
    assert!(lattice.validate());
}

#[test]
fn insert_of_a_node_next_to_itself_does_nothing() {
    let mut lattice = triangle();
    lattice.insert(1, Direction::RIGHT, 1);
    let mut edges = lattice.edges();
    edges.sort();
    assert_eq!(edges, vec![(0, 1), (0, 2), (1, 2)]);
}

#[test]
fn remove_takes_a_node_out() {
    let mut lattice = triangle();
    lattice.remove(0);
    assert!(!lattice.contains(0));
    assert!(lattice.contains(1));
    assert!(lattice.contains(2));
    assert_eq!(lattice.edges(), vec![(1, 2)]);
    lattice.remove(0);
    assert_eq!(lattice.edges(), vec![(1, 2)]);
    assert!(lattice.validate());
}

#[test]
fn clear_drops_every_link() {
    let mut lattice = star();
    lattice.clear();
    assert_eq!(lattice.len(), 8);
    assert!(lattice.edges().is_empty());
    for id in 0..8 {
        assert!(!lattice.contains(id));
    }
}

#[test]
fn clone_is_a_copy_of_its_own() {
    let lattice = triangle();
    let mut copy = lattice.clone();
    copy.remove(2);
    assert_eq!(lattice.edges().len(), 3);
    assert_eq!(copy.edges(), vec![(0, 1)]);
}

#[test]
fn filling_a_hole_links_the_whole_ring() {
    let mut lattice = star();
    lattice.remove(0);
    assert_eq!(lattice.edges().len(), 6);
    lattice.insert(1, Direction::LEFT, 7);
    assert_eq!(lattice.neighbors(7), vec![1, 2, 3, 4, 5, 6]);
    assert_eq!(lattice.edges().len(), 12);
    assert!(lattice.validate());
}

#[test]
fn validate_accepts_meshes_built_by_insertion() {
    assert!(triangle().validate());
    assert!(star().validate());
}

#[test]
fn validate_reports_a_broken_mesh() {
    let mut lattice = Lattice::new(8);
    lattice.insert(0, Direction::TOP_LEFT, 1);
    lattice.insert(1, Direction::LEFT, 2);
    lattice.insert(2, Direction::BOTTOM_LEFT, 3);
    lattice.insert(3, Direction::BOTTOM_RIGHT, 4);
    lattice.insert(4, Direction::RIGHT, 5);
    lattice.insert(5, Direction::TOP_RIGHT, 6);
    assert!(lattice.validate());
    lattice.insert(0, Direction::LEFT, 7);
    assert_eq!(lattice.neighbor(0, Direction::LEFT), Some(7));
    assert_eq!(lattice.neighbor(7, Direction::RIGHT), Some(6));
    assert!(!lattice.validate());
}

#[test]
fn step_loop_finds_the_next_link() {
    let lattice = triangle();
    assert_eq!(
        lattice.step_loop_cw(0, Direction::RIGHT),
        Some((1, Direction::TOP_LEFT, 1))
    );
    assert_eq!(
        lattice.step_loop_ccw(0, Direction::RIGHT),
        Some((1, Direction::TOP_LEFT, 5))
    );
    assert_eq!(lattice.step_loop_cw(0, Direction::LEFT), None);
    let mut pair = Lattice::new(2);
    pair.insert(0, Direction::RIGHT, 1);
    assert_eq!(
        pair.step_loop_cw(1, Direction::LEFT),
        Some((0, Direction::RIGHT, 6))
    );
    assert_eq!(
        pair.step_loop_ccw(0, Direction::RIGHT),
        Some((1, Direction::LEFT, 6))
    );
}

#[test]
fn directions_turn_round_the_cycle() {
    let all = [
        Direction::RIGHT,
        Direction::TOP_RIGHT,
        Direction::TOP_LEFT,
        Direction::LEFT,
        Direction::BOTTOM_LEFT,
        Direction::BOTTOM_RIGHT,
    ];
    for (i, d) in all.iter().enumerate() {
        assert_eq!(d.ordinal(), i);
        assert_eq!(Direction::from_ordinal(i), *d);
        assert_eq!(d.opposite(), all[(i + 3) % 6]);
        assert_eq!(d.rotate_ccw(), all[(i + 1) % 6]);
        assert_eq!(d.rotate_cw(), all[(i + 5) % 6]);
        assert_eq!(d.turned(11), all[(i + 11) % 6]);
        assert_eq!(d.turned(0), *d);
        let (dx, dy) = d.offset();
        let (ox, oy) = d.opposite().offset();
        assert_eq!((dx + ox, dy + oy), (0, 0));
    }
    assert_eq!(Direction::RIGHT.offset(), (1, 0));
    assert_eq!(Direction::TOP_RIGHT.offset(), (0, 1));
    assert_eq!(Direction::TOP_LEFT.offset(), (-1, 1));
    assert_eq!(Direction::LEFT.offset(), (-1, 0));
    assert_eq!(Direction::BOTTOM_LEFT.offset(), (0, -1));
    assert_eq!(Direction::BOTTOM_RIGHT.offset(), (1, -1));
    assert_eq!(Direction::RIGHT.as_str(), "RIGHT");
    assert_eq!(Direction::TOP_RIGHT.as_str(), "TOP_RIGHT");
    assert_eq!(Direction::TOP_LEFT.as_str(), "TOP_LEFT");
    assert_eq!(Direction::LEFT.as_str(), "LEFT");
    assert_eq!(Direction::BOTTOM_LEFT.as_str(), "BOTTOM_LEFT");
    assert_eq!(Direction::BOTTOM_RIGHT.as_str(), "BOTTOM_RIGHT");
}

#[test]
fn validate_reports_an_open_corner() {
    let mut lattice = Lattice::new(7);
    lattice.insert(0, Direction::TOP_LEFT, 1);
    lattice.insert(1, Direction::LEFT, 2);
    lattice.insert(2, Direction::BOTTOM_LEFT, 3);
    lattice.insert(3, Direction::BOTTOM_RIGHT, 4);
    lattice.insert(4, Direction::RIGHT, 5);
    assert!(lattice.validate());
    assert_eq!(lattice.first_violation(), None);
    lattice.insert(0, Direction::LEFT, 6);
    assert_eq!(lattice.neighbors(6), vec![0, 1, 2, 3, 4, 5]);
    assert_eq!(lattice.neighbor(5, Direction::TOP_RIGHT), None);
    assert!(!lattice.validate());
    assert_eq!(lattice.first_violation(), Some((6, Direction::BOTTOM_RIGHT)));
}

#[test]
fn first_violation_names_the_link() {
    let mut lattice = Lattice::new(8);
    lattice.insert(0, Direction::TOP_LEFT, 1);
    lattice.insert(1, Direction::LEFT, 2);
    lattice.insert(2, Direction::BOTTOM_LEFT, 3);
    lattice.insert(3, Direction::BOTTOM_RIGHT, 4);
    lattice.insert(4, Direction::RIGHT, 5);
    lattice.insert(5, Direction::TOP_RIGHT, 6);
    lattice.insert(0, Direction::LEFT, 7);
    assert_eq!(lattice.first_violation(), Some((0, Direction::LEFT)));
}
