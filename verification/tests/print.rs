use lattice_decomp::lattice::{Direction, Lattice};

#[test]
fn t_print_empty_lattice() {
    let lattice = Lattice::new(5);
    assert!(lattice.validate());
    let output = lattice.to_string();
    assert_eq!(output, "");
}

#[test]
fn t_print_single_node_lattice() {
    let mut lattice = Lattice::new(1);
    lattice.insert(0, Direction::RIGHT, 0);
    assert!(lattice.validate());
    assert!(lattice.to_string().is_empty());
}

#[test]
fn t_print_two_node_connection() {
    let mut lattice = Lattice::new(2);
    lattice.insert(0, Direction::RIGHT, 1);
    assert!(lattice.validate());
    assert_eq!(lattice.to_string().trim(), "0 - 1");
}

#[test]
fn t_print_triangle_formation() {
    let mut lattice = Lattice::new(3);
    lattice.insert(0, Direction::RIGHT, 1);
    lattice.insert(0, Direction::TOP_RIGHT, 2);
    assert!(lattice.validate());
    let output = lattice.to_string();
    assert!(output.contains(" 0 "));
    assert!(output.contains(" 1 "));
    assert!(output.contains(" 2 "));
    assert!(output.contains("-"));
    assert!(output.contains("/") || output.contains("\\"));
}

#[test]
fn t_print_linear_chain() {
    let mut lattice = Lattice::new(4);
    lattice.insert(0, Direction::RIGHT, 1);
    lattice.insert(1, Direction::RIGHT, 2);
    lattice.insert(2, Direction::RIGHT, 3);
    assert!(lattice.validate());
    let output = lattice.to_string();
    for i in 0..4 {
        assert!(output.contains(&format!(" {} ", i)));
    }
    let dash_count = output.matches("-").count();
    assert!(!output.contains("/") && !output.contains("\\"));
    assert!(dash_count >= 3);
}

#[test]
fn t_print_disjoint_components() {
    let mut lattice = Lattice::new(6);
    lattice.insert(0, Direction::RIGHT, 1);
    lattice.insert(0, Direction::TOP_RIGHT, 2);
    lattice.insert(3, Direction::RIGHT, 4);
    lattice.insert(4, Direction::RIGHT, 5);
    assert!(lattice.validate());
    let output = lattice.to_string();
    for i in 0..6 {
        assert!(output.contains(&format!(" {} ", i)));
    }
    let component_separations = output.matches("\n\n").count();
    assert!(component_separations >= 2);
}

#[test]
fn t_print_mixed_components() {
    let mut lattice = Lattice::new(5);
    lattice.insert(0, Direction::RIGHT, 1);
    lattice.insert(0, Direction::TOP_RIGHT, 2);
    lattice.insert(3, Direction::RIGHT, 4);
    assert!(lattice.validate());
    let output = lattice.to_string();
    assert!(output.contains(" 0 "));
    assert!(output.contains(" 1 "));
    assert!(output.contains(" 2 "));
    assert!(output.contains(" 3 "));
    assert!(output.contains(" 4 "));
    assert!(output.contains("-"));
    assert!(output.contains("/") || output.contains("\\"));
}

#[test]
fn t_print_star_pattern() {
    let mut lattice = Lattice::new(7);
    lattice.insert(0, Direction::RIGHT, 1);
    lattice.insert(0, Direction::TOP_RIGHT, 2);
    lattice.insert(0, Direction::TOP_LEFT, 3);
    lattice.insert(0, Direction::LEFT, 4);
    lattice.insert(0, Direction::BOTTOM_LEFT, 5);
    lattice.insert(0, Direction::BOTTOM_RIGHT, 6);
    assert!(lattice.validate());
    let output = lattice.to_string();
    for i in 0..7 {
        assert!(output.contains(&format!(" {} ", i)));
    }
    assert!(output.contains("-"));
    assert!(output.contains("/"));
    assert!(output.contains("\\"));
}

#[test]
fn t_print_non_contiguous_nodes() {
    let mut lattice = Lattice::new(10);
    lattice.insert(0, Direction::RIGHT, 2);
    lattice.insert(2, Direction::TOP_RIGHT, 5);
    lattice.insert(7, Direction::RIGHT, 9);
    assert!(lattice.validate());
    let output = lattice.to_string();
    assert!(output.contains(" 0 "));
    assert!(output.contains(" 2 "));
    assert!(output.contains(" 5 "));
    assert!(output.contains(" 7 "));
    assert!(output.contains(" 9 "));
    assert!(!output.contains(" 1 "));
    assert!(!output.contains(" 3 "));
    assert!(!output.contains(" 4 "));
    assert!(!output.contains(" 6 "));
    assert!(!output.contains(" 8 "));
    let component_separations = output.matches("\n\n").count();
    assert!(component_separations >= 2);
}

#[test]
fn picture_of_a_star_is_exact() {
    let mut lattice = Lattice::new(12);
    lattice.insert(10, Direction::RIGHT, 1);
    lattice.insert(10, Direction::TOP_RIGHT, 2);
    lattice.insert(10, Direction::TOP_LEFT, 3);
    lattice.insert(10, Direction::LEFT, 4);
    lattice.insert(10, Direction::BOTTOM_LEFT, 5);
    lattice.insert(10, Direction::BOTTOM_RIGHT, 11);
    let expected = concat_lines(&[
        "    3 - 2  ",
        "   / \\ / \\ ",
        "  4 -10 - 1  ",
        "   \\ / \\ /   ",
        "    5 -11  ",
        "           ",
        "",
    ]);
    assert_eq!(lattice.to_string(), expected);
    assert_eq!(lattice.draw(), expected.as_bytes().to_vec());
}

fn concat_lines(lines: &[&str]) -> String {
    let mut s = String::new();
    for l in lines {
        s.push_str(l);
        s.push('\n');
    }
    s
}
