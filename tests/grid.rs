use letterbox::coordinates::{CreateCoordinates, Coordinates};
use letterbox::matrix::Matrix;
use letterbox::movement::Movement;
use letterbox::node::{Entry, Node};
use letterbox::path_node::PathNode;

#[test]
fn node_open_and_closed() {
    let o = Node::open();
    assert!(o.left && o.top && o.right && o.bottom);
    let c = Node::closed();
    assert!(!c.left && !c.top && !c.right && !c.bottom);
}

#[test]
fn node_byte_layout() {
    let n = Node { left: true, top: false, right: true, bottom: false };
    let b: u8 = n.into();
    assert_eq!(b, 0b1010);
    let open: u8 = Node::open().into();
    assert_eq!(open, 0b1111);
    let closed: u8 = Node::closed().into();
    assert_eq!(closed, 0);
}

#[test]
fn node_byte_round_trip_all_patterns() {
    for b in 0u8..16 {
        let n = Node::from(b);
        let back: u8 = n.into();
        assert_eq!(back, b);
    }
}

#[test]
fn node_from_byte_ignores_high_bits() {
    let n = Node::from(0b1111_0100);
    assert_eq!(n, Node { left: false, top: true, right: false, bottom: false });
}

#[test]
fn node_get_and_set_sides() {
    let mut n = Node::open();
    n.set(Entry::LEFT, false);
    n.set(Entry::BOTTOM, false);
    assert!(!n.get(Entry::LEFT));
    assert!(n.get(Entry::TOP));
    assert!(n.get(Entry::RIGHT));
    assert!(!n.get(Entry::BOTTOM));
}

#[test]
fn coordinates_new_row_col() {
    let c: Coordinates = CreateCoordinates::new(3, 7);
    assert_eq!(c, (3, 7));
    assert_eq!(c.row(), 3);
    assert_eq!(c.col(), 7);
}

#[test]
fn matrix_new_fills_and_bounds() {
    let m = Matrix::new(2, 3, Node::open());
    assert_eq!(m.vec.len(), 6);
    assert_eq!(m.rows, 2);
    assert_eq!(m.cols, 3);
    assert!(m.entanglements.is_empty());
    assert!(m.contains((1, 2)));
    assert!(!m.contains((2, 0)));
    assert!(!m.contains((0, 3)));
    assert_eq!(m.get((1, 2)), Node::open());
}

#[test]
fn matrix_set_changes_one_cell() {
    let mut m = Matrix::new(3, 3, Node::open());
    m.set((1, 2), Node::closed());
    assert_eq!(m.get((1, 2)), Node::closed());
    assert_eq!(m.vec[5], Node::closed());
    assert_eq!(m.get((2, 1)), Node::open());
    assert_eq!(m.flat_index((2, 1)), 7);
}

#[test]
fn matrix_empty_grid_contains_nothing() {
    let m = Matrix::new(0, 0, Node::open());
    assert!(m.vec.is_empty());
    assert!(!m.contains((0, 0)));
}

#[test]
fn movement_closed_shared_wall_blocks_right() {
    let mut m = Matrix::new(3, 3, Node::open());
    let mut a = m.get((0, 0));
    a.right = false;
    m.set((0, 0), a);
    let mut b = m.get((0, 1));
    b.left = false;
    m.set((0, 1), b);
    assert_eq!(m.right(&(0, 0)), None);
    assert_eq!(m.down(&(0, 0)), Some((1, 0)));
}

#[test]
fn movement_checks_the_destination_flag_only() {
    let mut m = Matrix::new(1, 2, Node::open());
    let mut a = m.get((0, 0));
    a.right = false;
    m.set((0, 0), a);
    assert_eq!(m.right(&(0, 0)), Some((0, 1)));
    let mut b = m.get((0, 1));
    b.left = false;
    m.set((0, 1), b);
    assert_eq!(m.right(&(0, 0)), None);
    assert_eq!(m.left(&(0, 1)), None);
}

#[test]
fn movement_edges_of_the_grid() {
    let m = Matrix::new(2, 2, Node::open());
    assert_eq!(m.left(&(0, 0)), None);
    assert_eq!(m.up(&(0, 0)), None);
    assert_eq!(m.right(&(1, 1)), None);
    assert_eq!(m.down(&(1, 1)), None);
    assert_eq!(m.up(&(1, 1)), Some((0, 1)));
    assert_eq!(m.left(&(1, 1)), Some((1, 0)));
}

#[test]
fn nearest_neighbours_lists_open_sides() {
    let m = Matrix::new(3, 3, Node::open());
    let n = m.nearest_neighbours(&(1, 1));
    let found: Vec<Coordinates> = n.iter().flatten().cloned().collect();
    assert_eq!(found.len(), 4);
    for c in [(1, 0), (1, 2), (0, 1), (2, 1)] {
        assert!(found.contains(&c));
    }
    let corner = m.nearest_neighbours(&(0, 0));
    let found: Vec<Coordinates> = corner.iter().flatten().cloned().collect();
    assert_eq!(found.len(), 2);
}

#[test]
fn entangle_links_both_ways() {
    let mut m = Matrix::new(5, 5, Node::closed());
    m.entangle((0, 0), (4, 3));
    assert_eq!(m.entanglements, vec![((0, 0), (4, 3))]);
    let from_a: Vec<Coordinates> = m.nearest_neighbours(&(0, 0)).iter().flatten().cloned().collect();
    assert_eq!(from_a, vec![(4, 3)]);
    let from_b: Vec<Coordinates> = m.nearest_neighbours(&(4, 3)).iter().flatten().cloned().collect();
    assert_eq!(from_b, vec![(0, 0)]);
    let other: Vec<Coordinates> = m.nearest_neighbours(&(2, 2)).iter().flatten().cloned().collect();
    assert!(other.is_empty());
}

#[test]
fn path_node_initial_record() {
    let h = |a: &Coordinates, b: &Coordinates| -> i32 { (a.0 + a.1 + b.0 + b.1) as i32 };
    let pn = PathNode::initial((1, 2), (3, 4), h);
    assert_eq!(pn.index, (1, 2));
    assert_eq!(pn.parent, None);
    assert_eq!(pn.g, 1);
    assert_eq!(pn.h, 10);
    assert_eq!(pn.f, 11);
}

#[test]
fn path_node_equality_is_by_cell() {
    let a = PathNode { index: (1, 1), f: 3, h: 2, g: 1, parent: None };
    let b = PathNode { index: (1, 1), f: 9, h: 4, g: 5, parent: Some((0, 1)) };
    let c = PathNode::from((1, 2));
    assert!(a == b);
    assert!(a != c);
    assert_eq!((c.f, c.h, c.g, c.parent), (0, 0, 0, None));
}

#[test]
fn nearest_neighbours_exact_list() {
    let mut m = Matrix::new(3, 3, Node::open());
    m.entangle((2, 2), (1, 1));
    m.entangle((0, 0), (2, 0));
    m.entangle((1, 1), (0, 2));
    let n = m.nearest_neighbours(&(1, 1));
    assert_eq!(
        n,
        vec![Some((2, 2)), Some((0, 2)), Some((1, 0)), Some((1, 2)), Some((0, 1)), Some((2, 1))]
    );
}

#[test]
fn nearest_neighbours_self_link_listed_once() {
    let mut m = Matrix::new(2, 2, Node::closed());
    m.entangle((1, 0), (1, 0));
    let n = m.nearest_neighbours(&(1, 0));
    assert_eq!(n, vec![Some((1, 0)), None, None, None, None]);
}
