use letterbox::astar::{find_path, manhattan_heuristic, AStar};
use letterbox::coordinates::Coordinates;
use letterbox::matrix::Matrix;
use letterbox::movement::Movement;
use letterbox::node::{Entry, Node};
use letterbox::partial_paths::PartialPaths;
use letterbox::planner::plan_paths;

fn is_walk(m: &Matrix<Node>, p: &[Coordinates]) -> bool {
    p.windows(2).all(|w| m.nearest_neighbours(&w[0]).contains(&Some(w[1])))
}

fn close(m: &mut Matrix<Node>, c: Coordinates) {
    m.set(c, Node::closed());
}

#[test]
fn manhattan_values() {
    assert_eq!(manhattan_heuristic(&(0, 0), &(4, 4)), 8);
    assert_eq!(manhattan_heuristic(&(4, 1), &(2, 3)), 4);
    assert_eq!(manhattan_heuristic(&(7, 7), &(7, 7)), 0);
}

#[test]
fn path_avoids_closed_centre_and_is_shortest() {
    let mut m = Matrix::new(5, 5, Node::open());
    close(&mut m, (2, 2));
    let p = m.astar((0, 0), (4, 4), &manhattan_heuristic, None).unwrap();
    assert_eq!(p.len(), 9);
    assert_eq!(p[0], (0, 0));
    assert_eq!(p[8], (4, 4));
    assert!(!p.contains(&(2, 2)));
    assert!(is_walk(&m, &p));
}

#[test]
fn path_to_itself_is_one_cell() {
    let m = Matrix::new(3, 4, Node::open());
    for r in 0..3 {
        for c in 0..4 {
            assert_eq!(m.astar((r, c), (r, c), &manhattan_heuristic, None), Some(vec![(r, c)]));
        }
    }
    let closed = Matrix::new(2, 2, Node::closed());
    assert_eq!(find_path(&closed, (1, 1), (1, 1), None), Some(vec![(1, 1)]));
}

#[test]
fn disconnected_goal_gives_none() {
    let mut m = Matrix::new(4, 4, Node::open());
    for r in 0..4 {
        close(&mut m, (r, 2));
    }
    assert_eq!(m.astar((0, 0), (3, 3), &manhattan_heuristic, None), None);
    assert_eq!(find_path(&m, (3, 3), (0, 0), None), None);
    let isolated = Matrix::new(3, 3, Node::closed());
    assert_eq!(find_path(&isolated, (0, 0), (2, 2), None), None);
}

#[test]
fn path_around_walls_is_a_walk() {
    let mut m = Matrix::new(6, 6, Node::open());
    for r in 0..5 {
        close(&mut m, (r, 1));
    }
    for r in 1..6 {
        close(&mut m, (r, 3));
    }
    let p = find_path(&m, (0, 0), (0, 5), None).unwrap();
    assert_eq!(p[0], (0, 0));
    assert_eq!(*p.last().unwrap(), (0, 5));
    assert!(is_walk(&m, &p));
    assert_eq!(p.len(), 6 + 2 + 5 + 3);
}

#[test]
fn entanglement_crosses_a_closed_grid() {
    let mut m = Matrix::new(5, 5, Node::closed());
    m.entangle((0, 0), (2, 2));
    assert_eq!(
        m.astar((0, 0), (2, 2), &manhattan_heuristic, None),
        Some(vec![(0, 0), (2, 2)])
    );
    assert_eq!(find_path(&m, (2, 2), (0, 0), None), Some(vec![(2, 2), (0, 0)]));
    assert_eq!(find_path(&m, (0, 0), (4, 4), None), None);
}

#[test]
fn entanglement_shortcut_is_taken() {
    let mut m = Matrix::new(1, 10, Node::open());
    m.entangle((0, 1), (0, 8));
    let p = find_path(&m, (0, 0), (0, 9), None).unwrap();
    assert_eq!(p, vec![(0, 0), (0, 1), (0, 8), (0, 9)]);
}

#[test]
fn partial_paths_record_and_get() {
    let mut pp = PartialPaths::new();
    assert!(pp.get(&(0, 0)).is_none());
    pp.record(&vec![(0, 0), (0, 1), (1, 1)]);
    assert_eq!(pp.get(&(0, 0)), Some(&vec![(0, 1), (1, 1)]));
    assert_eq!(pp.get(&(0, 1)), Some(&vec![(1, 1)]));
    assert!(pp.get(&(1, 1)).is_none());
    pp.record(&vec![(0, 1), (2, 2)]);
    assert_eq!(pp.get(&(0, 1)), Some(&vec![(1, 1)]));
    pp.record(&vec![]);
    assert!(pp.get(&(2, 2)).is_none());
}

#[test]
fn splice_onto_recorded_path() {
    let m = Matrix::new(5, 5, Node::open());
    let b = find_path(&m, (0, 4), (4, 4), None).unwrap();
    assert_eq!(b.len(), 5);
    let mut pp = PartialPaths::new();
    pp.record(&b);
    let a = find_path(&m, (2, 0), (4, 4), Some(&pp)).unwrap();
    let full = find_path(&m, (2, 0), (4, 4), None).unwrap();
    assert_eq!(a[0], (2, 0));
    assert_eq!(*a.last().unwrap(), (4, 4));
    assert!(is_walk(&m, &a));
    let k = b.iter().position(|c| a.contains(c)).unwrap();
    assert!(a.ends_with(&b[k..]));
    assert!(a.len() <= full.len());
}

#[test]
fn splice_stops_at_first_recorded_cell() {
    let m = Matrix::new(1, 6, Node::open());
    let mut pp = PartialPaths::new();
    pp.record(&vec![(0, 2), (0, 3), (0, 4), (0, 5)]);
    let a = find_path(&m, (0, 0), (0, 5), Some(&pp)).unwrap();
    assert_eq!(a, vec![(0, 0), (0, 1), (0, 2), (0, 3), (0, 4), (0, 5)]);
    let mut detour = PartialPaths::new();
    detour.record(&vec![(0, 0), (0, 1), (0, 0), (0, 1), (0, 2)]);
    let b = m.astar((0, 0), (0, 5), &manhattan_heuristic, Some(&detour)).unwrap();
    assert_eq!(b, vec![(0, 0), (0, 1), (0, 0), (0, 1), (0, 2)]);
}

#[test]
fn plan_paths_shares_suffixes() {
    let mut m = Matrix::new(6, 6, Node::open());
    for r in 0..5 {
        close(&mut m, (r, 3));
    }
    let starts = vec![(0, 0), (1, 0), (0, 5), (2, 2)];
    let plans = plan_paths(&m, &starts, (0, 4));
    assert_eq!(plans.len(), 4);
    for (s, p) in starts.iter().zip(plans.iter()) {
        let p = p.as_ref().unwrap();
        assert_eq!(p[0], *s);
        assert_eq!(*p.last().unwrap(), (0, 4));
        assert!(is_walk(&m, p));
    }
    assert!(plans[1].as_ref().unwrap().ends_with(&plans[0].as_ref().unwrap()[1..]));
}

#[test]
fn plan_paths_unreachable_start() {
    let mut m = Matrix::new(3, 3, Node::open());
    let mut n = m.get((1, 1));
    n.set(Entry::LEFT, false);
    n.set(Entry::TOP, false);
    n.set(Entry::RIGHT, false);
    n.set(Entry::BOTTOM, false);
    m.set((1, 1), n);
    let plans = plan_paths(&m, &vec![(0, 0), (2, 2)], (1, 1));
    assert_eq!(plans, vec![None, None]);
    let plans = plan_paths(&m, &vec![(1, 1)], (0, 0));
    assert_eq!(plans[0].as_ref().unwrap()[0], (1, 1));
}
