use vstd::prelude::*;

use crate::coordinates::{same_cell, Coordinates};
use crate::matrix::Matrix;
use crate::node::Node;

verus! {

/// The moves out of a cell: to the four cells beside it, and across
/// entanglements.
pub trait Movement {
    /// Whether `index` is a cell that moves can start from.
    spec fn movable(&self, index: Coordinates) -> bool;

    fn nearest_neighbours(&self, index: &Coordinates) -> Vec<Option<Coordinates>>
        requires
            self.movable(*index),
    ;

    fn left(&self, index: &Coordinates) -> Option<Coordinates>
        requires
            self.movable(*index),
    ;

    fn up(&self, index: &Coordinates) -> Option<Coordinates>
        requires
            self.movable(*index),
    ;

    fn right(&self, index: &Coordinates) -> Option<Coordinates>
        requires
            self.movable(*index),
    ;

    fn down(&self, index: &Coordinates) -> Option<Coordinates>
        requires
            self.movable(*index),
    ;
}

impl Matrix<Node> {
    /// The cell to the left of `c`, if it can be entered through its right
    /// side.
    pub open spec fn left_of(&self, c: Coordinates) -> Option<Coordinates> {
        if c.1 > 0 && self.cell((c.0, (c.1 - 1) as usize)).right {
            Some((c.0, (c.1 - 1) as usize))
        } else {
            None
        }
    }

    /// The cell above `c`, if it can be entered through its bottom side.
    pub open spec fn up_of(&self, c: Coordinates) -> Option<Coordinates> {
        if c.0 > 0 && self.cell(((c.0 - 1) as usize, c.1)).bottom {
            Some(((c.0 - 1) as usize, c.1))
        } else {
            None
        }
    }

    /// The cell to the right of `c`, if it can be entered through its left
    /// side.
    pub open spec fn right_of(&self, c: Coordinates) -> Option<Coordinates> {
        if c.1 + 1 < self.cols && self.cell((c.0, (c.1 + 1) as usize)).left {
            Some((c.0, (c.1 + 1) as usize))
        } else {
            None
        }
    }

    /// The cell below `c`, if it can be entered through its top side.
    pub open spec fn down_of(&self, c: Coordinates) -> Option<Coordinates> {
        if c.0 + 1 < self.rows && self.cell(((c.0 + 1) as usize, c.1)).top {
            Some(((c.0 + 1) as usize, c.1))
        } else {
            None
        }
    }

    /// Whether an entanglement joins `a` and `b`, in either order.
    pub open spec fn entangled(&self, a: Coordinates, b: Coordinates) -> bool {
        exists|i: int|
            0 <= i < self.entanglements@.len() && #[trigger] links(self.entanglements@[i], a, b)
    }

    /// Whether one move leads from `a` to `b`.
    pub open spec fn adjacent(&self, a: Coordinates, b: Coordinates) -> bool {
        ||| self.left_of(a) == Some(b)
        ||| self.up_of(a) == Some(b)
        ||| self.right_of(a) == Some(b)
        ||| self.down_of(a) == Some(b)
        ||| self.entangled(a, b)
    }

    /// Whether `p` is a non-empty sequence of cells of the grid in which
    /// one move leads from each cell to the next.
    pub open spec fn is_walk(&self, p: Seq<Coordinates>) -> bool {
        &&& p.len() > 0
        &&& forall|i: int| 0 <= i < p.len() ==> self.holds(#[trigger] p[i])
        &&& forall|i: int| 0 <= i < p.len() - 1 ==> #[trigger] self.adjacent(p[i], p[i + 1])
    }

    /// Whether `p` is a walk from `a` to `b`.
    pub open spec fn walk_between(&self, p: Seq<Coordinates>, a: Coordinates, b: Coordinates) -> bool {
        self.is_walk(p) && p[0] == a && p.last() == b
    }

    /// Whether some walk leads from `a` to `b`.
    pub open spec fn reachable(&self, a: Coordinates, b: Coordinates) -> bool {
        exists|p: Seq<Coordinates>| self.walk_between(p, a, b)
    }
}

/// Whether `Some(b)` is one of the entries of `r`.
pub open spec fn lists(r: Seq<Option<Coordinates>>, b: Coordinates) -> bool {
    exists|k: int| 0 <= k < r.len() && r[k] == Some(b)
}

/// Whether one of the first `n` links of `es` joins `a` to `b`.
pub open spec fn linked_within(
    es: Seq<(Coordinates, Coordinates)>,
    n: int,
    a: Coordinates,
    b: Coordinates,
) -> bool {
    exists|j: int| 0 <= j < n && #[trigger] links(es[j], a, b)
}

/// The entries that link `e` gives from cell `c`: the other end, once,
/// where `e` touches `c`.
pub open spec fn link_entry(e: (Coordinates, Coordinates), c: Coordinates) -> Seq<
    Option<Coordinates>,
> {
    if e.0 == c {
        seq![Some(e.1)]
    } else if e.1 == c {
        seq![Some(e.0)]
    } else {
        seq![]
    }
}

/// The entries that the links `es` give from cell `c`, in order.
pub open spec fn linked_cells(es: Seq<(Coordinates, Coordinates)>, c: Coordinates) -> Seq<
    Option<Coordinates>,
>
    decreases es.len(),
{
    if es.len() == 0 {
        seq![]
    } else {
        linked_cells(es.drop_last(), c) + link_entry(es.last(), c)
    }
}

/// Whether link `e` joins `a` to `b`, in either order.
pub open spec fn links(e: (Coordinates, Coordinates), a: Coordinates, b: Coordinates) -> bool {
    (e.0 == a && e.1 == b) || (e.1 == a && e.0 == b)
}

/// A move from a cell of a well-formed grid leads to a cell of that grid.
pub proof fn lemma_adjacent_holds(m: &Matrix<Node>, a: Coordinates, b: Coordinates)
    requires
        m.wf(),
        m.holds(a),
        m.adjacent(a, b),
    ensures
        m.holds(b),
{
    if m.entangled(a, b) {
        let i = choose|i: int|
            0 <= i < m.entanglements@.len() && #[trigger] links(m.entanglements@[i], a, b);
        assert(m.holds(m.entanglements@[i].0) && m.holds(m.entanglements@[i].1));
    }
}

impl Movement for Matrix<Node> {
    open spec fn movable(&self, index: Coordinates) -> bool {
        self.wf() && self.holds(index)
    }

    /// Every cell that one move leads to: one entry for each entanglement
    /// that touches `index`, then the four sides; blocked sides give `None`.
    fn nearest_neighbours(&self, index: &Coordinates) -> (r: Vec<Option<Coordinates>>)
        ensures
            r@ == linked_cells(self.entanglements@, *index) + seq![
                self.left_of(*index),
                self.right_of(*index),
                self.up_of(*index),
                self.down_of(*index),
            ],
            forall|b: Coordinates| #[trigger] lists(r@, b) <==> self.adjacent(*index, b),
    {
        let mut r: Vec<Option<Coordinates>> = Vec::new();
        let mut i: usize = 0;
        while i < self.entanglements.len()
            invariant
                i <= self.entanglements@.len(),
                r@ == linked_cells(self.entanglements@.take(i as int), *index),
                forall|b: Coordinates| #[trigger]
                    lists(r@, b) <==> linked_within(self.entanglements@, i as int, *index, b),
            decreases self.entanglements@.len() - i,
        {
            let e = self.entanglements[i];
            let ghost r0 = r@;
            if same_cell(&e.0, index) {
                r.push(Some(e.1));
            } else if same_cell(&e.1, index) {
                r.push(Some(e.0));
            }
            proof {
                assert(self.entanglements@.take(i + 1).drop_last() =~= self.entanglements@.take(
                    i as int,
                ));
                assert forall|b: Coordinates| #[trigger]
                    lists(r@, b) <==> linked_within(
                        self.entanglements@,
                        i + 1,
                        *index,
                        b,
                    ) by {
                    if lists(r@, b) {
                        let k = choose|k: int| 0 <= k < r@.len() && r@[k] == Some(b);
                        if k < r0.len() {
                            assert(r0[k] == Some(b));
                            assert(lists(r0, b));
                            let j = choose|j: int|
                                0 <= j < i && #[trigger] links(self.entanglements@[j], *index, b);
                            assert(links(self.entanglements@[j], *index, b));
                        } else {
                            assert(links(self.entanglements@[i as int], *index, b));
                        }
                    }
                    if linked_within(self.entanglements@, i + 1, *index, b) {
                        let j = choose|j: int|
                            0 <= j < i + 1 && #[trigger] links(self.entanglements@[j], *index, b);
                        if j < i {
                            assert(linked_within(self.entanglements@, i as int, *index, b));
                            assert(lists(r0, b));
                            let k = choose|k: int| 0 <= k < r0.len() && r0[k] == Some(b);
                            assert(r@[k] == Some(b));
                        } else if e.0 == *index && e.1 == b {
                            assert(r@[r0.len() as int] == Some(b));
                        } else {
                            assert(r@[r@.len() - 1] == Some(b));
                        }
                    }
                }
            }
            i = i + 1;
        }
        let ghost r0 = r@;
        assert(self.entanglements@.take(i as int) =~= self.entanglements@);
        r.push(self.left(index));
        r.push(self.right(index));
        r.push(self.up(index));
        r.push(self.down(index));
        proof {
            let n = r0.len() as int;
            assert forall|b: Coordinates| #[trigger]
                lists(r@, b) <==> self.adjacent(*index, b) by {
                if lists(r@, b) {
                    let k = choose|k: int| 0 <= k < r@.len() && r@[k] == Some(b);
                    if k < n {
                        assert(r0[k] == Some(b));
                        assert(lists(r0, b));
                        let j = choose|j: int|
                            0 <= j < self.entanglements@.len() && #[trigger] links(
                                self.entanglements@[j],
                                *index,
                                b,
                            );
                        assert(self.entangled(*index, b));
                    }
                }
                if self.adjacent(*index, b) {
                    if self.left_of(*index) == Some(b) {
                        assert(r@[n] == Some(b));
                    } else if self.right_of(*index) == Some(b) {
                        assert(r@[n + 1] == Some(b));
                    } else if self.up_of(*index) == Some(b) {
                        assert(r@[n + 2] == Some(b));
                    } else if self.down_of(*index) == Some(b) {
                        assert(r@[n + 3] == Some(b));
                    } else {
                        let j = choose|j: int|
                            0 <= j < self.entanglements@.len() && #[trigger] links(
                                self.entanglements@[j],
                                *index,
                                b,
                            );
                        assert(links(self.entanglements@[j], *index, b));
                        assert(linked_within(
                            self.entanglements@,
                            self.entanglements@.len() as int,
                            *index,
                            b,
                        ));
                        assert(lists(r0, b));
                        let k = choose|k: int| 0 <= k < r0.len() && r0[k] == Some(b);
                        assert(r@[k] == Some(b));
                    }
                }
            }
        }
        r
    }

    /// The cell to the left, if that cell can be entered through its right
    /// side.
    fn left(&self, index: &Coordinates) -> (r: Option<Coordinates>)
        ensures
            r == self.left_of(*index),
    {
        if index.1 > 0 {
            let index = (index.0, index.1 - 1);
            let node = self.get(index);
            if node.right {
                Some(index)
            } else {
                None
            }
        } else {
            None
        }
    }

    /// The cell above, if that cell can be entered through its bottom side.
    fn up(&self, index: &Coordinates) -> (r: Option<Coordinates>)
        ensures
            r == self.up_of(*index),
    {
        if index.0 > 0 {
            let index = (index.0 - 1, index.1);
            let node = self.get(index);
            if node.bottom {
                Some(index)
            } else {
                None
            }
        } else {
            None
        }
    }

    /// The cell to the right, if that cell can be entered through its left
    /// side.
    fn right(&self, index: &Coordinates) -> (r: Option<Coordinates>)
        ensures
            r == self.right_of(*index),
    {
        if index.1 < self.cols - 1 {
            let index = (index.0, index.1 + 1);
            let node = self.get(index);
            if node.left {
                Some(index)
            } else {
                None
            }
        } else {
            None
        }
    }

    /// The cell below, if that cell can be entered through its top side.
    fn down(&self, index: &Coordinates) -> (r: Option<Coordinates>)
        ensures
            r == self.down_of(*index),
    {
        if index.0 < self.rows - 1 {
            let index = (index.0 + 1, index.1);
            let node = self.get(index);
            if node.top {
                Some(index)
            } else {
                None
            }
        } else {
            None
        }
    }
}


/// Once an entanglement of `a` and `b` is added, one move leads from `a` to
/// `b` and from `b` to `a`, however far apart they are: each is listed among
/// the other's nearest neighbours.
pub proof fn lemma_entangle_links(
    before: &Matrix<Node>,
    after: &Matrix<Node>,
    a: Coordinates,
    b: Coordinates,
)
    requires
        after.entanglements@ == before.entanglements@.push((a, b)),
    ensures
        after.adjacent(a, b),
        after.adjacent(b, a),
        forall|r: Seq<Option<Coordinates>>|
            (forall|c: Coordinates| #[trigger] lists(r, c) <==> after.adjacent(a, c)) ==> lists(r, b),
        forall|r: Seq<Option<Coordinates>>|
            (forall|c: Coordinates| #[trigger] lists(r, c) <==> after.adjacent(b, c)) ==> lists(r, a),
{
    let i = before.entanglements@.len() as int;
    assert(links(after.entanglements@[i], a, b));
    assert(links(after.entanglements@[i], b, a));
}

} // verus!
