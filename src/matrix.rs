use vstd::prelude::*;

use crate::coordinates::Coordinates;

verus! {

/// A grid of `rows * cols` cells stored row by row, with a list of
/// entanglements: links between two cells that can be crossed both ways
/// whatever the cells' walls.
#[derive(Debug, Clone)]
pub struct Matrix<T> {
    pub vec: Vec<T>,
    pub rows: usize,
    pub cols: usize,
    pub entanglements: Vec<(Coordinates, Coordinates)>,
}

/// The place of cell `c` in a row-major array with `cols` columns.
#[verifier::opaque]
pub open spec fn flat(c: Coordinates, cols: usize) -> int {
    c.0 * cols + c.1
}

/// In-bounds cells have distinct places, all below `rows * cols`.
pub proof fn lemma_flat(a: Coordinates, b: Coordinates, rows: usize, cols: usize)
    requires
        a.0 < rows && a.1 < cols,
        b.0 < rows && b.1 < cols,
    ensures
        0 <= flat(a, cols) < rows * cols,
        flat(a, cols) == flat(b, cols) ==> a == b,
        flat(a, cols) == a.0 * cols + a.1,
{
    reveal(flat);
    assert(0 <= a.0 * cols + a.1 < rows * cols) by (nonlinear_arith)
        requires
            a.0 < rows && a.1 < cols,
    ;
    if a.0 < b.0 {
        assert(a.0 * cols + a.1 < b.0 * cols + b.1) by (nonlinear_arith)
            requires
                a.0 < b.0 && a.1 < cols,
        ;
    } else if b.0 < a.0 {
        assert(b.0 * cols + b.1 < a.0 * cols + a.1) by (nonlinear_arith)
            requires
                b.0 < a.0 && b.1 < cols,
        ;
    }
}

impl<T> Matrix<T> {
    /// Whether `c` is a cell of this grid.
    pub open spec fn holds(&self, c: Coordinates) -> bool {
        c.0 < self.rows && c.1 < self.cols
    }

    /// The cells are `rows * cols` and every entanglement joins two cells of
    /// the grid.
    pub open spec fn wf(&self) -> bool {
        &&& self.vec@.len() == self.rows * self.cols
        &&& forall|i: int|
            0 <= i < self.entanglements@.len() ==> self.holds(
                (#[trigger] self.entanglements@[i]).0,
            ) && self.holds(self.entanglements@[i].1)
    }

    /// The value of cell `c`.
    pub open spec fn cell(&self, c: Coordinates) -> T {
        self.vec@[flat(c, self.cols)]
    }

    /// True iff `coordinates` is a cell of this grid.
    pub fn contains(&self, coordinates: Coordinates) -> (r: bool)
        ensures
            r == self.holds(coordinates),
    {
        self.rows > coordinates.0 && self.cols > coordinates.1
    }

    /// The place of cell `index` in `vec`.
    pub fn flat_index(&self, index: Coordinates) -> (r: usize)
        requires
            self.vec@.len() == self.rows * self.cols,
            self.holds(index),
        ensures
            r == flat(index, self.cols),
            r < self.vec@.len(),
    {
        let len = self.vec.len();
        proof {
            lemma_flat(index, index, self.rows, self.cols);
            assert(index.0 * self.cols + index.1 < len);
        }
        index.0 * self.cols + index.1
    }

    /// Replaces the value of cell `index`.
    pub fn set(&mut self, index: Coordinates, value: T)
        requires
            old(self).wf(),
            old(self).holds(index),
        ensures
            final(self).wf(),
            final(self).rows == old(self).rows,
            final(self).cols == old(self).cols,
            final(self).entanglements@ == old(self).entanglements@,
            final(self).vec@ == old(self).vec@.update(flat(index, old(self).cols), value),
    {
        let i = self.flat_index(index);
        self.vec.set(i, value);
    }

    /// Links cells `a` and `b` both ways.
    pub fn entangle(&mut self, a: Coordinates, b: Coordinates)
        requires
            old(self).wf(),
            old(self).holds(a),
            old(self).holds(b),
        ensures
            final(self).wf(),
            final(self).rows == old(self).rows,
            final(self).cols == old(self).cols,
            final(self).vec@ == old(self).vec@,
            final(self).entanglements@ == old(self).entanglements@.push((a, b)),
    {
        self.entanglements.push((a, b));
    }
}

impl<T: Copy> Matrix<T> {
    /// A grid of `rows * cols` cells, each `default_value`, with no
    /// entanglement.
    pub fn new(rows: usize, cols: usize, default_value: T) -> (r: Self)
        requires
            rows * cols <= usize::MAX,
        ensures
            r.wf(),
            r.rows == rows,
            r.cols == cols,
            r.vec@ == Seq::new((rows * cols) as nat, |i: int| default_value),
            r.entanglements@.len() == 0,
    {
        let len = rows * cols;
        let mut vec: Vec<T> = Vec::new();
        while vec.len() < len
            invariant
                vec@.len() <= len,
                forall|i: int| 0 <= i < vec@.len() ==> vec@[i] == default_value,
            decreases len - vec@.len(),
        {
            vec.push(default_value);
        }
        assert(vec@ == Seq::new((rows * cols) as nat, |i: int| default_value));
        Self { vec, rows, cols, entanglements: Vec::new() }
    }

    /// The value of cell `index`.
    pub fn get(&self, index: Coordinates) -> (r: T)
        requires
            self.wf(),
            self.holds(index),
        ensures
            r == self.cell(index),
    {
        self.vec[self.flat_index(index)]
    }
}

} // verus!
