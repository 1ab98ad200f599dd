use vstd::prelude::*;

verus! {

/// A cell of a grid as `(row, col)`, both counted from zero.
pub type Coordinates = (usize, usize);

/// True iff `a` and `b` name the same cell.
pub fn same_cell(a: &Coordinates, b: &Coordinates) -> (r: bool)
    ensures
        r == (*a == *b),
{
    a.0 == b.0 && a.1 == b.1
}

/// Building coordinates from a row and a column, and reading them back.
pub trait CreateCoordinates: Sized {
    fn new(row: usize, col: usize) -> Self;

    fn row(&self) -> usize;

    fn col(&self) -> usize;
}

impl CreateCoordinates for Coordinates {
    fn new(row: usize, col: usize) -> (r: Self)
        ensures
            r == (row, col),
    {
        (row, col)
    }

    fn row(&self) -> (r: usize)
        ensures
            r == self.0,
    {
        self.0
    }

    fn col(&self) -> (r: usize)
        ensures
            r == self.1,
    {
        self.1
    }
}

} // verus!
