use vstd::prelude::*;

use crate::coordinates::{same_cell, Coordinates};

verus! {

/// A cell on the frontier of a search: its cost so far `g`, its estimated
/// cost to go `h`, their sum `f`, and the cell it was reached from.
#[derive(Debug, Clone, Copy)]
pub struct PathNode {
    pub index: Coordinates,
    pub f: i32,
    pub h: i32,
    pub g: i32,
    pub parent: Option<Coordinates>,
}

impl PathNode {
    /// The record a search starts from: `index` with no parent, `g = 1`,
    /// `h` the heuristic from `index` to `goal`, and `f = h + 1`.
    pub fn initial<H>(index: Coordinates, goal: Coordinates, heuristic: H) -> (r: Self) where
        H: Fn(&Coordinates, &Coordinates) -> i32,

        requires
            heuristic.requires((&index, &goal)),
            forall|h: i32| #[trigger] heuristic.ensures((&index, &goal), h) ==> h < i32::MAX,
        ensures
            heuristic.ensures((&index, &goal), r.h),
            r.index == index,
            r.parent is None,
            r.g == 1,
            r.f == r.h + 1,
    {
        let h = heuristic(&index, &goal);

        PathNode { index: index, parent: None, f: h + 1, g: 1, h: h }
    }
}

impl PartialEq for PathNode {
    /// Two records are equal when they are for the same cell, whatever their
    /// costs.
    fn eq(&self, other: &Self) -> (r: bool) {
        same_cell(&self.index, &other.index)
    }
}

impl vstd::std_specs::cmp::PartialEqSpecImpl for PathNode {
    open spec fn obeys_eq_spec() -> bool {
        true
    }

    open spec fn eq_spec(&self, other: &PathNode) -> bool {
        self.index == other.index
    }
}

impl From<Coordinates> for PathNode {
    /// A record for `value` with all costs zero and no parent.
    fn from(value: Coordinates) -> (r: PathNode) {
        PathNode { index: value, f: 0, h: 0, g: 0, parent: None }
    }
}

impl vstd::std_specs::convert::FromSpecImpl<Coordinates> for PathNode {
    open spec fn obeys_from_spec() -> bool {
        true
    }

    open spec fn from_spec(v: Coordinates) -> PathNode {
        PathNode { index: v, f: 0, h: 0, g: 0, parent: None }
    }
}

} // verus!
