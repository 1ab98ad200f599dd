use vstd::prelude::*;

use crate::coordinates::{same_cell, Coordinates};
use crate::matrix::{flat, lemma_flat, Matrix};
use crate::movement::{lemma_adjacent_holds, lists, Movement};
use crate::node::Node;
use crate::partial_paths::{lemma_recorded_suffixes, record_upto, recorded, PartialPaths};
use crate::path_node::PathNode;

verus! {

const WEIGHT: i32 = 1;

/// The most cells that a searched grid may have: a cost counts cells, and a
/// cost plus an estimate must fit in an `i32`.
pub const MAX_CELLS: usize = 0x3fff_ffff;

/// The largest estimate that a heuristic may give.
pub const MAX_ESTIMATE: i32 = 0x3fff_ffff;

/// `|a - b|`.
pub open spec fn abs_diff(a: usize, b: usize) -> int {
    if a >= b {
        a - b
    } else {
        b - a
    }
}

/// The Manhattan distance between two cells.
pub open spec fn manhattan(a: Coordinates, b: Coordinates) -> int {
    abs_diff(a.0, b.0) + abs_diff(a.1, b.1)
}

/// The Manhattan distance `|a.row - b.row| + |a.col - b.col|`.
pub fn manhattan_heuristic(a: &Coordinates, b: &Coordinates) -> (r: i32)
    requires
        manhattan(*a, *b) <= i32::MAX,
    ensures
        r == manhattan(*a, *b),
{
    let dx: usize = if b.0 >= a.0 {
        b.0 - a.0
    } else {
        a.0 - b.0
    };
    let dy: usize = if b.1 >= a.1 {
        b.1 - a.1
    } else {
        a.1 - b.1
    };

    (dx + dy) as i32
}

/// The view of an optional map of partial paths.
pub open spec fn paths_view(partial_paths: Option<&PartialPaths>) -> Option<
    Map<Coordinates, Seq<Coordinates>>,
> {
    match partial_paths {
        Some(pp) => Some(pp@),
        None => None,
    }
}

/// Whether `c` is a key of the partial paths, where there are any.
pub open spec fn is_key(partial_paths: Option<Map<Coordinates, Seq<Coordinates>>>, c: Coordinates) -> bool {
    partial_paths matches Some(m) && m.contains_key(c)
}

/// The view of an optional path.
pub open spec fn path_view(r: Option<Vec<Coordinates>>) -> Option<Seq<Coordinates>> {
    match r {
        Some(p) => Some(p@),
        None => None,
    }
}

/// The number of empty slots of `s`.
pub open spec fn count_none(s: Seq<Option<PathNode>>) -> nat
    decreases s.len(),
{
    if s.len() == 0 {
        0
    } else {
        count_none(s.drop_last()) + if s.last() is None {
            1nat
        } else {
            0nat
        }
    }
}

proof fn lemma_count_none_bound(s: Seq<Option<PathNode>>)
    ensures
        count_none(s) <= s.len(),
    decreases s.len(),
{
    if s.len() > 0 {
        lemma_count_none_bound(s.drop_last());
    }
}

proof fn lemma_count_none_fill(s: Seq<Option<PathNode>>, i: int, v: PathNode)
    requires
        0 <= i < s.len(),
        s[i] is None,
    ensures
        count_none(s.update(i, Some(v))) + 1 == count_none(s),
    decreases s.len(),
{
    let t = s.update(i, Some(v));
    if i == s.len() - 1 {
        assert(t.drop_last() =~= s.drop_last());
    } else {
        assert(t.drop_last() =~= s.drop_last().update(i, Some(v)));
        lemma_count_none_fill(s.drop_last(), i, v);
    }
}

/// Every slot filled in `old` holds the same in `new`.
pub open spec fn grows_from<T>(new: Seq<Option<T>>, old: Seq<Option<T>>) -> bool {
    &&& new.len() == old.len()
    &&& forall|i: int|
        #![trigger old[i]]
        #![trigger new[i]]
        0 <= i < old.len() && old[i] is Some ==> new[i] == old[i]
}

impl Matrix<Node> {
    /// Whether `p` is what a search from `start` to `goal` returns when it
    /// stops at position `k`: the cells up to `k` are a walk from `start`
    /// with no cell twice, none before `k` is `goal` or a key of the partial
    /// paths, and either `p[k]` is `goal` and ends `p`, or `p[k]` is a key
    /// and the rest of `p` is the path recorded for it.
    pub open spec fn stops_at(
        &self,
        p: Seq<Coordinates>,
        k: int,
        start: Coordinates,
        goal: Coordinates,
        partial_paths: Option<Map<Coordinates, Seq<Coordinates>>>,
    ) -> bool {
        &&& 0 <= k < p.len()
        &&& self.walk_between(p.take(k + 1), start, p[k])
        &&& forall|i: int, j: int| 0 <= i < j <= k ==> p[i] != p[j]
        &&& forall|i: int|
            0 <= i < k ==> #[trigger] p[i] != goal && !is_key(partial_paths, p[i])
        &&& {
            ||| p[k] == goal && k == p.len() - 1
            ||| p[k] != goal && is_key(partial_paths, p[k]) && p.skip(k + 1)
                == partial_paths->0[p[k]]
        }
    }

    /// Whether `p` is an answer of a search from `start` to `goal`.
    pub open spec fn found(
        &self,
        p: Seq<Coordinates>,
        start: Coordinates,
        goal: Coordinates,
        partial_paths: Option<Map<Coordinates, Seq<Coordinates>>>,
    ) -> bool {
        exists|k: int| #![trigger p[k]] self.stops_at(p, k, start, goal, partial_paths)
    }

    /// What a search from `start` to `goal` returns: nothing only where no
    /// walk leads from `start` to `goal`; else an answer as `found` says; and
    /// the one-cell path where `start == goal`.
    pub open spec fn search_outcome(
        &self,
        start: Coordinates,
        goal: Coordinates,
        partial_paths: Option<Map<Coordinates, Seq<Coordinates>>>,
        r: Option<Seq<Coordinates>>,
    ) -> bool {
        &&& r is None ==> !self.reachable(start, goal)
        &&& r matches Some(p) ==> self.found(p, start, goal, partial_paths)
        &&& start == goal ==> r == Some(seq![start])
    }

    /// A record of the search: its cell has a cost; if it has a parent, that
    /// parent is an expanded cell with a lower cost from which one move
    /// leads to it; a record without a parent is for `start`.
    spec fn record_ok(
        &self,
        start: Coordinates,
        closed: Seq<Option<PathNode>>,
        lookup: Seq<Option<i32>>,
        pn: PathNode,
    ) -> bool {
        &&& self.holds(pn.index)
        &&& lookup[flat(pn.index, self.cols)] is Some
        &&& lookup[flat(pn.index, self.cols)]->0 >= 0
        &&& match pn.parent {
            None => pn.index == start,
            Some(p) => {
                &&& self.holds(p)
                &&& closed[flat(p, self.cols)] is Some
                &&& lookup[flat(p, self.cols)] is Some
                &&& self.adjacent(p, pn.index)
                &&& lookup[flat(p, self.cols)]->0 < lookup[flat(pn.index, self.cols)]->0
            },
        }
    }

    /// The expanded cells: each slot of `closed` that is filled holds a
    /// record of its own cell.
    #[verifier::opaque]
    spec fn closed_ok(
        &self,
        start: Coordinates,
        closed: Seq<Option<PathNode>>,
        lookup: Seq<Option<i32>>,
    ) -> bool {
        forall|c: Coordinates|
            self.holds(c) && (#[trigger] closed[flat(c, self.cols)]) is Some ==> {
                &&& closed[flat(c, self.cols)]->0.index == c
                &&& self.record_ok(start, closed, lookup, closed[flat(c, self.cols)]->0)
            }
    }

    /// The frontier: records of distinct cells, each with a cost and none
    /// expanded.
    #[verifier::opaque]
    spec fn frontier_ok(
        &self,
        start: Coordinates,
        open: Seq<PathNode>,
        closed: Seq<Option<PathNode>>,
        lookup: Seq<Option<i32>>,
    ) -> bool {
        &&& forall|q: int|
            0 <= q < open.len() ==> self.record_ok(start, closed, lookup, #[trigger] open[q])
                && closed[flat(open[q].index, self.cols)] is None
        &&& forall|q: int, k: int| 0 <= q < k < open.len() ==> open[q].index != open[k].index
    }

    /// Each cell with a cost is expanded or on the frontier, and its cost is
    /// at most the number of expanded cells.
    #[verifier::opaque]
    spec fn seen_ok(
        &self,
        open: Seq<PathNode>,
        closed: Seq<Option<PathNode>>,
        lookup: Seq<Option<i32>>,
    ) -> bool {
        forall|c: Coordinates|
            self.holds(c) && (#[trigger] lookup[flat(c, self.cols)]) is Some ==> {
                &&& 0 <= lookup[flat(c, self.cols)]->0 <= self.rows * self.cols - count_none(closed)
                &&& (closed[flat(c, self.cols)] is Some || exists|q: int|
                    0 <= q < open.len() && open[q].index == c)
            }
    }

    /// Every move out of an expanded cell other than `skip` leads to a cell
    /// with a cost.
    #[verifier::opaque]
    spec fn closure_ok(
        &self,
        closed: Seq<Option<PathNode>>,
        lookup: Seq<Option<i32>>,
        skip: Option<Coordinates>,
    ) -> bool {
        forall|c: Coordinates, d: Coordinates|
            self.holds(c) && (#[trigger] closed[flat(c, self.cols)]) is Some && skip != Some(c)
                && #[trigger] self.adjacent(c, d) ==> lookup[flat(d, self.cols)] is Some
    }

    /// No expanded cell is `goal` or a key of the partial paths.
    #[verifier::opaque]
    spec fn tested_ok(
        &self,
        closed: Seq<Option<PathNode>>,
        goal: Coordinates,
        keys: Option<Map<Coordinates, Seq<Coordinates>>>,
    ) -> bool {
        forall|c: Coordinates|
            self.holds(c) && (#[trigger] closed[flat(c, self.cols)]) is Some ==> c != goal
                && !is_key(keys, c)
    }

    /// A walk read back from a stopping cell, followed by nothing where that
    /// cell is `goal` and by its recorded path where it is a key, is an
    /// answer that stops at that cell.
    proof fn lemma_stop(
        &self,
        start: Coordinates,
        goal: Coordinates,
        keys: Option<Map<Coordinates, Seq<Coordinates>>>,
        closed: Seq<Option<PathNode>>,
        head: Seq<Coordinates>,
        p: Seq<Coordinates>,
    )
        requires
            self.tested_ok(closed, goal, keys),
            head.len() >= 1,
            self.walk_between(head, start, head.last()),
            forall|i: int, j: int| 0 <= i < j < head.len() ==> head[i] != head[j],
            forall|j: int| 0 <= j < head.len() - 1 ==> closed[flat(#[trigger] head[j], self.cols)] is Some,
            p.take(head.len() as int) == head,
            head.len() <= p.len(),
            (head.last() == goal && p == head) || (head.last() != goal && is_key(keys, head.last())
                && p.skip(head.len() as int) == keys->0[head.last()]),
        ensures
            self.stops_at(p, head.len() - 1, start, goal, keys),
    {
        reveal(Matrix::tested_ok);
        let k = head.len() - 1;
        assert(p.take(k + 1) == head);
        assert forall|i: int, j: int| 0 <= i < j <= k implies p[i] != p[j] by {
            assert(p[i] == head[i]);
            assert(p[j] == head[j]);
        }
        assert forall|i: int| 0 <= i < k implies #[trigger] p[i] != goal && !is_key(keys, p[i]) by {
            assert(p[i] == head[i]);
            assert(self.holds(head[i]));
            assert(closed[flat(head[i], self.cols)] is Some);
        }
        assert(p[k] == head[k]);
    }

    proof fn lemma_record_ok_grows(
        &self,
        start: Coordinates,
        c1: Seq<Option<PathNode>>,
        l1: Seq<Option<i32>>,
        c2: Seq<Option<PathNode>>,
        l2: Seq<Option<i32>>,
    )
        requires
            self.wf(),
            c1.len() == self.rows * self.cols,
            l1.len() == self.rows * self.cols,
            grows_from(c2, c1),
            grows_from(l2, l1),
        ensures
            forall|pn: PathNode| #[trigger]
                self.record_ok(start, c1, l1, pn) ==> self.record_ok(start, c2, l2, pn),
    {
        assert forall|pn: PathNode| #[trigger]
            self.record_ok(start, c1, l1, pn) implies self.record_ok(start, c2, l2, pn) by {
            lemma_flat(pn.index, pn.index, self.rows, self.cols);
            assert(l1[flat(pn.index, self.cols)] is Some);
            if let Some(p) = pn.parent {
                lemma_flat(p, p, self.rows, self.cols);
                assert(c1[flat(p, self.cols)] is Some);
                assert(l1[flat(p, self.cols)] is Some);
            }
        }
    }

    /// No walk from `start` reaches `goal` when every cell that has a cost is
    /// expanded, every move out of an expanded cell leads to a cell that has
    /// a cost, `start` has one and `goal` is not expanded.
    proof fn lemma_no_walk(
        &self,
        start: Coordinates,
        goal: Coordinates,
        closed: Seq<Option<PathNode>>,
        lookup: Seq<Option<i32>>,
    )
        requires
            self.wf(),
            closed.len() == self.rows * self.cols,
            lookup.len() == self.rows * self.cols,
            forall|c: Coordinates|
                self.holds(c) && (#[trigger] lookup[flat(c, self.cols)]) is Some
                    ==> closed[flat(c, self.cols)] is Some,
            self.closure_ok(closed, lookup, None),
            self.holds(start),
            lookup[flat(start, self.cols)] is Some,
            closed[flat(goal, self.cols)] is None,
        ensures
            !self.reachable(start, goal),
    {
        reveal(Matrix::closure_ok);
        if self.reachable(start, goal) {
            let p = choose|p: Seq<Coordinates>| self.walk_between(p, start, goal);
            self.lemma_walk_stays_closed(p, p.len() - 1, closed, lookup);
        }
    }

    proof fn lemma_walk_stays_closed(
        &self,
        p: Seq<Coordinates>,
        k: int,
        closed: Seq<Option<PathNode>>,
        lookup: Seq<Option<i32>>,
    )
        requires
            self.wf(),
            self.is_walk(p),
            0 <= k < p.len(),
            forall|c: Coordinates|
                self.holds(c) && (#[trigger] lookup[flat(c, self.cols)]) is Some
                    ==> closed[flat(c, self.cols)] is Some,
            self.closure_ok(closed, lookup, None),
            lookup[flat(p[0], self.cols)] is Some,
        ensures
            closed[flat(p[k], self.cols)] is Some,
        decreases k,
    {
        reveal(Matrix::closure_ok);
        assert(self.holds(p[k]));
        if k > 0 {
            self.lemma_walk_stays_closed(p, k - 1, closed, lookup);
            assert(self.holds(p[k - 1]));
            assert(self.adjacent(p[k - 1], p[k - 1 + 1]));
        }
    }

    /// Moving the frontier record `open0[k]` to the expanded cells keeps the
    /// invariants of the search, but for the moves out of that cell.
    proof fn lemma_close(
        &self,
        start: Coordinates,
        open0: Seq<PathNode>,
        k: int,
        closed0: Seq<Option<PathNode>>,
        open: Seq<PathNode>,
        closed: Seq<Option<PathNode>>,
        lookup: Seq<Option<i32>>,
    )
        requires
            self.wf(),
            closed0.len() == self.rows * self.cols,
            lookup.len() == self.rows * self.cols,
            self.frontier_ok(start, open0, closed0, lookup),
            0 <= k < open0.len(),
            open == open0.remove(k),
            closed == closed0.update(flat(open0[k].index, self.cols), Some(open0[k])),
            self.closed_ok(start, closed0, lookup),
            self.seen_ok(open0, closed0, lookup),
            self.closure_ok(closed0, lookup, None),
            count_none(closed) + 1 == count_none(closed0),
        ensures
            self.closed_ok(start, closed, lookup),
            self.frontier_ok(start, open, closed, lookup),
            self.seen_ok(open, closed, lookup),
            self.closure_ok(closed, lookup, Some(open0[k].index)),
            lookup[flat(open0[k].index, self.cols)] is Some,
            lookup[flat(open0[k].index, self.cols)]->0 + count_none(closed) < self.rows * self.cols,
    {
        self.lemma_close_closed(start, open0, k, closed0, open, closed, lookup);
        self.lemma_close_frontier(start, open0, k, closed0, open, closed, lookup);
        self.lemma_close_seen(start, open0, k, closed0, open, closed, lookup);
        self.lemma_close_closure(start, open0, k, closed0, open, closed, lookup);
    }

    proof fn lemma_close_closed(
        &self,
        start: Coordinates,
        open0: Seq<PathNode>,
        k: int,
        closed0: Seq<Option<PathNode>>,
        open: Seq<PathNode>,
        closed: Seq<Option<PathNode>>,
        lookup: Seq<Option<i32>>,
    )
        requires
            self.wf(),
            closed0.len() == self.rows * self.cols,
            lookup.len() == self.rows * self.cols,
            self.frontier_ok(start, open0, closed0, lookup),
            0 <= k < open0.len(),
            open == open0.remove(k),
            closed == closed0.update(flat(open0[k].index, self.cols), Some(open0[k])),
            self.closed_ok(start, closed0, lookup),
        ensures
            self.closed_ok(start, closed, lookup),
    {
        let current = open0[k];
        reveal(Matrix::frontier_ok);
        assert(self.record_ok(start, closed0, lookup, open0[k]));
        lemma_flat(current.index, current.index, self.rows, self.cols);
        reveal(Matrix::closed_ok);
        self.lemma_record_ok_grows(start, closed0, lookup, closed, lookup);
        assert forall|c: Coordinates|
            self.holds(c) && (#[trigger] closed[flat(c, self.cols)]) is Some implies {
            &&& closed[flat(c, self.cols)]->0.index == c
            &&& self.record_ok(start, closed, lookup, closed[flat(c, self.cols)]->0)
        } by {
            lemma_flat(c, current.index, self.rows, self.cols);
            if c != current.index {
                assert(closed0[flat(c, self.cols)] is Some);
                assert(self.record_ok(start, closed0, lookup, closed0[flat(c, self.cols)]->0));
            }
        }
    }

    proof fn lemma_close_frontier(
        &self,
        start: Coordinates,
        open0: Seq<PathNode>,
        k: int,
        closed0: Seq<Option<PathNode>>,
        open: Seq<PathNode>,
        closed: Seq<Option<PathNode>>,
        lookup: Seq<Option<i32>>,
    )
        requires
            self.wf(),
            closed0.len() == self.rows * self.cols,
            lookup.len() == self.rows * self.cols,
            self.frontier_ok(start, open0, closed0, lookup),
            0 <= k < open0.len(),
            open == open0.remove(k),
            closed == closed0.update(flat(open0[k].index, self.cols), Some(open0[k])),
        ensures
            self.frontier_ok(start, open, closed, lookup),
    {
        let current = open0[k];
        reveal(Matrix::frontier_ok);
        assert(self.record_ok(start, closed0, lookup, open0[k]));
        lemma_flat(current.index, current.index, self.rows, self.cols);
        self.lemma_record_ok_grows(start, closed0, lookup, closed, lookup);
        assert forall|q: int| 0 <= q < open.len() implies self.record_ok(
            start,
            closed,
            lookup,
            #[trigger] open[q],
        ) && closed[flat(open[q].index, self.cols)] is None by {
            let q0 = if q < k {
                q
            } else {
                q + 1
            };
            assert(open[q] == open0[q0]);
            assert(self.record_ok(start, closed0, lookup, open0[q0]));
            assert(open0[q0].index != open0[k].index);
            lemma_flat(open0[q0].index, current.index, self.rows, self.cols);
        }
        assert forall|q: int, j: int| 0 <= q < j < open.len() implies open[q].index
            != open[j].index by {
            let q0 = if q < k {
                q
            } else {
                q + 1
            };
            let j0 = if j < k {
                j
            } else {
                j + 1
            };
            assert(open[q] == open0[q0]);
            assert(open[j] == open0[j0]);
        }
    }

    proof fn lemma_close_seen(
        &self,
        start: Coordinates,
        open0: Seq<PathNode>,
        k: int,
        closed0: Seq<Option<PathNode>>,
        open: Seq<PathNode>,
        closed: Seq<Option<PathNode>>,
        lookup: Seq<Option<i32>>,
    )
        requires
            self.wf(),
            closed0.len() == self.rows * self.cols,
            lookup.len() == self.rows * self.cols,
            self.frontier_ok(start, open0, closed0, lookup),
            0 <= k < open0.len(),
            open == open0.remove(k),
            closed == closed0.update(flat(open0[k].index, self.cols), Some(open0[k])),
            self.seen_ok(open0, closed0, lookup),
            count_none(closed) + 1 == count_none(closed0),
        ensures
            self.seen_ok(open, closed, lookup),
            lookup[flat(open0[k].index, self.cols)] is Some,
            lookup[flat(open0[k].index, self.cols)]->0 + count_none(closed) < self.rows * self.cols,
    {
        let current = open0[k];
        reveal(Matrix::frontier_ok);
        assert(self.record_ok(start, closed0, lookup, open0[k]));
        lemma_flat(current.index, current.index, self.rows, self.cols);
        reveal(Matrix::seen_ok);
        let n = self.rows * self.cols;
        assert forall|c: Coordinates|
            self.holds(c) && (#[trigger] lookup[flat(c, self.cols)]) is Some implies {
            &&& 0 <= lookup[flat(c, self.cols)]->0 <= n - count_none(closed)
            &&& (closed[flat(c, self.cols)] is Some || exists|q: int|
                0 <= q < open.len() && open[q].index == c)
        } by {
            lemma_flat(c, current.index, self.rows, self.cols);
            if c != current.index && closed0[flat(c, self.cols)] is None {
                let q0 = choose|q: int| 0 <= q < open0.len() && open0[q].index == c;
                let q = if q0 < k {
                    q0
                } else {
                    q0 - 1
                };
                assert(open[q] == open0[q0]);
            }
        }
    }

    proof fn lemma_close_closure(
        &self,
        start: Coordinates,
        open0: Seq<PathNode>,
        k: int,
        closed0: Seq<Option<PathNode>>,
        open: Seq<PathNode>,
        closed: Seq<Option<PathNode>>,
        lookup: Seq<Option<i32>>,
    )
        requires
            self.wf(),
            closed0.len() == self.rows * self.cols,
            lookup.len() == self.rows * self.cols,
            self.frontier_ok(start, open0, closed0, lookup),
            0 <= k < open0.len(),
            open == open0.remove(k),
            closed == closed0.update(flat(open0[k].index, self.cols), Some(open0[k])),
            self.closure_ok(closed0, lookup, None),
        ensures
            self.closure_ok(closed, lookup, Some(open0[k].index)),
    {
        let current = open0[k];
        reveal(Matrix::frontier_ok);
        assert(self.record_ok(start, closed0, lookup, open0[k]));
        lemma_flat(current.index, current.index, self.rows, self.cols);
        reveal(Matrix::closure_ok);
        assert forall|c: Coordinates, d: Coordinates|
            self.holds(c) && (#[trigger] closed[flat(c, self.cols)]) is Some && Some(current.index)
                != Some(c) && #[trigger] self.adjacent(c, d) implies lookup[flat(
            d,
            self.cols,
        )] is Some by {
            lemma_flat(c, current.index, self.rows, self.cols);
            assert(closed0[flat(c, self.cols)] is Some);
        }
    }

    /// The record of the cell at position `j` of `r`, a path that ends at
    /// `node`: `node` itself at the last position, else the expanded record.
    pub open spec fn chain_record(
        closed: Seq<Option<PathNode>>,
        cols: usize,
        node: PathNode,
        r: Seq<Coordinates>,
        j: int,
    ) -> PathNode {
        if j == r.len() - 1 {
            node
        } else {
            closed[flat(r[j], cols)]->0
        }
    }

    /// The walk that the parents lead along, from `start` to `node`: each
    /// cell is the parent of the next as recorded in `closed`, the first has
    /// no parent, every cell but the last is expanded, and no cell repeats.
    fn to_path(
        &self,
        node: PathNode,
        closed: &Vec<Option<PathNode>>,
        Ghost(start): Ghost<Coordinates>,
        Ghost(lookup): Ghost<Seq<Option<i32>>>,
    ) -> (r: Vec<Coordinates>)
        requires
            self.wf(),
            closed@.len() == self.rows * self.cols,
            lookup.len() == self.rows * self.cols,
            self.closed_ok(start, closed@, lookup),
            self.record_ok(start, closed@, lookup, node),
        ensures
            self.walk_between(r@, start, node.index),
            node.parent is None ==> r@ == seq![node.index],
            forall|j: int|
                0 <= j < r@.len() ==> (#[trigger] Self::chain_record(
                    closed@,
                    self.cols,
                    node,
                    r@,
                    j,
                )).index == r@[j],
            Self::chain_record(closed@, self.cols, node, r@, 0).parent is None,
            forall|j: int|
                1 <= j < r@.len() ==> (#[trigger] Self::chain_record(
                    closed@,
                    self.cols,
                    node,
                    r@,
                    j,
                )).parent == Some(r@[j - 1]),
            forall|j: int| 0 <= j < r@.len() - 1 ==> closed@[flat(#[trigger] r@[j], self.cols)] is Some,
            forall|i: int, j: int| 0 <= i < j < r@.len() ==> r@[i] != r@[j],
    {
        let mut path = vec![node.index];
        let mut current = node;
        proof {
            reveal(Matrix::chain_ok);
            assert(self.record_ok(start, closed@, lookup, node));
        }

        while current.parent.is_some()
            invariant
                self.wf(),
                closed@.len() == self.rows * self.cols,
                lookup.len() == self.rows * self.cols,
                self.closed_ok(start, closed@, lookup),
                self.record_ok(start, closed@, lookup, current),
                self.walk_between(path@, current.index, node.index),
                node.parent is None ==> current == node && path@ == seq![node.index],
                path@.len() == 1 ==> current == node,
                path@.len() > 1 ==> current == closed@[flat(path@[0], self.cols)]->0,
                self.chain_ok(closed@, lookup, node, path@),
            decreases lookup[flat(current.index, self.cols)]->0,
        {
            proof {
                reveal(Matrix::closed_ok);
            }
            let parent = current.parent.unwrap();
            let i = self.flat_index(parent);
            let ghost old_path = path@;
            let ghost old_current = current;
            current = closed[i].unwrap();
            path.insert(0, current.index);
            proof {
                let p = path@;
                assert(p[0] == parent);
                assert(p =~= seq![parent] + old_path);
                assert forall|k: int| 0 <= k < p.len() - 1 implies #[trigger] self.adjacent(
                    p[k],
                    p[k + 1],
                ) by {
                    if k > 0 {
                        assert(p[k] == old_path[k - 1]);
                        assert(p[k + 1] == old_path[k]);
                        assert(self.adjacent(old_path[k - 1], old_path[(k - 1) + 1]));
                    } else {
                        assert(p[1] == old_path[0]);
                        assert(self.adjacent(parent, old_current.index));
                    }
                }
                self.lemma_chain_extend(closed@, lookup, node, old_path, old_current, parent);
            }
        }
        proof {
            reveal(Matrix::chain_ok);
            assert forall|i: int, j: int| 0 <= i < j < path@.len() implies path@[i] != path@[j] by {
                assert(lookup[flat(path@[i], self.cols)]->0 < lookup[flat(path@[j], self.cols)]->0);
            }
        }
        path
    }

    /// The facts about a path read back along parents from `node`.
    #[verifier::opaque]
    spec fn chain_ok(
        &self,
        closed: Seq<Option<PathNode>>,
        lookup: Seq<Option<i32>>,
        node: PathNode,
        path: Seq<Coordinates>,
    ) -> bool {
        &&& forall|j: int|
            0 <= j < path.len() ==> (#[trigger] Self::chain_record(closed, self.cols, node, path, j)).index
                == path[j]
        &&& forall|j: int|
            1 <= j < path.len() ==> (#[trigger] Self::chain_record(closed, self.cols, node, path, j)).parent
                == Some(path[j - 1])
        &&& forall|j: int| 0 <= j < path.len() - 1 ==> closed[flat(#[trigger] path[j], self.cols)] is Some
        &&& forall|j: int| 0 <= j < path.len() ==> lookup[flat(#[trigger] path[j], self.cols)] is Some
        &&& forall|i: int, j: int|
            0 <= i < j < path.len() ==> lookup[flat(path[i], self.cols)]->0 < lookup[flat(
                path[j],
                self.cols,
            )]->0
    }

    /// Putting the parent of the first cell in front keeps the chain facts.
    proof fn lemma_chain_extend(
        &self,
        closed: Seq<Option<PathNode>>,
        lookup: Seq<Option<i32>>,
        node: PathNode,
        path: Seq<Coordinates>,
        current: PathNode,
        parent: Coordinates,
    )
        requires
            self.wf(),
            closed.len() == self.rows * self.cols,
            lookup.len() == self.rows * self.cols,
            self.chain_ok(closed, lookup, node, path),
            path.len() >= 1,
            path[0] == current.index,
            path.len() == 1 ==> current == node,
            path.len() > 1 ==> current == closed[flat(path[0], self.cols)]->0,
            current.parent == Some(parent),
            self.holds(parent),
            closed[flat(parent, self.cols)] is Some,
            closed[flat(parent, self.cols)]->0.index == parent,
            lookup[flat(parent, self.cols)] is Some,
            lookup[flat(current.index, self.cols)] is Some,
            lookup[flat(parent, self.cols)]->0 < lookup[flat(current.index, self.cols)]->0,
        ensures
            self.chain_ok(closed, lookup, node, seq![parent] + path),
    {
        reveal(Matrix::chain_ok);
        let p = seq![parent] + path;
        assert forall|j: int| 1 <= j < p.len() implies Self::chain_record(
            closed,
            self.cols,
            node,
            p,
            j,
        ) == Self::chain_record(closed, self.cols, node, path, j - 1) by {
            assert(p[j] == path[j - 1]);
        }
        assert(Self::chain_record(closed, self.cols, node, path, 0) == current);
        assert forall|j: int| 0 <= j < p.len() implies (#[trigger] Self::chain_record(
            closed,
            self.cols,
            node,
            p,
            j,
        )).index == p[j] by {
            if j > 0 {
                assert(Self::chain_record(closed, self.cols, node, path, j - 1).index == path[j - 1]);
            }
        }
        assert forall|j: int| 1 <= j < p.len() implies (#[trigger] Self::chain_record(
            closed,
            self.cols,
            node,
            p,
            j,
        )).parent == Some(p[j - 1]) by {
            if j > 1 {
                assert(Self::chain_record(closed, self.cols, node, path, j - 1).parent == Some(
                    path[j - 2],
                ));
            }
        }
        assert forall|j: int| 0 <= j < p.len() - 1 implies closed[flat(
            #[trigger] p[j],
            self.cols,
        )] is Some by {
            if j > 0 {
                assert(p[j] == path[j - 1]);
            }
        }
        assert forall|j: int| 0 <= j < p.len() implies lookup[flat(
            #[trigger] p[j],
            self.cols,
        )] is Some by {
            if j > 0 {
                assert(p[j] == path[j - 1]);
            }
        }
        assert forall|a: int, b: int| 0 <= a < b < p.len() implies lookup[flat(
            p[a],
            self.cols,
        )]->0 < lookup[flat(p[b], self.cols)]->0 by {
            assert(p[b] == path[b - 1]);
            if a > 0 {
                assert(p[a] == path[a - 1]);
            } else if b > 1 {
                assert(lookup[flat(path[0], self.cols)]->0 < lookup[flat(
                    path[b - 1],
                    self.cols,
                )]->0);
            }
        }
    }

    /// The first of the records with the lowest `f`.
    fn best_index(open: &Vec<PathNode>) -> (k: usize)
        requires
            open@.len() > 0,
        ensures
            k < open@.len(),
            forall|j: int| 0 <= j < open@.len() ==> open@[k as int].f <= #[trigger] open@[j].f,
    {
        let mut k: usize = 0;
        let mut j: usize = 1;
        while j < open.len()
            invariant
                0 <= k < j <= open@.len(),
                forall|i: int| 0 <= i < j ==> open@[k as int].f <= #[trigger] open@[i].f,
            decreases open@.len() - j,
        {
            if open[j].f < open[k].f {
                k = j;
            }
            j = j + 1;
        }
        k
    }

    /// Whether `t` is an end of one of the first `n` entanglements and is
    /// not expanded.
    spec fn open_end(&self, closed: Seq<Option<PathNode>>, n: int, t: Coordinates) -> bool {
        &&& closed[flat(t, self.cols)] is None
        &&& exists|j: int|
            0 <= j < n && (#[trigger] self.entanglements@[j].0 == t || self.entanglements@[j].1
                == t)
    }

    /// The cell the estimate from `from` is taken to: the nearest end of an
    /// entanglement that is not expanded yet, by the heuristic, or `goal`
    /// if there is none.
    fn select_target<H>(
        &self,
        from: Coordinates,
        goal: Coordinates,
        closed: &Vec<Option<PathNode>>,
        heuristic: &H,
    ) -> (t: Coordinates) where H: Fn(&Coordinates, &Coordinates) -> i32
        requires
            self.wf(),
            self.holds(from),
            self.holds(goal),
            closed@.len() == self.rows * self.cols,
            forall|a: Coordinates, b: Coordinates|
                self.holds(a) && self.holds(b) ==> #[trigger] heuristic.requires((&a, &b)),
        ensures
            self.holds(t),
            t == goal || self.open_end(closed@, self.entanglements@.len() as int, t),
            (forall|c: Coordinates| !self.open_end(closed@, self.entanglements@.len() as int, c))
                ==> t == goal,
    {
        let mut target = goal;
        let mut best: Option<i32> = None;
        let mut e: usize = 0;
        while e < self.entanglements.len()
            invariant
                self.wf(),
                self.holds(from),
                self.holds(target),
                closed@.len() == self.rows * self.cols,
                forall|a: Coordinates, b: Coordinates|
                    self.holds(a) && self.holds(b) ==> #[trigger] heuristic.requires((&a, &b)),
                e <= self.entanglements@.len(),
                best is None ==> target == goal,
                best is None ==> forall|c: Coordinates| !self.open_end(closed@, e as int, c),
                best is Some ==> self.open_end(closed@, e as int, target),
            decreases self.entanglements@.len() - e,
        {
            let link = self.entanglements[e];
            assert(self.holds(link.0) && self.holds(link.1));
            let ends = [link.0, link.1];
            let mut s: usize = 0;
            while s < 2
                invariant
                    self.wf(),
                    self.holds(from),
                    self.holds(target),
                    self.holds(ends@[0]),
                    self.holds(ends@[1]),
                    ends@ == seq![link.0, link.1],
                    link == self.entanglements@[e as int],
                    e < self.entanglements@.len(),
                    closed@.len() == self.rows * self.cols,
                    forall|a: Coordinates, b: Coordinates|
                        self.holds(a) && self.holds(b) ==> #[trigger] heuristic.requires((&a, &b)),
                    s <= 2,
                    best is None ==> target == goal,
                    best is None ==> forall|c: Coordinates| !self.open_end(closed@, e as int, c),
                    best is None ==> forall|t: int|
                        0 <= t < s ==> closed@[flat(#[trigger] ends@[t], self.cols)] is Some,
                    best is Some ==> self.open_end(closed@, e + 1, target),
                decreases 2 - s,
            {
                let end = ends[s];
                let i = self.flat_index(end);
                if closed[i].is_none() {
                    let d = heuristic(&from, &end);
                    let nearer = match best {
                        Some(b) => d < b,
                        None => true,
                    };
                    if nearer {
                        best = Some(d);
                        target = end;
                        assert(self.entanglements@[e as int].0 == target
                            || self.entanglements@[e as int].1 == target);
                    }
                }
                s = s + 1;
            }
            proof {
                let n1: int = e + 1;
                if best is None {
                    assert forall|c: Coordinates| !#[trigger] self.open_end(closed@, n1, c) by {
                        if self.open_end(closed@, n1, c) {
                            let j = choose|j: int|
                                0 <= j < e + 1 && (#[trigger] self.entanglements@[j].0 == c
                                    || self.entanglements@[j].1 == c);
                            if j < e {
                                assert(self.open_end(closed@, e as int, c));
                            } else {
                                assert(ends@[0] == c || ends@[1] == c);
                            }
                        }
                    }
                } else {
                    let j = choose|j: int|
                        0 <= j < e + 1 && (#[trigger] self.entanglements@[j].0 == target
                            || self.entanglements@[j].1 == target);
                }
            }
            e = e + 1;
        }
        target
    }
}

/// Removes the records for cell `index`, keeping the others in order.
fn drop_cell(open: &mut Vec<PathNode>, index: &Coordinates)
    ensures
        forall|k: int|
            0 <= k < final(open)@.len() ==> (#[trigger] final(open)@[k]).index != *index
                && old(open)@.contains(final(open)@[k]),
{
    let mut kept: Vec<PathNode> = Vec::new();
    let mut q: usize = 0;
    while q < open.len()
        invariant
            q <= open@.len(),
            forall|k: int|
                0 <= k < kept@.len() ==> (#[trigger] kept@[k]).index != *index && open@.contains(
                    kept@[k],
                ),
        decreases open@.len() - q,
    {
        if !same_cell(&open[q].index, index) {
            kept.push(open[q]);
        }
        q = q + 1;
    }
    *open = kept;
}

/// `path` followed by `rest`.
fn concat(path: Vec<Coordinates>, rest: &Vec<Coordinates>) -> (r: Vec<Coordinates>)
    ensures
        r@ == path@ + rest@,
{
    let mut r = path;
    let ghost head = r@;
    let mut i: usize = 0;
    while i < rest.len()
        invariant
            i <= rest@.len(),
            r@ == head + rest@.subrange(0, i as int),
        decreases rest@.len() - i,
    {
        r.push(rest[i]);
        i = i + 1;
    }
    assert(rest@.subrange(0, rest@.len() as int) =~= rest@);
    r
}

impl Matrix<Node> {
    /// Gives `index`, one move from the expanded cell `current`, a cost and
    /// a frontier record if it has no cost yet.
    #[verifier::rlimit(60)]
    fn relax<H>(
        &self,
        start: Coordinates,
        goal: Coordinates,
        current: PathNode,
        g_score_self: i32,
        index: Coordinates,
        closed: &Vec<Option<PathNode>>,
        lookup: &mut Vec<Option<i32>>,
        open: &mut Vec<PathNode>,
        heuristic: &H,
    ) where H: Fn(&Coordinates, &Coordinates) -> i32
        requires
            self.wf(),
            self.rows * self.cols <= MAX_CELLS,
            self.holds(goal),
            forall|a: Coordinates, b: Coordinates|
                self.holds(a) && self.holds(b) ==> #[trigger] heuristic.requires((&a, &b)),
            forall|a: Coordinates, b: Coordinates, h: i32|
                self.holds(a) && self.holds(b) && #[trigger] heuristic.ensures((&a, &b), h)
                    ==> 0 <= h <= MAX_ESTIMATE,
            closed@.len() == self.rows * self.cols,
            old(lookup)@.len() == self.rows * self.cols,
            self.closed_ok(start, closed@, old(lookup)@),
            self.holds(current.index),
            closed@[flat(current.index, self.cols)] == Some(current),
            old(lookup)@[flat(current.index, self.cols)] == Some(g_score_self),
            0 <= g_score_self,
            g_score_self + count_none(closed@) < self.rows * self.cols,
            self.adjacent(current.index, index),
            self.frontier_ok(start, old(open)@, closed@, old(lookup)@),
            self.seen_ok(old(open)@, closed@, old(lookup)@),
        ensures
            self.closed_ok(start, closed@, final(lookup)@),
            self.frontier_ok(start, final(open)@, closed@, final(lookup)@),
            self.seen_ok(final(open)@, closed@, final(lookup)@),
            grows_from(final(lookup)@, old(lookup)@),
            final(lookup)@[flat(index, self.cols)] is Some,
    {
        proof {
            reveal(Matrix::closed_ok);
            reveal(Matrix::frontier_ok);
            reveal(Matrix::seen_ok);
            reveal(Matrix::closure_ok);
            lemma_adjacent_holds(self, current.index, index);
            lemma_flat(index, current.index, self.rows, self.cols);
            lemma_flat(current.index, index, self.rows, self.cols);
        }
        let ni = self.flat_index(index);
        if closed[ni].is_none() {
            let visited = lookup[ni];
            let g_score_n = match visited {
                Some(g) => g,
                None => WEIGHT,
            };
            let g = g_score_self + g_score_n;

            if visited.is_none() || g < g_score_n {
                let target = self.select_target(index, goal, closed, heuristic);
                let h = heuristic(&index, &target);
                let path_node = PathNode { index, parent: Some(current.index), f: g + h, h, g };

                if visited.is_some() {
                    drop_cell(open, &index);
                }
                let ghost open1 = open@;
                let ghost lookup1 = lookup@;
                open.push(path_node);
                lookup.set(ni, Some(g));
                proof {
                    self.lemma_record_ok_grows(start, closed@, lookup1, closed@, lookup@);
                    assert(ni != flat(current.index, self.cols));
                    assert(visited is None);
                    assert(g == g_score_self + 1);
                    assert(lookup@[flat(current.index, self.cols)] == Some(g_score_self));
                    assert(lookup@[flat(index, self.cols)] == Some(g));
                    assert(self.record_ok(start, closed@, lookup@, path_node));
                    assert forall|c: Coordinates|
                        self.holds(c) && (#[trigger] closed@[flat(c, self.cols)]) is Some implies {
                        &&& closed@[flat(c, self.cols)]->0.index == c
                        &&& self.record_ok(start, closed@, lookup@, closed@[flat(c, self.cols)]->0)
                    } by {
                        assert(self.record_ok(start, closed@, lookup1, closed@[flat(c, self.cols)]->0));
                    }
                    assert forall|q: int| 0 <= q < open@.len() implies self.record_ok(
                        start,
                        closed@,
                        lookup@,
                        #[trigger] open@[q],
                    ) && closed@[flat(open@[q].index, self.cols)] is None by {
                        if q < open1.len() {
                            assert(open@[q] == open1[q]);
                            assert(self.record_ok(start, closed@, lookup1, open1[q]));
                        }
                    }
                    assert forall|q: int, k: int|
                        0 <= q < k < open@.len() implies open@[q].index != open@[k].index by {
                        if k == open1.len() {
                            assert(self.record_ok(start, closed@, lookup1, open1[q]));
                            lemma_flat(open1[q].index, index, self.rows, self.cols);
                        }
                    }
                    assert forall|c: Coordinates|
                        self.holds(c) && (#[trigger] lookup@[flat(c, self.cols)]) is Some implies {
                        &&& 0 <= lookup@[flat(c, self.cols)]->0 <= self.rows * self.cols - count_none(
                            closed@,
                        )
                        &&& (closed@[flat(c, self.cols)] is Some || exists|q: int|
                            0 <= q < open@.len() && open@[q].index == c)
                    } by {
                        lemma_flat(c, index, self.rows, self.cols);
                        if c == index {
                            assert(open@[open@.len() - 1].index == c);
                        } else {
                            assert(lookup1[flat(c, self.cols)] is Some);
                            if closed@[flat(c, self.cols)] is None {
                                let q = choose|q: int|
                                    0 <= q < open1.len() && open1[q].index == c;
                                assert(open@[q].index == c);
                            }
                        }
                    }
                }
            }
        } else {
            proof {
                assert(self.record_ok(start, closed@, lookup@, closed@[flat(index, self.cols)]->0));
            }
        }
    }

    /// Gives a cost to every cell one move from the expanded cell `current`.
    #[verifier::rlimit(60)]
    fn expand<H>(
        &self,
        start: Coordinates,
        goal: Coordinates,
        current: PathNode,
        closed: &Vec<Option<PathNode>>,
        lookup: &mut Vec<Option<i32>>,
        open: &mut Vec<PathNode>,
        heuristic: &H,
    ) where H: Fn(&Coordinates, &Coordinates) -> i32
        requires
            self.wf(),
            self.rows * self.cols <= MAX_CELLS,
            self.holds(goal),
            forall|a: Coordinates, b: Coordinates|
                self.holds(a) && self.holds(b) ==> #[trigger] heuristic.requires((&a, &b)),
            forall|a: Coordinates, b: Coordinates, h: i32|
                self.holds(a) && self.holds(b) && #[trigger] heuristic.ensures((&a, &b), h)
                    ==> 0 <= h <= MAX_ESTIMATE,
            closed@.len() == self.rows * self.cols,
            old(lookup)@.len() == self.rows * self.cols,
            self.closed_ok(start, closed@, old(lookup)@),
            self.holds(current.index),
            closed@[flat(current.index, self.cols)] == Some(current),
            old(lookup)@[flat(current.index, self.cols)] is Some,
            old(lookup)@[flat(current.index, self.cols)]->0 + count_none(closed@) < self.rows
                * self.cols,
            self.frontier_ok(start, old(open)@, closed@, old(lookup)@),
            self.seen_ok(old(open)@, closed@, old(lookup)@),
            self.closure_ok(closed@, old(lookup)@, Some(current.index)),
        ensures
            self.closed_ok(start, closed@, final(lookup)@),
            self.frontier_ok(start, final(open)@, closed@, final(lookup)@),
            self.seen_ok(final(open)@, closed@, final(lookup)@),
            self.closure_ok(closed@, final(lookup)@, None),
            grows_from(final(lookup)@, old(lookup)@),
    {
        let ci = self.flat_index(current.index);
        let g_score_self = match lookup[ci] {
            Some(g) => g,
            None => WEIGHT,
        };
        let neighbours = self.nearest_neighbours(&current.index);
        let ghost lookup0 = lookup@;
        proof {
            reveal(Matrix::seen_ok);
            lemma_flat(current.index, current.index, self.rows, self.cols);
            self.lemma_record_ok_grows(start, closed@, lookup0, closed@, lookup0);
        }
        let mut j: usize = 0;
        while j < neighbours.len()
            invariant
                self.wf(),
                self.rows * self.cols <= MAX_CELLS,
                self.holds(goal),
            forall|a: Coordinates, b: Coordinates|
                self.holds(a) && self.holds(b) ==> #[trigger] heuristic.requires((&a, &b)),
            forall|a: Coordinates, b: Coordinates, h: i32|
                self.holds(a) && self.holds(b) && #[trigger] heuristic.ensures((&a, &b), h)
                    ==> 0 <= h <= MAX_ESTIMATE,
                closed@.len() == self.rows * self.cols,
                lookup@.len() == self.rows * self.cols,
                self.closed_ok(start, closed@, lookup@),
                self.holds(current.index),
                ci == flat(current.index, self.cols),
                ci < self.rows * self.cols,
                closed@[ci as int] == Some(current),
                lookup@[ci as int] == Some(g_score_self),
                0 <= g_score_self,
                g_score_self + count_none(closed@) < self.rows * self.cols,
                self.frontier_ok(start, open@, closed@, lookup@),
                self.seen_ok(open@, closed@, lookup@),
                self.closure_ok(closed@, lookup0, Some(current.index)),
                grows_from(lookup@, lookup0),
                forall|b: Coordinates| #[trigger]
                    lists(neighbours@, b) <==> self.adjacent(current.index, b),
                j <= neighbours@.len(),
                forall|i: int|
                    0 <= i < j && (#[trigger] neighbours@[i]) is Some ==> lookup@[flat(
                        neighbours@[i]->0,
                        self.cols,
                    )] is Some,
            decreases neighbours@.len() - j,
        {
            if let Some(index) = neighbours[j] {
                assert(lists(neighbours@, index));
                let ghost lookup1 = lookup@;
                self.relax(
                    start,
                    goal,
                    current,
                    g_score_self,
                    index,
                    closed,
                    lookup,
                    open,
                    heuristic,
                );
                proof {
                    assert(lookup1[ci as int] is Some);
                    assert forall|i: int|
                        0 <= i < j + 1 && (#[trigger] neighbours@[i]) is Some implies lookup@[flat(
                            neighbours@[i]->0,
                            self.cols,
                        )] is Some by {
                        if i < j {
                            let d = neighbours@[i]->0;
                            assert(lists(neighbours@, d));
                            lemma_adjacent_holds(self, current.index, d);
                            lemma_flat(d, d, self.rows, self.cols);
                            assert(lookup1[flat(d, self.cols)] is Some);
                        }
                    }
                    assert forall|i: int|
                        0 <= i < lookup0.len() && (#[trigger] lookup0[i]) is Some implies lookup@[i]
                        == lookup0[i] by {
                        assert(lookup1[i] == lookup0[i]);
                    }
                }
            }
            j = j + 1;
        }
        proof {
            reveal(Matrix::closure_ok);
            assert forall|c: Coordinates, d: Coordinates|
                self.holds(c) && (#[trigger] closed@[flat(c, self.cols)]) is Some && None::<
                    Coordinates,
                > != Some(c) && #[trigger] self.adjacent(c, d) implies lookup@[flat(
                d,
                self.cols,
            )] is Some by {
                lemma_adjacent_holds(self, c, d);
                lemma_flat(d, d, self.rows, self.cols);
                if c == current.index {
                    assert(lists(neighbours@, d));
                    let i = choose|i: int| 0 <= i < neighbours@.len() && neighbours@[i] == Some(d);
                    assert(neighbours@[i] is Some);
                } else {
                    assert(lookup0[flat(d, self.cols)] is Some);
                }
            }
        }
    }
}

/// A* search over a grid.
pub trait AStar {
    /// Whether `c` is a cell a search may start or end at.
    spec fn search_cell(&self, c: Coordinates) -> bool;

    /// Whether the grid can be searched.
    spec fn searchable(&self) -> bool;

    fn astar<H>(
        &self,
        start: Coordinates,
        goal: Coordinates,
        heuristic: H,
        partial_paths: Option<&PartialPaths>,
    ) -> Option<Vec<Coordinates>> where H: Fn(&Coordinates, &Coordinates) -> i32
        requires
            self.searchable(),
            self.search_cell(start),
            self.search_cell(goal),
            forall|a: Coordinates, b: Coordinates|
                self.search_cell(a) && self.search_cell(b) ==> #[trigger] heuristic.requires(
                    (&a, &b),
                ),
            forall|a: Coordinates, b: Coordinates, h: i32|
                self.search_cell(a) && self.search_cell(b) && #[trigger] heuristic.ensures(
                    (&a, &b),
                    h,
                ) ==> 0 <= h <= MAX_ESTIMATE,
            partial_paths matches Some(pp) ==> pp.wf(),
    ;
}

impl AStar for Matrix<Node> {
    open spec fn search_cell(&self, c: Coordinates) -> bool {
        self.holds(c)
    }

    open spec fn searchable(&self) -> bool {
        self.wf() && self.rows * self.cols <= MAX_CELLS
    }

    /// Searches for a walk from `start` to `goal`, each move costing one.
    /// The heuristic is taken to the nearest entanglement end not expanded
    /// yet, else to `goal`. Where `partial_paths` is given, the search stops
    /// at the first expanded cell that is one of its keys and returns the
    /// walk to it followed by the path recorded for it.
    #[verifier::rlimit(100)]
    fn astar<H>(
        &self,
        start: Coordinates,
        goal: Coordinates,
        heuristic: H,
        partial_paths: Option<&PartialPaths>,
    ) -> (r: Option<Vec<Coordinates>>) where H: Fn(&Coordinates, &Coordinates) -> i32
        ensures
            self.search_outcome(start, goal, paths_view(partial_paths), path_view(r)),
    {
        let n = self.rows * self.cols;
        let mut closed: Vec<Option<PathNode>> = Vec::new();
        let mut lookup: Vec<Option<i32>> = Vec::new();
        while closed.len() < n
            invariant
                closed@.len() == lookup@.len() <= n,
                forall|i: int| 0 <= i < closed@.len() ==> #[trigger] closed@[i] is None,
                forall|i: int| 0 <= i < lookup@.len() ==> #[trigger] lookup@[i] is None,
            decreases n - closed@.len(),
        {
            closed.push(None);
            lookup.push(None);
        }
        let si = self.flat_index(start);
        lookup.set(si, Some(0));
        let mut open: Vec<PathNode> = vec![PathNode::initial(start, goal, &heuristic)];
        proof {
            reveal(Matrix::closed_ok);
            reveal(Matrix::frontier_ok);
            reveal(Matrix::seen_ok);
            reveal(Matrix::closure_ok);
            reveal(Matrix::tested_ok);
            lemma_flat(start, goal, self.rows, self.cols);
            lemma_count_none_bound(closed@);
            assert forall|c: Coordinates|
                self.holds(c) && (#[trigger] closed@[flat(c, self.cols)]) is Some implies false by {
                lemma_flat(c, c, self.rows, self.cols);
            }
            assert(self.record_ok(start, closed@, lookup@, open@[0]));
            assert forall|c: Coordinates|
                self.holds(c) && (#[trigger] lookup@[flat(c, self.cols)]) is Some implies {
                &&& 0 <= lookup@[flat(c, self.cols)]->0 <= n - count_none(closed@)
                &&& (closed@[flat(c, self.cols)] is Some || exists|j: int|
                    0 <= j < open@.len() && open@[j].index == c)
            } by {
                lemma_flat(c, start, self.rows, self.cols);
                assert(open@[0].index == c);
            }
        }

        while open.len() > 0
            invariant
                self.wf(),
                n == self.rows * self.cols,
                n <= MAX_CELLS,
                self.holds(start),
                self.holds(goal),
            forall|a: Coordinates, b: Coordinates|
                self.holds(a) && self.holds(b) ==> #[trigger] heuristic.requires((&a, &b)),
            forall|a: Coordinates, b: Coordinates, h: i32|
                self.holds(a) && self.holds(b) && #[trigger] heuristic.ensures((&a, &b), h)
                    ==> 0 <= h <= MAX_ESTIMATE,
                partial_paths matches Some(pp) ==> pp.wf(),
                closed@.len() == n,
                lookup@.len() == n,
                self.closed_ok(start, closed@, lookup@),
                count_none(closed@) <= n,
                self.frontier_ok(start, open@, closed@, lookup@),
                self.seen_ok(open@, closed@, lookup@),
                self.closure_ok(closed@, lookup@, None),
                lookup@[flat(start, self.cols)] == Some(0i32),
                closed@[flat(goal, self.cols)] is None,
                self.tested_ok(closed@, goal, paths_view(partial_paths)),
                start == goal ==> open@.len() == 1 && open@[0].index == start && open@[0].parent is None,
            decreases count_none(closed@),
        {
            let k = Self::best_index(&open);
            let ghost open0 = open@;
            let current = open.remove(k);
            proof {
                reveal(Matrix::frontier_ok);
            }
            assert(self.record_ok(start, closed@, lookup@, open0[k as int]));
            if same_cell(&current.index, &goal) {
                let path = self.to_path(current, &closed, Ghost(start), Ghost(lookup@));
                proof {
                    assert(path@.take(path@.len() as int) =~= path@);
                    self.lemma_stop(start, goal, paths_view(partial_paths), closed@, path@, path@);
                }
                return Some(path);
            }
            if let Some(pp) = partial_paths {
                if let Some(rest) = pp.get(&current.index) {
                    let head = self.to_path(current, &closed, Ghost(start), Ghost(lookup@));
                    let path = concat(head, rest);
                    proof {
                        let k = head@.len() - 1;
                        assert(path@.take(k + 1) =~= head@);
                        assert(path@.skip(k + 1) =~= rest@);
                        self.lemma_stop(start, goal, paths_view(partial_paths), closed@, head@, path@);
                    }
                    return Some(path);
                }
            }
            let ci = self.flat_index(current.index);
            let ghost closed0 = closed@;
            proof {
                lemma_count_none_fill(closed@, ci as int, current);
            }
            closed.set(ci, Some(current));
            proof {
                reveal(Matrix::tested_ok);
                lemma_flat(current.index, current.index, self.rows, self.cols);
                assert forall|c: Coordinates|
                    self.holds(c) && (#[trigger] closed@[flat(c, self.cols)]) is Some implies c != goal
                        && !is_key(paths_view(partial_paths), c) by {
                    lemma_flat(c, current.index, self.rows, self.cols);
                    if c != current.index {
                        assert(closed0[flat(c, self.cols)] is Some);
                    }
                }
                self.lemma_close(start, open0, k as int, closed0, open@, closed@, lookup@);
                lemma_flat(current.index, goal, self.rows, self.cols);
                lemma_flat(goal, current.index, self.rows, self.cols);
            }
            let ghost lookup0 = lookup@;
            self.expand(start, goal, current, &closed, &mut lookup, &mut open, &heuristic);
            proof {
                lemma_flat(start, goal, self.rows, self.cols);
                assert(lookup0[flat(start, self.cols)] is Some);
            }
        }
        proof {
            reveal(Matrix::seen_ok);
            self.lemma_no_walk(start, goal, closed@, lookup@);
        }
        None
    }
}


/// A search without partial paths between two cells that some walk joins
/// returns a walk that starts at the first and ends at the second.
pub proof fn lemma_reachable_gives_walk(
    m: &Matrix<Node>,
    start: Coordinates,
    goal: Coordinates,
    r: Option<Seq<Coordinates>>,
)
    requires
        m.search_outcome(start, goal, None, r),
        m.reachable(start, goal),
    ensures
        r matches Some(p) && m.walk_between(p, start, goal),
{
    if let Some(p) = r {
        let k = choose|k: int| #![trigger p[k]] m.stops_at(p, k, start, goal, None);
        assert(p.take(k + 1) =~= p);
    }
}

/// A search from a cell to itself returns the path of that one cell.
pub proof fn lemma_search_same_cell(
    m: &Matrix<Node>,
    x: Coordinates,
    partial_paths: Option<Map<Coordinates, Seq<Coordinates>>>,
    r: Option<Seq<Coordinates>>,
)
    requires
        m.search_outcome(x, x, partial_paths, r),
    ensures
        r == Some(seq![x]),
{
}

/// A search without partial paths between two cells that no walk joins
/// returns nothing.
pub proof fn lemma_blocked_gives_none(
    m: &Matrix<Node>,
    start: Coordinates,
    goal: Coordinates,
    r: Option<Seq<Coordinates>>,
)
    requires
        m.search_outcome(start, goal, None, r),
        !m.reachable(start, goal),
    ensures
        r is None,
{
    if let Some(p) = r {
        let k = choose|k: int| #![trigger p[k]] m.stops_at(p, k, start, goal, None);
        assert(p.take(k + 1) =~= p);
        assert(m.walk_between(p, start, goal));
    }
}

/// Where the only move out of `start` leads to `goal`, a search without
/// partial paths returns exactly `[start, goal]`.
pub proof fn lemma_single_exit(
    m: &Matrix<Node>,
    start: Coordinates,
    goal: Coordinates,
    r: Option<Seq<Coordinates>>,
)
    requires
        m.holds(start),
        m.holds(goal),
        start != goal,
        forall|c: Coordinates| #[trigger] m.adjacent(start, c) <==> c == goal,
        m.search_outcome(start, goal, None, r),
    ensures
        r == Some(seq![start, goal]),
{
    let w = seq![start, goal];
    assert(m.adjacent(start, goal));
    assert(m.adjacent(w[0int], w[0int + 1]));
    assert(m.walk_between(w, start, goal));
    let p = r->0;
    let k = choose|k: int| #![trigger p[k]] m.stops_at(p, k, start, goal, None);
    assert(p.take(k + 1) =~= p);
    assert(p.len() >= 2) by {
        if p.len() == 1 {
            assert(p[0] == start);
        }
    }
    assert(m.adjacent(p[0int], p[0int + 1]));
    assert(p[1] == goal);
    if p.len() > 2 {
        assert(p[1] != p[k]);
    }
    assert(p =~= w);
}

/// Where the partial paths are those recorded from one path `pp` that ends
/// at `goal`, whatever a search towards `goal` returns ends with a suffix
/// of `pp`.
pub proof fn lemma_splice_ends_with_suffix(
    m: &Matrix<Node>,
    start: Coordinates,
    goal: Coordinates,
    pp: Seq<Coordinates>,
    r: Option<Seq<Coordinates>>,
)
    requires
        pp.len() > 0,
        pp.last() == goal,
        m.search_outcome(start, goal, Some(recorded(Map::empty(), pp)), r),
        r is Some,
    ensures
        exists|j: int|
            0 <= j < pp.len() && pp.len() - j <= r->0.len() && #[trigger] r->0.skip(
                r->0.len() - (pp.len() - j),
            ) == pp.skip(j),
{
    let p = r->0;
    let map = recorded(Map::empty(), pp);
    let k = choose|k: int| #![trigger p[k]] m.stops_at(p, k, start, goal, Some(map));
    if p[k] == goal && k == p.len() - 1 {
        let j = pp.len() - 1;
        assert(p.skip(p.len() - (pp.len() - j)) =~= pp.skip(j));
    } else {
        let n = (pp.len() - 1) as nat;
        lemma_recorded_suffixes(pp, n, p[k]);
        let i = choose|i: int|
            0 <= i < n && pp[i] == p[k] && record_upto(Map::empty(), pp, n)[p[k]] == pp.subrange(
                i + 1,
                pp.len() as int,
            );
        assert(p.skip(k + 1) == pp.subrange(i + 1, pp.len() as int));
        assert(p.len() - (pp.len() - i) == k);
        assert(p.skip(k) =~= pp.skip(i)) by {
            assert forall|t: int| 0 <= t < p.skip(k).len() implies p.skip(k)[t] == pp.skip(i)[t] by {
                if t > 0 {
                    assert(p.skip(k)[t] == p.skip(k + 1)[t - 1]);
                }
            }
        }
        assert(p.skip(p.len() - (pp.len() - i)) == pp.skip(i));
    }
}

/// Between two cells of a grid the Manhattan distance is below the number
/// of cells.
proof fn lemma_manhattan_bound(m: &Matrix<Node>, a: Coordinates, b: Coordinates)
    requires
        m.holds(a),
        m.holds(b),
    ensures
        0 <= manhattan(a, b) < m.rows * m.cols,
{
    let r = m.rows as int;
    let c = m.cols as int;
    assert((r - 1) + (c - 1) < r * c) by (nonlinear_arith)
        requires
            r >= 1,
            c >= 1,
    ;
}

/// A* search from `start` to `goal` with the Manhattan heuristic.
pub fn find_path(
    grid: &Matrix<Node>,
    start: Coordinates,
    goal: Coordinates,
    partial_paths: Option<&PartialPaths>,
) -> (r: Option<Vec<Coordinates>>)
    requires
        grid.wf(),
        grid.rows * grid.cols <= MAX_CELLS,
        grid.holds(start),
        grid.holds(goal),
        partial_paths matches Some(pp) ==> pp.wf(),
    ensures
        grid.search_outcome(start, goal, paths_view(partial_paths), path_view(r)),
{
    proof {
        assert forall|a: Coordinates, b: Coordinates|
            grid.holds(a) && grid.holds(b) implies #[trigger] manhattan_heuristic.requires(
                (&a, &b),
            ) by {
            lemma_manhattan_bound(grid, a, b);
        }
        assert forall|a: Coordinates, b: Coordinates, h: i32|
            grid.holds(a) && grid.holds(b) && #[trigger] manhattan_heuristic.ensures(
                (&a, &b),
                h,
            ) implies 0 <= h <= MAX_ESTIMATE by {
            lemma_manhattan_bound(grid, a, b);
        }
    }
    grid.astar(start, goal, manhattan_heuristic, partial_paths)
}

} // verus!
