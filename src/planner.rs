use vstd::prelude::*;

use crate::astar::{find_path, path_view, MAX_CELLS};
use crate::coordinates::Coordinates;
use crate::matrix::Matrix;
use crate::node::Node;
use crate::partial_paths::{record_upto, PartialPaths};

verus! {

impl Matrix<Node> {
    /// Every key `k` of `m`, followed by the path that `m` maps it to, is a
    /// walk from `k` to `goal`.
    pub open spec fn leads_to(&self, m: Map<Coordinates, Seq<Coordinates>>, goal: Coordinates) -> bool {
        forall|k: Coordinates| #[trigger]
            m.contains_key(k) ==> self.walk_between(seq![k] + m[k], k, goal)
    }
}

/// The part of a walk from position `i` on is a walk.
proof fn lemma_walk_suffix(m: &Matrix<Node>, p: Seq<Coordinates>, i: int)
    requires
        m.is_walk(p),
        0 <= i < p.len(),
    ensures
        m.is_walk(p.subrange(i, p.len() as int)),
{
    let s = p.subrange(i, p.len() as int);
    assert forall|t: int| 0 <= t < s.len() - 1 implies #[trigger] m.adjacent(s[t], s[t + 1]) by {
        assert(m.adjacent(p[i + t], p[i + t + 1]));
    }
    assert forall|t: int| 0 <= t < s.len() implies m.holds(#[trigger] s[t]) by {
        assert(m.holds(p[i + t]));
    }
}

/// Recording a walk to `goal` keeps every recorded path leading to `goal`.
proof fn lemma_record_leads(
    m: &Matrix<Node>,
    map: Map<Coordinates, Seq<Coordinates>>,
    p: Seq<Coordinates>,
    n: nat,
    goal: Coordinates,
)
    requires
        m.leads_to(map, goal),
        m.is_walk(p),
        p.last() == goal,
        n < p.len(),
    ensures
        m.leads_to(record_upto(map, p, n), goal),
    decreases n,
{
    if n > 0 {
        lemma_record_leads(m, map, p, (n - 1) as nat, goal);
        let prev = record_upto(map, p, (n - 1) as nat);
        if !prev.contains_key(p[n - 1]) {
            let k = p[n - 1];
            let rest = p.subrange(n as int, p.len() as int);
            lemma_walk_suffix(m, p, n - 1);
            assert(seq![k] + rest =~= p.subrange(n - 1, p.len() as int));
            let next = record_upto(map, p, n);
            assert forall|c: Coordinates| #[trigger] next.contains_key(c) implies m.walk_between(
                seq![c] + next[c],
                c,
                goal,
            ) by {
                if c != k {
                    assert(prev.contains_key(c));
                }
            }
        }
    }
}

/// A walk from `start` to `k`, followed by a path that leads from `k` to
/// `goal`, is a walk from `start` to `goal`.
proof fn lemma_splice_walk(
    m: &Matrix<Node>,
    p: Seq<Coordinates>,
    k: int,
    start: Coordinates,
    goal: Coordinates,
)
    requires
        0 <= k < p.len(),
        m.walk_between(p.take(k + 1), start, p[k]),
        m.walk_between(seq![p[k]] + p.skip(k + 1), p[k], goal),
    ensures
        m.walk_between(p, start, goal),
{
    let head = p.take(k + 1);
    let tail = seq![p[k]] + p.skip(k + 1);
    assert forall|t: int| 0 <= t < p.len() implies m.holds(#[trigger] p[t]) by {
        if t <= k {
            assert(p[t] == head[t]);
        } else {
            assert(p[t] == tail[t - k]);
        }
    }
    assert forall|t: int| 0 <= t < p.len() - 1 implies #[trigger] m.adjacent(p[t], p[t + 1]) by {
        if t < k {
            assert(m.adjacent(head[t], head[t + 1]));
        } else {
            assert(m.adjacent(tail[t - k], tail[t - k + 1]));
        }
    }
    assert(p.last() == tail.last());
}

/// Paths from each of `starts`, in turn, to the shared `goal`. Each search
/// may stop on a cell of a path found before it and follow that path the
/// rest of the way. Each answer is nothing exactly when no walk joins its
/// start to `goal`, and else a walk from its start to `goal`.
pub fn plan_paths(grid: &Matrix<Node>, starts: &Vec<Coordinates>, goal: Coordinates) -> (r: Vec<
    Option<Vec<Coordinates>>,
>)
    requires
        grid.wf(),
        grid.rows * grid.cols <= MAX_CELLS,
        grid.holds(goal),
        forall|i: int| 0 <= i < starts@.len() ==> grid.holds(#[trigger] starts@[i]),
    ensures
        r@.len() == starts@.len(),
        forall|i: int|
            0 <= i < r@.len() ==> (#[trigger] r@[i] is None <==> !grid.reachable(starts@[i], goal)),
        forall|i: int|
            0 <= i < r@.len() && #[trigger] r@[i] is Some ==> grid.walk_between(
                r@[i]->0@,
                starts@[i],
                goal,
            ),
{
    let mut partial_paths = PartialPaths::new();
    let mut r: Vec<Option<Vec<Coordinates>>> = Vec::new();
    let mut i: usize = 0;
    while i < starts.len()
        invariant
            grid.wf(),
            grid.rows * grid.cols <= MAX_CELLS,
            grid.holds(goal),
            forall|i: int| 0 <= i < starts@.len() ==> grid.holds(#[trigger] starts@[i]),
            i <= starts@.len(),
            r@.len() == i,
            partial_paths.wf(),
            grid.leads_to(partial_paths@, goal),
            forall|j: int|
                0 <= j < i ==> (#[trigger] r@[j] is None <==> !grid.reachable(starts@[j], goal)),
            forall|j: int|
                0 <= j < i && #[trigger] r@[j] is Some ==> grid.walk_between(
                    r@[j]->0@,
                    starts@[j],
                    goal,
                ),
        decreases starts@.len() - i,
    {
        let start = starts[i];
        let found = find_path(grid, start, goal, Some(&partial_paths));
        proof {
            if let Some(p) = path_view(found) {
                let map = partial_paths@;
                let k = choose|k: int| #![trigger p[k]] grid.stops_at(p, k, start, goal, Some(map));
                if p[k] == goal && k == p.len() - 1 {
                    assert(p.take(k + 1) =~= p);
                } else {
                    assert(map.contains_key(p[k]));
                    lemma_splice_walk(grid, p, k, start, goal);
                }
                assert(grid.reachable(start, goal));
            }
        }
        if let Some(p) = &found {
            let ghost before = partial_paths@;
            partial_paths.record(p);
            proof {
                lemma_record_leads(grid, before, p@, (p@.len() - 1) as nat, goal);
            }
        }
        r.push(found);
        i = i + 1;
    }
    r
}

} // verus!
