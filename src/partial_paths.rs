use vstd::prelude::*;

use crate::coordinates::{same_cell, Coordinates};

verus! {

/// Paths already found towards a shared goal, kept so that later searches
/// can stop as soon as they reach one: each cell on such a path maps to the
/// rest of that path after it.
pub struct PartialPaths {
    entries: Vec<(Coordinates, Vec<Coordinates>)>,
}

/// The map that a list of entries stands for.
pub open spec fn entries_map(s: Seq<(Coordinates, Vec<Coordinates>)>) -> Map<
    Coordinates,
    Seq<Coordinates>,
>
    decreases s.len(),
{
    if s.len() == 0 {
        Map::empty()
    } else {
        entries_map(s.drop_last()).insert(s.last().0, s.last().1@)
    }
}

/// No two entries have the same key.
pub open spec fn keys_unique(s: Seq<(Coordinates, Vec<Coordinates>)>) -> bool {
    forall|i: int, j: int| 0 <= i < j < s.len() ==> s[i].0 != s[j].0
}

proof fn lemma_entries_map(s: Seq<(Coordinates, Vec<Coordinates>)>, k: Coordinates)
    requires
        keys_unique(s),
    ensures
        entries_map(s).contains_key(k) <==> exists|i: int| 0 <= i < s.len() && s[i].0 == k,
        forall|i: int| 0 <= i < s.len() && s[i].0 == k ==> entries_map(s)[k] == s[i].1@,
    decreases s.len(),
{
    if s.len() > 0 {
        let t = s.drop_last();
        lemma_entries_map(t, k);
        if exists|i: int| 0 <= i < s.len() && s[i].0 == k {
            let i = choose|i: int| 0 <= i < s.len() && s[i].0 == k;
            if i < t.len() {
                assert(t[i].0 == k);
            }
        }
        if exists|i: int| 0 <= i < t.len() && t[i].0 == k {
            let i = choose|i: int| 0 <= i < t.len() && t[i].0 == k;
            assert(s[i].0 == k);
        }
    }
}

/// The map after recording the first `n` cells of `p`: each cell not yet a
/// key maps to what follows it in `p`.
pub open spec fn record_upto(m: Map<Coordinates, Seq<Coordinates>>, p: Seq<Coordinates>, n: nat) -> Map<
    Coordinates,
    Seq<Coordinates>,
>
    decreases n,
{
    if n == 0 {
        m
    } else {
        let prev = record_upto(m, p, (n - 1) as nat);
        if prev.contains_key(p[n - 1]) {
            prev
        } else {
            prev.insert(p[n - 1], p.subrange(n as int, p.len() as int))
        }
    }
}

/// The map after recording path `p`: every cell of `p` but the last that is
/// not yet a key maps to the part of `p` after its first occurrence.
pub open spec fn recorded(m: Map<Coordinates, Seq<Coordinates>>, p: Seq<Coordinates>) -> Map<
    Coordinates,
    Seq<Coordinates>,
> {
    record_upto(m, p, if p.len() == 0 { 0 } else { (p.len() - 1) as nat })
}

/// The cells of `path` from position `from` on.
pub fn suffix(path: &Vec<Coordinates>, from: usize) -> (r: Vec<Coordinates>)
    requires
        from <= path@.len(),
    ensures
        r@ == path@.subrange(from as int, path@.len() as int),
{
    let mut r: Vec<Coordinates> = Vec::new();
    let mut i = from;
    while i < path.len()
        invariant
            from <= i <= path@.len(),
            r@ == path@.subrange(from as int, i as int),
        decreases path@.len() - i,
    {
        r.push(path[i]);
        i = i + 1;
    }
    r
}

impl View for PartialPaths {
    type V = Map<Coordinates, Seq<Coordinates>>;

    closed spec fn view(&self) -> Map<Coordinates, Seq<Coordinates>> {
        entries_map(self.entries@)
    }
}

impl PartialPaths {
    /// Internal consistency: no cell is a key twice.
    pub closed spec fn wf(&self) -> bool {
        keys_unique(self.entries@)
    }

    /// An empty map.
    pub fn new() -> (r: Self)
        ensures
            r.wf(),
            r@ == Map::<Coordinates, Seq<Coordinates>>::empty(),
    {
        PartialPaths { entries: Vec::new() }
    }

    /// The rest of a recorded path after `index`, if `index` is a key.
    pub fn get(&self, index: &Coordinates) -> (r: Option<&Vec<Coordinates>>)
        requires
            self.wf(),
        ensures
            r is Some <==> self@.contains_key(*index),
            r is Some ==> r->0@ == self@[*index],
    {
        let mut i: usize = 0;
        while i < self.entries.len()
            invariant
                i <= self.entries@.len(),
                keys_unique(self.entries@),
                forall|j: int| 0 <= j < i ==> self.entries@[j].0 != *index,
            decreases self.entries@.len() - i,
        {
            if same_cell(&self.entries[i].0, index) {
                proof {
                    lemma_entries_map(self.entries@, *index);
                }
                return Some(&self.entries[i].1);
            }
            i = i + 1;
        }
        proof {
            lemma_entries_map(self.entries@, *index);
        }
        None
    }

    /// Records `path`: every cell of it but the last that is not a key yet
    /// becomes one, mapped to the part of `path` after that cell.
    pub fn record(&mut self, path: &Vec<Coordinates>)
        requires
            old(self).wf(),
        ensures
            final(self).wf(),
            final(self)@ == recorded(old(self)@, path@),
    {
        if path.len() == 0 {
            return;
        }
        let last = path.len() - 1;
        let mut i: usize = 0;
        while i < last
            invariant
                last == path@.len() - 1,
                i <= last,
                self.wf(),
                self@ == record_upto(old(self)@, path@, i as nat),
            decreases last - i,
        {
            let found = self.get(&path[i]);
            if found.is_none() {
                let rest = suffix(path, i + 1);
                let ghost pre = self.entries@;
                proof {
                    lemma_entries_map(pre, path@[i as int]);
                }
                self.entries.push((path[i], rest));
                proof {
                    assert(self.entries@.drop_last() =~= pre);
                }
            }
            i = i + 1;
        }
    }
}

/// After recording `p` into an empty map, each key is a cell `p[i]` with
/// `i` before the last position, mapped to the part of `p` after it.
pub proof fn lemma_recorded_suffixes(p: Seq<Coordinates>, n: nat, k: Coordinates)
    requires
        n < p.len() || n == 0,
        record_upto(Map::empty(), p, n).contains_key(k),
    ensures
        exists|i: int|
            0 <= i < n && p[i] == k && record_upto(Map::empty(), p, n)[k] == p.subrange(
                i + 1,
                p.len() as int,
            ),
    decreases n,
{
    if n > 0 {
        let prev = record_upto(Map::empty(), p, (n - 1) as nat);
        if prev.contains_key(k) {
            lemma_recorded_suffixes(p, (n - 1) as nat, k);
        } else {
            assert(p[n - 1] == k);
        }
    }
}

} // verus!
