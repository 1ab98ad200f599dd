use vstd::prelude::*;

verus! {

/// One of the four sides of a cell.
#[allow(non_camel_case_types)]
pub enum Entry {
    LEFT,
    TOP,
    RIGHT,
    BOTTOM,
}

/// The passability of one cell: for each side, whether it can be entered
/// through that side.
#[derive(Debug, Clone, Copy, PartialEq, Eq, Structural)]
pub struct Node {
    pub left: bool,
    pub top: bool,
    pub right: bool,
    pub bottom: bool,
}

/// The byte that stands for a node: `left<<3 | top<<2 | right<<1 | bottom`.
pub open spec fn byte_of(n: Node) -> u8 {
    ((if n.left { 8int } else { 0 }) + (if n.top { 4int } else { 0 }) + (if n.right {
        2int
    } else {
        0
    }) + (if n.bottom { 1int } else { 0 })) as u8
}

/// The node that a byte stands for; the four high bits are ignored.
pub open spec fn node_of(b: u8) -> Node {
    Node {
        left: b & 8 == 8,
        top: b & 4 == 4,
        right: b & 2 == 2,
        bottom: b & 1 == 1,
    }
}

/// The flag of `n` on side `e`.
pub open spec fn side(n: Node, e: Entry) -> bool {
    match e {
        Entry::LEFT => n.left,
        Entry::TOP => n.top,
        Entry::RIGHT => n.right,
        Entry::BOTTOM => n.bottom,
    }
}

impl Node {
    /// A cell that can be entered from every side.
    pub fn open() -> (r: Self)
        ensures
            r.left && r.top && r.right && r.bottom,
    {
        Self { left: true, top: true, right: true, bottom: true }
    }

    /// A cell that cannot be entered from any side.
    pub fn closed() -> (r: Self)
        ensures
            !r.left && !r.top && !r.right && !r.bottom,
    {
        Self { left: false, top: false, right: false, bottom: false }
    }

    /// The flag on side `index`.
    pub fn get(&self, index: Entry) -> (r: bool)
        ensures
            r == side(*self, index),
    {
        match index {
            Entry::LEFT => self.left,
            Entry::TOP => self.top,
            Entry::RIGHT => self.right,
            Entry::BOTTOM => self.bottom,
        }
    }

    /// Sets the flag on side `index` to `value`, leaving the other three.
    pub fn set(&mut self, index: Entry, value: bool)
        ensures
            side(*final(self), index) == value,
            index != Entry::LEFT ==> final(self).left == old(self).left,
            index != Entry::TOP ==> final(self).top == old(self).top,
            index != Entry::RIGHT ==> final(self).right == old(self).right,
            index != Entry::BOTTOM ==> final(self).bottom == old(self).bottom,
    {
        match index {
            Entry::LEFT => self.left = value,
            Entry::TOP => self.top = value,
            Entry::RIGHT => self.right = value,
            Entry::BOTTOM => self.bottom = value,
        }
    }
}

proof fn lemma_byte_bits(l: u8, t: u8, r: u8, b: u8)
    by (bit_vector)
    requires
        l == 0 || l == 8,
        t == 0 || t == 4,
        r == 0 || r == 2,
        b == 0 || b == 1,
    ensures
        l | t | r | b == l + t + r + b,
        ((l | t | r | b) & 8 == 8) == (l == 8),
        ((l | t | r | b) & 4 == 4) == (t == 4),
        ((l | t | r | b) & 2 == 2) == (r == 2),
        ((l | t | r | b) & 1 == 1) == (b == 1),
{
}

impl From<u8> for Node {
    /// Reads the four low bits of `value`: `left<<3 | top<<2 | right<<1 | bottom`.
    fn from(value: u8) -> (r: Node)
        ensures
            r == node_of(value),
    {
        Node {
            left: value & 0b1000 == 0b1000,
            top: value & 0b100 == 0b100,
            right: value & 0b10 == 0b10,
            bottom: value & 0b1 == 0b1,
        }
    }
}

impl vstd::std_specs::convert::FromSpecImpl<u8> for Node {
    open spec fn obeys_from_spec() -> bool {
        true
    }

    open spec fn from_spec(v: u8) -> Node {
        node_of(v)
    }
}

impl From<Node> for u8 {
    /// Writes a node as `left<<3 | top<<2 | right<<1 | bottom`.
    fn from(node: Node) -> (r: u8)
        ensures
            r == byte_of(node),
    {
        let l: u8 = if node.left { 0b1000 } else { 0b0 };
        let t: u8 = if node.top { 0b100 } else { 0b0 };
        let r: u8 = if node.right { 0b10 } else { 0b0 };
        let b: u8 = if node.bottom { 0b1 } else { 0b0 };
        proof {
            lemma_byte_bits(l, t, r, b);
        }
        l | t | r | b
    }
}

impl vstd::std_specs::convert::FromSpecImpl<Node> for u8 {
    open spec fn obeys_from_spec() -> bool {
        true
    }

    open spec fn from_spec(v: Node) -> u8 {
        byte_of(v)
    }
}

/// Writing a node as a byte and reading it back gives the same node.
pub proof fn lemma_node_byte_round_trip(n: Node)
    ensures
        node_of(byte_of(n)) == n,
        byte_of(n) < 16,
{
    let l: u8 = if n.left { 8 } else { 0 };
    let t: u8 = if n.top { 4 } else { 0 };
    let r: u8 = if n.right { 2 } else { 0 };
    let b: u8 = if n.bottom { 1 } else { 0 };
    lemma_byte_bits(l, t, r, b);
}

/// Reading a byte as a node and writing it back keeps its four low bits.
pub proof fn lemma_byte_node_round_trip(b: u8)
    ensures
        byte_of(node_of(b)) == b & 15,
{
    let l: u8 = if b & 8 == 8 { 8 } else { 0 };
    let t: u8 = if b & 4 == 4 { 4 } else { 0 };
    let r: u8 = if b & 2 == 2 { 2 } else { 0 };
    let c: u8 = if b & 1 == 1 { 1 } else { 0 };
    lemma_byte_bits(l, t, r, c);
    assert(b & 15 == (if b & 8 == 8 { 8u8 } else { 0u8 }) | (if b & 4 == 4 { 4u8 } else { 0u8 }) | (
    if b & 2 == 2 { 2u8 } else { 0u8 }) | (if b & 1 == 1 { 1u8 } else { 0u8 })) by (bit_vector);
}

} // verus!
