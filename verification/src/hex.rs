//! Axial coordinates for hexagonal tiles and the direction labels the
//! flood fill writes into the direction field.
use vstd::prelude::*;

verus! {

/// A hex tile address: a pair of signed axial coordinates. Addition is
/// component-wise and steps one tile along a direction.
#[derive(Clone, Copy, PartialEq, Eq, Structural, Debug, Hash)]
pub struct Axial {
    pub q: i32,
    pub r: i32,
}

impl Axial {
    pub fn new(q: i32, r: i32) -> (a: Axial)
        ensures
            a.q == q,
            a.r == r,
    {
        Axial { q, r }
    }
}

/// The label a tile carries in the direction field: one of the six hex
/// directions, encoding the axial delta that moves one hop closer to a
/// goal, or the terminal `Goal` marker.
#[derive(Clone, Copy, PartialEq, Eq, Structural, Debug)]
pub enum HexPathNode {
    TopLeft,
    TopRight,
    Right,
    BottomRight,
    BottomLeft,
    Left,
    Goal,
}

/// The q-component of the axial delta a direction label encodes.
pub open spec fn node_dq(n: HexPathNode) -> int {
    match n {
        HexPathNode::TopLeft => 0,
        HexPathNode::TopRight => 1,
        HexPathNode::Right => 1,
        HexPathNode::BottomRight => 0,
        HexPathNode::BottomLeft => -1,
        HexPathNode::Left => -1,
        HexPathNode::Goal => 0,
    }
}

/// The r-component of the axial delta a direction label encodes.
pub open spec fn node_dr(n: HexPathNode) -> int {
    match n {
        HexPathNode::TopLeft => -1,
        HexPathNode::TopRight => -1,
        HexPathNode::Right => 0,
        HexPathNode::BottomRight => 1,
        HexPathNode::BottomLeft => 1,
        HexPathNode::Left => 0,
        HexPathNode::Goal => 0,
    }
}

/// Whether (dq, dr) is the delta between two adjacent tiles or the zero
/// delta: exactly the seven deltas a direction label can encode.
pub open spec fn is_label_delta(dq: int, dr: int) -> bool {
    ||| (dq == 0 && dr == -1)
    ||| (dq == 1 && dr == -1)
    ||| (dq == 1 && dr == 0)
    ||| (dq == 0 && dr == 1)
    ||| (dq == -1 && dr == 1)
    ||| (dq == -1 && dr == 0)
    ||| (dq == 0 && dr == 0)
}

/// The direction label that encodes the delta (dq, dr); `Goal` both for
/// the zero delta and (never used) for deltas that are not label deltas.
pub open spec fn node_from_delta(dq: int, dr: int) -> HexPathNode {
    if dq == 0 && dr == -1 {
        HexPathNode::TopLeft
    } else if dq == 1 && dr == -1 {
        HexPathNode::TopRight
    } else if dq == 1 && dr == 0 {
        HexPathNode::Right
    } else if dq == 0 && dr == 1 {
        HexPathNode::BottomRight
    } else if dq == -1 && dr == 1 {
        HexPathNode::BottomLeft
    } else if dq == -1 && dr == 0 {
        HexPathNode::Left
    } else {
        HexPathNode::Goal
    }
}

/// Two tiles are adjacent when their delta is one of the six unit hex
/// steps (the zero delta is not adjacency).
pub open spec fn adjacent(a: Axial, b: Axial) -> bool {
    &&& is_label_delta(b.q - a.q, b.r - a.r)
    &&& !(a.q == b.q && a.r == b.r)
}

impl HexPathNode {
    /// The label to store at `end` so that stepping by the label's delta
    /// from `end` lands on `start`; `Goal` when the two tiles coincide.
    pub fn from_hex(start: Axial, end: Axial) -> (n: HexPathNode)
        requires
            is_label_delta(start.q - end.q, start.r - end.r),
        ensures
            n == node_from_delta(start.q - end.q, start.r - end.r),
            node_dq(n) == start.q - end.q,
            node_dr(n) == start.r - end.r,
    {
        let dq: i64 = start.q as i64 - end.q as i64;
        let dr: i64 = start.r as i64 - end.r as i64;
        if dq == 0 && dr == -1 {
            HexPathNode::TopLeft
        } else if dq == 1 && dr == -1 {
            HexPathNode::TopRight
        } else if dq == 1 && dr == 0 {
            HexPathNode::Right
        } else if dq == 0 && dr == 1 {
            HexPathNode::BottomRight
        } else if dq == -1 && dr == 1 {
            HexPathNode::BottomLeft
        } else if dq == -1 && dr == 0 {
            HexPathNode::Left
        } else {
            HexPathNode::Goal
        }
    }

    /// The axial delta this label encodes, as a coordinate pair.
    pub fn to_hex(&self) -> (d: Axial)
        ensures
            d.q == node_dq(*self),
            d.r == node_dr(*self),
    {
        let (q, r): (i32, i32) = match self {
            HexPathNode::TopLeft => (0, -1),
            HexPathNode::TopRight => (1, -1),
            HexPathNode::Right => (1, 0),
            HexPathNode::BottomRight => (0, 1),
            HexPathNode::BottomLeft => (-1, 1),
            HexPathNode::Left => (-1, 0),
            HexPathNode::Goal => (0, 0),
        };
        Axial::new(q, r)
    }
}

} // verus!
