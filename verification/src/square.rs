//! The identity of one grid cell, and the adjacency relation between cells.

use vstd::prelude::*;

verus! {

/// One cell of the integer grid, identified by its coordinates.
///
/// Two squares are equal exactly when both components match; values are
/// copied freely and carry no other state.
#[derive(Clone, Copy, PartialEq, Eq, Structural, Hash, Debug)]
pub struct Square {
    pub x: i16,
    pub y: i16,
}

/// The cell every shape starts from.
pub open spec fn origin() -> Square {
    Square { x: 0, y: 0 }
}

/// `a` and `b` share an edge: they differ by one step along exactly one axis.
pub open spec fn is_neighbor(a: Square, b: Square) -> bool {
    ||| (b.x == a.x + 1 && b.y == a.y)
    ||| (b.x == a.x - 1 && b.y == a.y)
    ||| (b.x == a.x && b.y == a.y + 1)
    ||| (b.x == a.x && b.y == a.y - 1)
}

/// Some occupied cell sits at the (mathematical) coordinates `(x, y)`.
pub open spec fn occ_at(occ: Set<Square>, x: int, y: int) -> bool {
    exists|s: Square| occ.contains(s) && s.x == x && s.y == y
}

} // verus!
