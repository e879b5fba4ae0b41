//! The frontier of a shape: the unoccupied cells that share an edge with it.
//!
//! Two views of the frontier are given. [`frontier`] is the mathematical
//! set, used by most contracts. [`frontier_list`] fixes in addition the
//! order in which the frontier is enumerated from the insertion order of
//! the occupied cells, so that drawing a cell by index is a function of
//! the shape and the index alone.

use vstd::prelude::*;
use crate::square::{is_neighbor, Square};

verus! {

/// The unoccupied cells adjacent (axis-aligned) to at least one occupied cell.
pub open spec fn frontier(occ: Set<Square>) -> Set<Square> {
    Set::new(|c: Square| !occ.contains(c) && exists|s: Square| occ.contains(s) && is_neighbor(s, c))
}

/// `s` lies strictly within Manhattan distance `n` of the origin.
pub open spec fn in_radius(s: Square, n: int) -> bool {
    vstd::math::abs(s.x as int) + vstd::math::abs(s.y as int) < n
}

/// The cell one step along the positive x axis.
pub open spec fn right_of(s: Square) -> Square {
    Square { x: (s.x + 1) as i16, y: s.y }
}

/// The cell one step along the positive y axis.
pub open spec fn above(s: Square) -> Square {
    Square { x: s.x, y: (s.y + 1) as i16 }
}

/// The cell one step along the negative x axis.
pub open spec fn left_of(s: Square) -> Square {
    Square { x: (s.x - 1) as i16, y: s.y }
}

/// The cell one step along the negative y axis.
pub open spec fn below(s: Square) -> Square {
    Square { x: s.x, y: (s.y - 1) as i16 }
}

/// Append `c` to `acc` unless it is occupied or already listed.
pub open spec fn push_if_new(occ: Seq<Square>, acc: Seq<Square>, c: Square) -> Seq<Square> {
    if occ.contains(c) || acc.contains(c) {
        acc
    } else {
        acc.push(c)
    }
}

/// Append the four neighbors of `s` that are new, in the fixed order
/// right, above, left, below.
pub open spec fn step_cell(occ: Seq<Square>, acc: Seq<Square>, s: Square) -> Seq<Square> {
    push_if_new(
        occ,
        push_if_new(occ, push_if_new(occ, push_if_new(occ, acc, right_of(s)), above(s)), left_of(s)),
        below(s),
    )
}

/// Enumerate the frontier contributed by the cells from position `i` on,
/// extending the accumulator `acc`.
pub open spec fn frontier_list_from(occ: Seq<Square>, i: nat, acc: Seq<Square>) -> Seq<Square>
    decreases occ.len() - i,
{
    if i >= occ.len() {
        acc
    } else {
        frontier_list_from(occ, i + 1, step_cell(occ, acc, occ[i as int]))
    }
}

/// The frontier of a shape listed in a fixed order: for each occupied cell
/// in insertion order, its four neighbors in the order right, above, left,
/// below, keeping each unoccupied cell the first time it appears.
pub open spec fn frontier_list(occ: Seq<Square>) -> Seq<Square> {
    frontier_list_from(occ, 0, Seq::empty())
}

/// Law: the frontier never overlaps the occupied set.
pub proof fn lemma_frontier_disjoint(occ: Set<Square>)
    ensures
        frontier(occ).intersect(occ) =~= Set::<Square>::empty(),
{
}

/// A non-empty finite sequence of squares has an element of maximal x.
pub proof fn lemma_seq_max_x(sq: Seq<Square>) -> (k: int)
    requires
        sq.len() >= 1,
    ensures
        0 <= k < sq.len(),
        forall|j: int| 0 <= j < sq.len() ==> sq[j].x <= sq[k].x,
    decreases sq.len(),
{
    if sq.len() == 1 {
        0
    } else {
        let k0 = lemma_seq_max_x(sq.drop_last());
        assert(forall|j: int| 0 <= j < sq.len() - 1 ==> sq[j] == sq.drop_last()[j]);
        if sq.last().x >= sq[k0].x {
            sq.len() - 1
        } else {
            k0
        }
    }
}

} // verus!
