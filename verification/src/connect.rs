//! Edge-connectivity of the grown shape.
//!
//! A shape is connected when every occupied cell can be joined to the
//! origin by a path of axis-adjacent occupied cells. The growth loop only
//! ever annexes a frontier cell, which touches the shape, so connectivity
//! is an invariant of every reachable state.

use vstd::prelude::*;
use crate::square::{is_neighbor, origin, Square};

verus! {

/// `p` is a walk of occupied cells that starts at the origin: every step
/// moves between axis-adjacent cells and every visited cell lies in `occ`.
pub open spec fn is_path(p: Seq<Square>, occ: Set<Square>) -> bool {
    &&& p.len() >= 1
    &&& p[0] == origin()
    &&& forall|i: int| 0 <= i < p.len() ==> occ.contains(#[trigger] p[i])
    &&& forall|i: int| 0 <= i < p.len() - 1 ==> is_neighbor(#[trigger] p[i], p[i + 1])
}

/// `s` can be joined to the origin through occupied cells.
pub open spec fn reaches_origin(occ: Set<Square>, s: Square) -> bool {
    exists|p: Seq<Square>| is_path(p, occ) && p.last() == s
}

/// Every occupied cell can be joined to the origin.
pub open spec fn connected(occ: Set<Square>) -> bool {
    forall|s: Square| occ.contains(s) ==> reaches_origin(occ, s)
}

/// A path through a shape is also a path through any larger shape.
pub proof fn lemma_path_monotonic(p: Seq<Square>, occ1: Set<Square>, occ2: Set<Square>)
    requires
        is_path(p, occ1),
        occ1.subset_of(occ2),
    ensures
        is_path(p, occ2),
{
}

/// Annexing a cell that touches a connected shape keeps it connected.
pub proof fn lemma_connected_insert(occ: Set<Square>, c: Square)
    requires
        connected(occ),
        exists|s: Square| occ.contains(s) && is_neighbor(s, c),
    ensures
        connected(occ.insert(c)),
{
    let bigger = occ.insert(c);
    assert forall|t: Square| bigger.contains(t) implies reaches_origin(bigger, t) by {
        if occ.contains(t) {
            let p = choose|p: Seq<Square>| is_path(p, occ) && p.last() == t;
            lemma_path_monotonic(p, occ, bigger);
            assert(is_path(p, bigger) && p.last() == t);
        } else {
            let s = choose|s: Square| occ.contains(s) && is_neighbor(s, c);
            let p = choose|p: Seq<Square>| is_path(p, occ) && p.last() == s;
            lemma_path_monotonic(p, occ, bigger);
            let p2 = p.push(c);
            assert(p2.last() == c);
            assert(p2[0] == origin());
            assert(forall|i: int| 0 <= i < p.len() ==> p2[i] == p[i]);
            assert(p2[p.len() - 1] == s && p2[p.len() as int] == c);
            assert(is_path(p2, bigger));
            assert(t == c);
        }
    }
}

/// Law: every occupied cell of a connected shape is joined to the origin
/// by a path of axis-adjacent occupied cells.
pub proof fn lemma_reaches_origin(occ: Set<Square>, s: Square)
    requires
        connected(occ),
        occ.contains(s),
    ensures
        exists|p: Seq<Square>| is_path(p, occ) && p.last() == s,
{
}

} // verus!
