//! The growing shape: a deduplicated collection of occupied squares.
//!
//! A `Group` is viewed as the set of its cells; `cells()` exposes in
//! addition the insertion order, which fixes the order of frontier
//! enumeration. The well-formedness invariant says the cells are distinct,
//! contain the origin, stay edge-connected, and keep within a Manhattan
//! radius below the cell count — which, with the count capped by the
//! reach of the `i16` coordinates, rules out arithmetic overflow when
//! neighbors are generated.

use vstd::prelude::*;
use crate::connect::{connected, lemma_connected_insert};
use crate::frontier::{
    above, below, frontier, frontier_list, frontier_list_from, in_radius, left_of,
    lemma_seq_max_x, push_if_new, right_of, step_cell,
};
use crate::square::{is_neighbor, origin, Square};

verus! {

broadcast use vstd::seq_lib::group_seq_properties;

/// The largest number of cells a group may hold: coordinates are `i16`,
/// and every neighbor of a cell within this radius must stay expressible.
pub const CAPACITY: usize = 32766;

/// The occupied cells of the grown shape, in insertion order and without
/// duplicates.
pub struct Group {
    squares: Vec<Square>,
}

/// The invariant of a reachable shape, stated over the insertion order.
pub open spec fn valid_cells(sq: Seq<Square>) -> bool {
    &&& sq.no_duplicates()
    &&& sq.len() <= CAPACITY
    &&& sq.contains(origin())
    &&& forall|i: int| 0 <= i < sq.len() ==> in_radius(#[trigger] sq[i], sq.len() as int)
    &&& connected(sq.to_set())
}

impl View for Group {
    type V = Set<Square>;

    closed spec fn view(&self) -> Set<Square> {
        self.squares@.to_set()
    }
}

impl Group {
    /// The occupied cells in insertion order.
    pub closed spec fn cells(&self) -> Seq<Square> {
        self.squares@
    }

    /// The shape is a reachable one, and its set view is exactly the set
    /// of its listed cells.
    pub open spec fn wf(&self) -> bool {
        &&& valid_cells(self.cells())
        &&& self@ == self.cells().to_set()
    }

    /// A new shape holding exactly the origin cell.
    pub fn new() -> (g: Group)
        ensures
            g.wf(),
            g.cells() == seq![origin()],
            g@ == Set::<Square>::empty().insert(origin()),
    {
        let squares = vec![Square { x: 0, y: 0 }];
        proof {
            let sq = squares@;
            assert(sq =~= seq![origin()]);
            assert(sq.contains(origin()));
            assert(in_radius(sq[0], 1));
            let p: Seq<Square> = seq![origin()];
            assert(crate::connect::is_path(p, sq.to_set()) && p.last() == origin());
            assert forall|s: Square| sq.to_set().contains(s) implies crate::connect::reaches_origin(
                sq.to_set(),
                s,
            ) by {
                assert(s == origin());
            }
            assert(sq.to_set() =~= Set::<Square>::empty().insert(origin()));
        }
        Group { squares }
    }

    /// How many cells the shape holds.
    pub fn len(&self) -> (n: usize)
        ensures
            n == self.cells().len(),
            self.wf() ==> n == self@.len(),
    {
        proof {
            if self.wf() {
                self.squares@.unique_seq_to_set();
            }
        }
        self.squares.len()
    }

    /// The cell at position `i` of the insertion order.
    pub fn square_at(&self, i: usize) -> (s: Square)
        requires
            i < self.cells().len(),
        ensures
            s == self.cells()[i as int],
    {
        self.squares[i]
    }

    /// Whether `c` is an occupied cell.
    pub fn contains_square(&self, c: Square) -> (b: bool)
        ensures
            b == self@.contains(c),
    {
        let n = self.squares.len();
        let mut i: usize = 0;
        while i < n
            invariant
                0 <= i <= n,
                n == self.squares@.len(),
                forall|j: int| 0 <= j < i ==> self.squares@[j] != c,
            decreases n - i,
        {
            if self.squares[i].x == c.x && self.squares[i].y == c.y {
                assert(self.squares@[i as int] == c);
                assert(self@.contains(c));
                return true;
            }
            i += 1;
        }
        assert(!self.squares@.contains(c));
        false
    }

    /// The frontier of the shape: every unoccupied cell adjacent to an
    /// occupied one, each exactly once, in the fixed enumeration order of
    /// [`frontier_list`]. It is never empty: a cell of maximal x always
    /// has an unoccupied neighbor further right.
    pub fn surrounding_squares(&self) -> (result: Vec<Square>)
        requires
            self.wf(),
        ensures
            result@ == frontier_list(self.cells()),
            result@.to_set() == frontier(self@),
            result@.no_duplicates(),
            result@.len() >= 1,
    {
        let ghost sq = self.squares@;
        let n = self.squares.len();
        let mut result: Vec<Square> = Vec::new();
        let mut i: usize = 0;
        while i < n
            invariant
                self.wf(),
                sq == self.squares@,
                n == sq.len(),
                0 <= i <= n,
                frontier_list_from(sq, i as nat, result@) == frontier_list(sq),
                result@.no_duplicates(),
                forall|c: Square| #[trigger] result@.contains(c) ==> !sq.contains(c),
                forall|c: Square| #[trigger] result@.contains(c)
                    ==> exists|j: int| 0 <= j < i && is_neighbor(sq[j], c),
                forall|c: Square, j: int|
                    0 <= j < i && #[trigger] is_neighbor(sq[j], c) && !sq.contains(c)
                    ==> result@.contains(c),
            decreases n - i,
        {
            let s = self.squares[i];
            proof {
                assert(in_radius(sq[i as int], sq.len() as int));
            }
            let ghost a0 = result@;
            let c1 = Square { x: s.x + 1, y: s.y };
            if !self.contains_square(c1) && !vec_contains(&result, c1) {
                result.push(c1);
            }
            proof {
                assert(c1 == right_of(s));
                assert(result@ == push_if_new(sq, a0, right_of(s)));
            }
            let ghost a1 = result@;
            let c2 = Square { x: s.x, y: s.y + 1 };
            if !self.contains_square(c2) && !vec_contains(&result, c2) {
                result.push(c2);
            }
            proof {
                assert(c2 == above(s));
                assert(result@ == push_if_new(sq, a1, above(s)));
            }
            let ghost a2 = result@;
            let c3 = Square { x: s.x - 1, y: s.y };
            if !self.contains_square(c3) && !vec_contains(&result, c3) {
                result.push(c3);
            }
            proof {
                assert(c3 == left_of(s));
                assert(result@ == push_if_new(sq, a2, left_of(s)));
            }
            let ghost a3 = result@;
            let c4 = Square { x: s.x, y: s.y - 1 };
            if !self.contains_square(c4) && !vec_contains(&result, c4) {
                result.push(c4);
            }
            proof {
                assert(c4 == below(s));
                assert(result@ == push_if_new(sq, a3, below(s)));
                assert(result@ == step_cell(sq, a0, s));
                assert(frontier_list_from(sq, (i + 1) as nat, result@)
                    == frontier_list_from(sq, i as nat, a0));
                assert forall|c: Square| #[trigger] result@.contains(c) implies
                    a0.contains(c) || (!sq.contains(c) && is_neighbor(sq[i as int], c)) by {
                }
                assert forall|c: Square, j: int|
                    0 <= j < i + 1 && #[trigger] is_neighbor(sq[j], c) && !sq.contains(c)
                    implies result@.contains(c) by {
                    if j == i {
                        assert(c == right_of(s) || c == above(s) || c == left_of(s)
                            || c == below(s));
                    }
                }
            }
            i += 1;
        }
        proof {
            assert(result@ == frontier_list(sq));
            assert forall|c: Square| result@.to_set().contains(c)
                <==> frontier(self@).contains(c) by {
                if result@.contains(c) {
                    let j = choose|j: int| 0 <= j < n && is_neighbor(sq[j], c);
                    assert(self@.contains(sq[j]) && is_neighbor(sq[j], c));
                }
                if frontier(self@).contains(c) {
                    let s = choose|s: Square| self@.contains(s) && is_neighbor(s, c);
                    let j = choose|j: int| 0 <= j < sq.len() && sq[j] == s;
                    assert(result@.contains(c));
                }
            }
            assert(result@.to_set() =~= frontier(self@));
            let k = lemma_seq_max_x(sq);
            let top = sq[k];
            assert(in_radius(top, sq.len() as int));
            let c = right_of(top);
            assert(!sq.contains(c)) by {
                if sq.contains(c) {
                    let j = choose|j: int| 0 <= j < sq.len() && sq[j] == c;
                }
            }
            assert(is_neighbor(top, c));
            assert(result@.contains(c));
        }
        result
    }

    /// The least x coordinate over all occupied cells: a bound every cell
    /// respects and some cell attains.
    pub fn min_x(&self) -> (r: i16)
        requires
            self.wf(),
        ensures
            is_low_x(self@, r as int),
            r as int == low_x(self@),
    {
        let ghost sq = self.squares@;
        proof {
            assert(sq.contains(origin()));
        }
        let n = self.squares.len();
        let mut m: i16 = self.squares[0].x;
        let mut i: usize = 1;
        while i < n
            invariant
                sq == self.squares@,
                n == sq.len(),
                1 <= i <= n,
                exists|j: int| 0 <= j < i && sq[j].x == m,
                forall|j: int| 0 <= j < i ==> m <= sq[j].x,
            decreases n - i,
        {
            if self.squares[i].x < m {
                m = self.squares[i].x;
            }
            i += 1;
        }
        proof {
            assert forall|s: Square| self@.contains(s) implies m as int <= s.x by {
                let j = choose|j: int| 0 <= j < sq.len() && sq[j] == s;
            }
            let j = choose|j: int| 0 <= j < sq.len() && sq[j].x == m;
            assert(self@.contains(sq[j]));
            lemma_low_x_is(self@, m as int);
        }
        m
    }

    /// The greatest x coordinate over all occupied cells.
    pub fn max_x(&self) -> (r: i16)
        requires
            self.wf(),
        ensures
            is_high_x(self@, r as int),
            r as int == high_x(self@),
    {
        let ghost sq = self.squares@;
        proof {
            assert(sq.contains(origin()));
        }
        let n = self.squares.len();
        let mut m: i16 = self.squares[0].x;
        let mut i: usize = 1;
        while i < n
            invariant
                sq == self.squares@,
                n == sq.len(),
                1 <= i <= n,
                exists|j: int| 0 <= j < i && sq[j].x == m,
                forall|j: int| 0 <= j < i ==> sq[j].x <= m,
            decreases n - i,
        {
            if self.squares[i].x > m {
                m = self.squares[i].x;
            }
            i += 1;
        }
        proof {
            assert forall|s: Square| self@.contains(s) implies s.x <= m as int by {
                let j = choose|j: int| 0 <= j < sq.len() && sq[j] == s;
            }
            let j = choose|j: int| 0 <= j < sq.len() && sq[j].x == m;
            assert(self@.contains(sq[j]));
            lemma_high_x_is(self@, m as int);
        }
        m
    }

    /// The least y coordinate over all occupied cells.
    pub fn min_y(&self) -> (r: i16)
        requires
            self.wf(),
        ensures
            is_low_y(self@, r as int),
            r as int == low_y(self@),
    {
        let ghost sq = self.squares@;
        proof {
            assert(sq.contains(origin()));
        }
        let n = self.squares.len();
        let mut m: i16 = self.squares[0].y;
        let mut i: usize = 1;
        while i < n
            invariant
                sq == self.squares@,
                n == sq.len(),
                1 <= i <= n,
                exists|j: int| 0 <= j < i && sq[j].y == m,
                forall|j: int| 0 <= j < i ==> m <= sq[j].y,
            decreases n - i,
        {
            if self.squares[i].y < m {
                m = self.squares[i].y;
            }
            i += 1;
        }
        proof {
            assert forall|s: Square| self@.contains(s) implies m as int <= s.y by {
                let j = choose|j: int| 0 <= j < sq.len() && sq[j] == s;
            }
            let j = choose|j: int| 0 <= j < sq.len() && sq[j].y == m;
            assert(self@.contains(sq[j]));
            lemma_low_y_is(self@, m as int);
        }
        m
    }

    /// The greatest y coordinate over all occupied cells.
    pub fn max_y(&self) -> (r: i16)
        requires
            self.wf(),
        ensures
            is_high_y(self@, r as int),
            r as int == high_y(self@),
    {
        let ghost sq = self.squares@;
        proof {
            assert(sq.contains(origin()));
        }
        let n = self.squares.len();
        let mut m: i16 = self.squares[0].y;
        let mut i: usize = 1;
        while i < n
            invariant
                sq == self.squares@,
                n == sq.len(),
                1 <= i <= n,
                exists|j: int| 0 <= j < i && sq[j].y == m,
                forall|j: int| 0 <= j < i ==> sq[j].y <= m,
            decreases n - i,
        {
            if self.squares[i].y > m {
                m = self.squares[i].y;
            }
            i += 1;
        }
        proof {
            assert forall|s: Square| self@.contains(s) implies s.y <= m as int by {
                let j = choose|j: int| 0 <= j < sq.len() && sq[j] == s;
            }
            let j = choose|j: int| 0 <= j < sq.len() && sq[j].y == m;
            assert(self@.contains(sq[j]));
            lemma_high_y_is(self@, m as int);
        }
        m
    }

    /// The half-open range of grid columns covered by the bounding box.
    pub fn range_x(&self) -> (r: core::ops::Range<i16>)
        requires
            self.wf(),
        ensures
            r.start as int == low_x(self@),
            r.end as int == high_x(self@) + 1,
    {
        let lo = self.min_x();
        let hi = self.max_x();
        proof {
            let s = choose|s: Square| self@.contains(s) && s.x == hi as int;
            let j = choose|j: int| 0 <= j < self.cells().len() && self.cells()[j] == s;
            assert(in_radius(self.cells()[j], self.cells().len() as int));
        }
        core::ops::Range { start: lo, end: hi + 1 }
    }

    /// The half-open range of grid rows covered by the bounding box.
    pub fn range_y(&self) -> (r: core::ops::Range<i16>)
        requires
            self.wf(),
        ensures
            r.start as int == low_y(self@),
            r.end as int == high_y(self@) + 1,
    {
        let lo = self.min_y();
        let hi = self.max_y();
        proof {
            let s = choose|s: Square| self@.contains(s) && s.y == hi as int;
            let j = choose|j: int| 0 <= j < self.cells().len() && self.cells()[j] == s;
            assert(in_radius(self.cells()[j], self.cells().len() as int));
        }
        core::ops::Range { start: lo, end: hi + 1 }
    }

    /// Annex one frontier cell: the shape keeps all its cells, gains `c`
    /// at the end of the insertion order, and stays well formed.
    pub(crate) fn insert_cell(&mut self, c: Square)
        requires
            old(self).wf(),
            old(self).cells().len() < CAPACITY,
            frontier(old(self)@).contains(c),
        ensures
            final(self).wf(),
            final(self).cells() == old(self).cells().push(c),
            final(self)@ == old(self)@.insert(c),
            final(self)@.len() == old(self)@.len() + 1,
    {
        self.squares.push(c);
        proof {
            let sq0 = old(self).cells();
            let sq = self.squares@;
            assert(sq == sq0.push(c));
            assert(!sq0.contains(c));
            assert(sq.no_duplicates()) by {
                assert forall|p: int, q: int| 0 <= p < q < sq.len() implies sq[p] != sq[q] by {
                    if q == sq.len() - 1 {
                        assert(sq0.contains(sq0[p]));
                    }
                }
            }
            let s0 = choose|s: Square| old(self)@.contains(s) && is_neighbor(s, c);
            let j0 = choose|j: int| 0 <= j < sq0.len() && sq0[j] == s0;
            assert(in_radius(sq0[j0], sq0.len() as int));
            assert forall|i: int| 0 <= i < sq.len() implies in_radius(
                #[trigger] sq[i],
                sq.len() as int,
            ) by {
                if i < sq0.len() {
                    assert(in_radius(sq0[i], sq0.len() as int));
                }
            }
            assert(sq.contains(origin())) by {
                let jo = choose|j: int| 0 <= j < sq0.len() && sq0[j] == origin();
                assert(sq[jo] == origin());
            }
            assert(sq.to_set() =~= sq0.to_set().insert(c));
            lemma_connected_insert(sq0.to_set(), c);
            sq0.unique_seq_to_set();
            sq.unique_seq_to_set();
        }
    }
}

/// `v` is the least x coordinate of an occupied cell: some cell attains
/// it and no cell lies below it.
pub open spec fn is_low_x(occ: Set<Square>, v: int) -> bool {
    &&& exists|s: Square| occ.contains(s) && s.x == v
    &&& forall|s: Square| occ.contains(s) ==> v <= s.x
}

/// `v` is the greatest x coordinate of an occupied cell.
pub open spec fn is_high_x(occ: Set<Square>, v: int) -> bool {
    &&& exists|s: Square| occ.contains(s) && s.x == v
    &&& forall|s: Square| occ.contains(s) ==> s.x <= v
}

/// `v` is the least y coordinate of an occupied cell.
pub open spec fn is_low_y(occ: Set<Square>, v: int) -> bool {
    &&& exists|s: Square| occ.contains(s) && s.y == v
    &&& forall|s: Square| occ.contains(s) ==> v <= s.y
}

/// `v` is the greatest y coordinate of an occupied cell.
pub open spec fn is_high_y(occ: Set<Square>, v: int) -> bool {
    &&& exists|s: Square| occ.contains(s) && s.y == v
    &&& forall|s: Square| occ.contains(s) ==> s.y <= v
}

/// The least x coordinate of the bounding box of `occ`.
pub open spec fn low_x(occ: Set<Square>) -> int {
    choose|v: int| is_low_x(occ, v)
}

/// The greatest x coordinate of the bounding box of `occ`.
pub open spec fn high_x(occ: Set<Square>) -> int {
    choose|v: int| is_high_x(occ, v)
}

/// The least y coordinate of the bounding box of `occ`.
pub open spec fn low_y(occ: Set<Square>) -> int {
    choose|v: int| is_low_y(occ, v)
}

/// The greatest y coordinate of the bounding box of `occ`.
pub open spec fn high_y(occ: Set<Square>) -> int {
    choose|v: int| is_high_y(occ, v)
}

/// A value that satisfies `is_low_x` is the one `low_x` names.
pub proof fn lemma_low_x_is(occ: Set<Square>, v: int)
    requires
        is_low_x(occ, v),
    ensures
        low_x(occ) == v,
{
    assert(is_low_x(occ, low_x(occ)));
    let s1 = choose|s: Square| occ.contains(s) && s.x == v;
    let s2 = choose|s: Square| occ.contains(s) && s.x == low_x(occ);
    assert(v <= s2.x && low_x(occ) <= s1.x);
}

/// A value that satisfies `is_high_x` is the one `high_x` names.
pub proof fn lemma_high_x_is(occ: Set<Square>, v: int)
    requires
        is_high_x(occ, v),
    ensures
        high_x(occ) == v,
{
    assert(is_high_x(occ, high_x(occ)));
    let s1 = choose|s: Square| occ.contains(s) && s.x == v;
    let s2 = choose|s: Square| occ.contains(s) && s.x == high_x(occ);
    assert(s2.x <= v && s1.x <= high_x(occ));
}

/// A value that satisfies `is_low_y` is the one `low_y` names.
pub proof fn lemma_low_y_is(occ: Set<Square>, v: int)
    requires
        is_low_y(occ, v),
    ensures
        low_y(occ) == v,
{
    assert(is_low_y(occ, low_y(occ)));
    let s1 = choose|s: Square| occ.contains(s) && s.y == v;
    let s2 = choose|s: Square| occ.contains(s) && s.y == low_y(occ);
    assert(v <= s2.y && low_y(occ) <= s1.y);
}

/// A value that satisfies `is_high_y` is the one `high_y` names.
pub proof fn lemma_high_y_is(occ: Set<Square>, v: int)
    requires
        is_high_y(occ, v),
    ensures
        high_y(occ) == v,
{
    assert(is_high_y(occ, high_y(occ)));
    let s1 = choose|s: Square| occ.contains(s) && s.y == v;
    let s2 = choose|s: Square| occ.contains(s) && s.y == high_y(occ);
    assert(s2.y <= v && s1.y <= high_y(occ));
}

/// Whether the vector already lists `c`.
fn vec_contains(v: &Vec<Square>, c: Square) -> (b: bool)
    ensures
        b == v@.contains(c),
{
    let n = v.len();
    let mut i: usize = 0;
    while i < n
        invariant
            0 <= i <= n,
            n == v@.len(),
            forall|j: int| 0 <= j < i ==> v@[j] != c,
        decreases n - i,
    {
        if v[i].x == c.x && v[i].y == c.y {
            assert(v@[i as int] == c);
            return true;
        }
        i += 1;
    }
    false
}

} // verus!
