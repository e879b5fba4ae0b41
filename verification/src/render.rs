//! Rendering the finished shape as a block-character image.
//!
//! The bounding box of the occupied set fixes a grid of rows and columns.
//! Each grid row becomes two output lines; each column contributes one
//! four-character glyph group per line: blanks where the cell is
//! occupied, and a fixed top or bottom brick glyph where it is not.

use vstd::prelude::*;
use vstd::string::StringExecFns;
use crate::group::{high_x, high_y, low_x, low_y, Group};
use crate::square::occ_at;

verus! {

/// The group of four blank characters an occupied cell renders as.
pub open spec fn blank_group() -> Seq<char> {
    "    "@
}

/// The glyph group an unoccupied cell renders as on the top line of a row.
pub open spec fn top_fill() -> Seq<char> {
    "▐▀▀▌"@
}

/// The glyph group an unoccupied cell renders as on the bottom line of a row.
pub open spec fn bottom_fill() -> Seq<char> {
    "▐▄▄▌"@
}

/// The four characters the cell at `(x, y)` contributes to a line whose
/// unoccupied cells show `fill`.
pub open spec fn glyph_at(occ: Set<crate::square::Square>, x: int, y: int, fill: Seq<char>) -> Seq<
    char,
> {
    if occ_at(occ, x, y) {
        blank_group()
    } else {
        fill
    }
}

/// The characters of one output line: `cols` glyph groups for the cells
/// `(x0, y)` through `(x0 + cols - 1, y)`.
pub open spec fn row_chars(
    occ: Set<crate::square::Square>,
    y: int,
    x0: int,
    cols: nat,
    fill: Seq<char>,
) -> Seq<char>
    decreases cols,
{
    if cols == 0 {
        Seq::empty()
    } else {
        glyph_at(occ, x0, y, fill) + row_chars(occ, y, x0 + 1, (cols - 1) as nat, fill)
    }
}

/// A line one column longer extends the shorter line by the glyph group
/// of its last column.
proof fn lemma_row_chars_snoc(
    occ: Set<crate::square::Square>,
    y: int,
    x0: int,
    cols: nat,
    fill: Seq<char>,
)
    ensures
        row_chars(occ, y, x0, (cols + 1) as nat, fill)
            == row_chars(occ, y, x0, cols, fill) + glyph_at(occ, x0 + cols, y, fill),
    decreases cols,
{
    if cols == 0 {
        assert(row_chars(occ, y, x0 + 1, 0, fill) == Seq::<char>::empty());
        assert(row_chars(occ, y, x0, 1nat, fill) =~= glyph_at(occ, x0, y, fill));
        assert(row_chars(occ, y, x0, 0, fill) + glyph_at(occ, x0, y, fill) =~= glyph_at(
            occ,
            x0,
            y,
            fill,
        ));
    } else {
        lemma_row_chars_snoc(occ, y, x0 + 1, (cols - 1) as nat, fill);
        assert(row_chars(occ, y, x0, (cols + 1) as nat, fill) =~= row_chars(occ, y, x0, cols, fill)
            + glyph_at(occ, x0 + cols, y, fill));
    }
}

impl Group {
    /// Whether the shape occupies the cell at `(x, y)`.
    pub fn contains_cell(&self, x: i16, y: i16) -> (b: bool)
        ensures
            b == occ_at(self@, x as int, y as int),
    {
        let c = crate::square::Square { x, y };
        let b = self.contains_square(c);
        proof {
            if b {
                assert(self@.contains(c) && c.x == x as int && c.y == y as int);
            }
            if occ_at(self@, x as int, y as int) {
                let s = choose|s: crate::square::Square|
                    self@.contains(s) && s.x == x as int && s.y == y as int;
                assert(s == c);
            }
        }
        b
    }

    /// One output line for grid row `y`, spanning columns `x_lo` through
    /// `x_hi`, with `fill` at the unoccupied cells.
    fn render_row(&self, y: i16, x_lo: i16, x_hi: i16, fill: &str) -> (row: String)
        requires
            self.wf(),
            x_lo <= x_hi,
            x_hi < i16::MAX,
        ensures
            row@ == row_chars(self@, y as int, x_lo as int, (x_hi - x_lo + 1) as nat, fill@),
    {
        let mut row = String::new();
        let mut x = x_lo;
        while x <= x_hi
            invariant
                self.wf(),
                x_lo <= x <= x_hi + 1,
                x_hi < i16::MAX,
                row@ == row_chars(self@, y as int, x_lo as int, (x - x_lo) as nat, fill@),
            decreases x_hi + 1 - x,
        {
            if self.contains_cell(x, y) {
                row.append("    ");
            } else {
                row.append(fill);
            }
            proof {
                lemma_row_chars_snoc(self@, y as int, x_lo as int, (x - x_lo) as nat, fill@);
            }
            x = x + 1;
        }
        row
    }

    /// The rendered image of the shape: two lines per grid row of the
    /// bounding box, each line one glyph group per grid column — blanks
    /// at occupied cells, brick glyphs elsewhere.
    pub fn render_grid(&self) -> (lines: Vec<String>)
        requires
            self.wf(),
        ensures
            ({
                let occ = self@;
                let rows = high_y(occ) - low_y(occ) + 1;
                let cols = (high_x(occ) - low_x(occ) + 1) as nat;
                &&& lines@.len() == 2 * rows
                &&& forall|r: int|
                    0 <= r < rows ==> (#[trigger] lines@[2 * r])@ == row_chars(
                        occ,
                        low_y(occ) + r,
                        low_x(occ),
                        cols,
                        top_fill(),
                    )
                &&& forall|r: int|
                    0 <= r < rows ==> (#[trigger] lines@[2 * r + 1])@ == row_chars(
                        occ,
                        low_y(occ) + r,
                        low_x(occ),
                        cols,
                        bottom_fill(),
                    )
            }),
    {
        let x_lo = self.min_x();
        let x_hi = self.max_x();
        let y_lo = self.min_y();
        let y_hi = self.max_y();
        proof {
            let sq = self.cells();
            let s1 = choose|s: crate::square::Square| self@.contains(s) && s.x == x_hi as int;
            let j1 = choose|j: int| 0 <= j < sq.len() && sq[j] == s1;
            assert(crate::frontier::in_radius(sq[j1], sq.len() as int));
            let s2 = choose|s: crate::square::Square| self@.contains(s) && s.y == y_hi as int;
            let j2 = choose|j: int| 0 <= j < sq.len() && sq[j] == s2;
            assert(crate::frontier::in_radius(sq[j2], sq.len() as int));
            assert(x_lo <= s1.x && y_lo <= s2.y);
        }
        let mut lines: Vec<String> = Vec::new();
        let mut y = y_lo;
        while y <= y_hi
            invariant
                self.wf(),
                y_lo <= y <= y_hi + 1,
                y_hi < i16::MAX,
                x_lo <= x_hi,
                x_hi < i16::MAX,
                x_lo as int == low_x(self@),
                x_hi as int == high_x(self@),
                y_lo as int == low_y(self@),
                y_hi as int == high_y(self@),
                lines@.len() == 2 * (y - y_lo),
                forall|r: int|
                    0 <= r < y - y_lo ==> (#[trigger] lines@[2 * r])@ == row_chars(
                        self@,
                        y_lo + r,
                        x_lo as int,
                        (x_hi - x_lo + 1) as nat,
                        top_fill(),
                    ),
                forall|r: int|
                    0 <= r < y - y_lo ==> (#[trigger] lines@[2 * r + 1])@ == row_chars(
                        self@,
                        y_lo + r,
                        x_lo as int,
                        (x_hi - x_lo + 1) as nat,
                        bottom_fill(),
                    ),
            decreases y_hi + 1 - y,
        {
            let top = self.render_row(y, x_lo, x_hi, "▐▀▀▌");
            let bottom = self.render_row(y, x_lo, x_hi, "▐▄▄▌");
            lines.push(top);
            lines.push(bottom);
            y = y + 1;
        }
        lines
    }
}

} // verus!
