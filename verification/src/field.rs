use vstd::prelude::*;

use crate::buffer::{put_grapheme, Buffer, CellView};
use crate::geometry::Rect;
use crate::style::Style;

verus! {

/// A surface of screen cells with a logical `width × height` grid over them: logical
/// cell `(col, row)` is the screen cell `cells[row * width + col]`.
#[derive(Debug, Clone, PartialEq, Eq)]
pub struct Field {
    cells: Vec<(u16, u16)>,
    width: u16,
    height: u16,
}

/// The screen cell behind logical index `i` (row-major) of a field with `cells`, when
/// there is one.
pub open spec fn logical_cell(cells: Seq<(u16, u16)>, i: int) -> Option<(u16, u16)> {
    if 0 <= i < cells.len() {
        Some(cells[i])
    } else {
        None
    }
}

/// The cells after painting: for each logical cell `i < k` in row-major order that
/// has a screen cell and whose paint result `rs[i]` is `Some((g, s))`, grapheme `g`
/// written there in style `s`.
pub open spec fn paint_fold(
    v: Seq<CellView>,
    area: Rect,
    cells: Seq<(u16, u16)>,
    rs: Seq<Option<(String, Style)>>,
    k: int,
) -> Seq<CellView>
    decreases k,
{
    if k <= 0 {
        v
    } else {
        let prev = paint_fold(v, area, cells, rs, k - 1);
        match (logical_cell(cells, k - 1), rs[k - 1]) {
            (Some(p), Some(gs)) => put_grapheme(prev, area, p.0 as int, p.1 as int, gs.0@, gs.1).0,
            _ => prev,
        }
    }
}

impl Field {
    /// The screen cells, in logical row-major order.
    pub closed spec fn cells_spec(&self) -> Seq<(u16, u16)> {
        self.cells@
    }

    /// The logical width.
    pub closed spec fn width_spec(&self) -> u16 {
        self.width
    }

    /// The logical height.
    pub closed spec fn height_spec(&self) -> u16 {
        self.height
    }

    /// A rectangular field over `area`, row-major.
    pub fn rect(area: Rect) -> (f: Self)
        requires
            area.fits(),
        ensures
            f.width_spec() == area.width,
            f.height_spec() == area.height,
            f.cells_spec().len() == area.width * area.height,
            forall|c: int, r: int|
                0 <= c < area.width && 0 <= r < area.height ==> #[trigger] f.cells_spec()[r * area.width + c]
                    == ((area.x + c) as u16, (area.y + r) as u16),
    {
        let mut cells: Vec<(u16, u16)> = Vec::new();
        let mut r: u16 = 0;
        while r < area.height
            invariant
                area.fits(),
                r <= area.height,
                cells@.len() == r * area.width,
                forall|c: int, rr: int|
                    0 <= c < area.width && 0 <= rr < r ==> #[trigger] cells@[rr * area.width + c] == (
                    (area.x + c) as u16,
                    (area.y + rr) as u16,
                ),
            decreases area.height - r,
        {
            let mut c: u16 = 0;
            let ghost base = cells@;
            while c < area.width
                invariant
                    area.fits(),
                    r < area.height,
                    c <= area.width,
                    base.len() == r * area.width,
                    cells@.len() == r * area.width + c,
                    forall|k: int| 0 <= k < base.len() ==> #[trigger] cells@[k] == base[k],
                    forall|cc: int| 0 <= cc < c ==> #[trigger] cells@[r * area.width + cc] == (
                        (area.x + cc) as u16,
                        (area.y + r) as u16,
                    ),
                decreases area.width - c,
            {
                cells.push((area.x + c, area.y + r));
                c = c + 1;
            }
            proof {
                assert((r + 1) * area.width == r * area.width + area.width) by (nonlinear_arith);
                assert forall|cc: int, rr: int|
                    0 <= cc < area.width && 0 <= rr < r + 1 implies #[trigger] cells@[rr * area.width + cc] == (
                    (area.x + cc) as u16,
                    (area.y + rr) as u16,
                ) by {
                    if rr < r {
                        assert(rr * area.width + cc < r * area.width) by (nonlinear_arith)
                            requires
                                0 <= cc < area.width,
                                0 <= rr < r,
                        ;
                        assert(cells@[rr * area.width + cc] == base[rr * area.width + cc]);
                    }
                }
            }
            r = r + 1;
        }
        proof {
            assert(area.height * area.width == area.width * area.height) by (nonlinear_arith);
        }
        Field { cells, width: area.width, height: area.height }
    }

    /// A one-row field over an ordered path of cells: `width` is the path's length
    /// (kept to 16 bits), `height` is 1.
    pub fn strip(cells: Vec<(u16, u16)>) -> (f: Self)
        ensures
            f.cells_spec() == cells@,
            f.width_spec() == cells@.len() as u16,
            f.height_spec() == 1,
    {
        let width = cells.len() as u16;
        Field { cells, width, height: 1 }
    }

    /// A one-row field tracing the border of `area` clockwise from its top-left corner,
    /// each cell once: the top edge left to right, the right edge down, the bottom edge
    /// right to left and the left edge up; a single row or column is its straight run.
    pub fn perimeter(area: Rect) -> (f: Self)
        requires
            area.fits(),
        ensures
            f.height_spec() == 1,
            f.cells_spec().len() == area.border_len_spec(),
            f.width_spec() == area.border_len_spec() as u16,
            forall|k: int|
                0 <= k < f.cells_spec().len() ==> (f.cells_spec()[k].0 as int, f.cells_spec()[k].1 as int)
                    == area.border_cell_at(k),
    {
        Self::strip(area.border_cells())
    }

    /// The logical width.
    pub fn width(&self) -> (w: u16)
        ensures
            w == self.width_spec(),
    {
        self.width
    }

    /// The logical height.
    pub fn height(&self) -> (h: u16)
        ensures
            h == self.height_spec(),
    {
        self.height
    }

    /// The screen cells, in logical row-major order.
    pub fn cells(&self) -> (c: &[(u16, u16)])
        ensures
            c@ == self.cells_spec(),
    {
        self.cells.as_slice()
    }

    /// The screen cell at logical `(col, row)`, or `None` out of range.
    pub fn cell(&self, col: u16, row: u16) -> (r: Option<(u16, u16)>)
        ensures
            r == if col < self.width_spec() && row < self.height_spec() {
                logical_cell(self.cells_spec(), row * self.width_spec() + col)
            } else {
                None
            },
    {
        if col >= self.width || row >= self.height {
            return None;
        }
        proof {
            assert(row * self.width + col <= 65535 * 65535 + 65535) by (nonlinear_arith)
                requires
                    row <= 65535,
                    self.width <= 65535,
                    col <= 65535,
            ;
        }
        let i = row as usize * self.width as usize + col as usize;
        if i < self.cells.len() {
            Some(self.cells[i])
        } else {
            None
        }
    }

    /// Paint every logical cell in row-major order: `f(col, row)` gives the grapheme
    /// and style to draw there, or `None` to leave it.  The buffer ends as
    /// [`paint_fold`] says for the results `f` gave.
    pub fn paint<F: FnMut(u16, u16) -> Option<(String, Style)>>(&self, buf: &mut Buffer, mut f: F)
        requires
            old(buf).wf(),
            forall|c: u16, r: u16| call_requires(f, (c, r)),
        ensures
            final(buf).wf(),
            final(buf).area == old(buf).area,
            exists|rs: Seq<Option<(String, Style)>>|
                #![trigger paint_fold(old(buf).view(), old(buf).area, self.cells_spec(), rs, rs.len() as int)]
                rs.len() == self.width_spec() * self.height_spec() && (forall|i: int|
                    0 <= i < rs.len() ==> call_ensures(
                        f,
                        ((i % (self.width_spec() as int)) as u16, (i / (self.width_spec() as int)) as u16),
                        #[trigger] rs[i],
                    )) && final(buf).view() == paint_fold(
                    old(buf).view(),
                    old(buf).area,
                    self.cells_spec(),
                    rs,
                    rs.len() as int,
                ),
    {
        let ghost f0 = f;
        let ghost v0 = buf.view();
        let ghost area = buf.area;
        let ghost w = self.width as int;
        let ghost mut rs: Seq<Option<(String, Style)>> = Seq::empty();
        let mut row: u16 = 0;
        while row < self.height
            invariant
                buf.wf(),
                buf.area == area,
                w == self.width_spec(),
                f == f0,
                row <= self.height,
                rs.len() == row * w,
                forall|c: u16, r: u16| call_requires(f, (c, r)),
                forall|i: int|
                    0 <= i < rs.len() ==> call_ensures(f, ((i % w) as u16, (i / w) as u16), #[trigger] rs[i]),
                buf.view() == paint_fold(v0, area, self.cells_spec(), rs, rs.len() as int),
            decreases self.height - row,
        {
            let mut col: u16 = 0;
            while col < self.width
                invariant
                    buf.wf(),
                    buf.area == area,
                    w == self.width_spec(),
                    f == f0,
                    row < self.height,
                    col <= self.width,
                    rs.len() == row * w + col,
                    forall|c: u16, r: u16| call_requires(f, (c, r)),
                    forall|i: int|
                        0 <= i < rs.len() ==> call_ensures(f, ((i % w) as u16, (i / w) as u16), #[trigger] rs[i]),
                    buf.view() == paint_fold(v0, area, self.cells_spec(), rs, rs.len() as int),
                decreases self.width - col,
            {
                let cell = self.cell(col, row);
                let out = f(col, row);
                let ghost i = row * w + col;
                proof {
                    vstd::arithmetic::div_mod::lemma_fundamental_div_mod_converse_mod(i, w, row as int, col as int);
                    vstd::arithmetic::div_mod::lemma_fundamental_div_mod_converse_div(i, w, row as int, col as int);
                    let rs2 = rs.push(out);
                    assert forall|j: int| 0 <= j < rs2.len() implies call_ensures(f, ((j % w) as u16, (j / w) as u16), #[trigger] rs2[j]) by {
                        if j < rs.len() {
                            assert(rs2[j] == rs[j]);
                        }
                    }
                    assert(paint_fold(v0, area, self.cells_spec(), rs2, rs.len() as int) == paint_fold(v0, area, self.cells_spec(), rs, rs.len() as int)) by {
                        lemma_paint_fold_prefix(v0, area, self.cells_spec(), rs, rs2, rs.len() as int);
                    }
                    rs = rs2;
                }
                match (cell, out) {
                    (Some((x, y)), Some((g, s))) => {
                        let _ = buf.set_grapheme(x, y, g.as_str(), s);
                    },
                    _ => {},
                }
                col = col + 1;
            }
            proof {
                assert((row + 1) * w == row * w + w) by (nonlinear_arith);
            }
            row = row + 1;
        }
        proof {
            assert(rs.len() == self.width_spec() * self.height_spec()) by (nonlinear_arith)
                requires
                    rs.len() == self.height_spec() * w,
                    w == self.width_spec(),
            ;
        }
    }
}

/// Painting depends only on the results of the cells painted so far.
proof fn lemma_paint_fold_prefix(
    v: Seq<CellView>,
    area: Rect,
    cells: Seq<(u16, u16)>,
    rs: Seq<Option<(String, Style)>>,
    rs2: Seq<Option<(String, Style)>>,
    k: int,
)
    requires
        0 <= k <= rs.len(),
        k <= rs2.len(),
        forall|i: int| 0 <= i < k ==> rs[i] == rs2[i],
    ensures
        paint_fold(v, area, cells, rs, k) == paint_fold(v, area, cells, rs2, k),
    decreases k,
{
    if k > 0 {
        lemma_paint_fold_prefix(v, area, cells, rs, rs2, k - 1);
    }
}

/// The braille dot bit of sub-pixel `(sx, sy)` of a 2×4 cell, in the standard dot
/// numbering packed into `U+2800 + mask`; 0 outside the cell.
pub fn braille_bit(sx: u16, sy: u16) -> (b: u8)
    ensures
        b == match (sx, sy) {
            (0, 0) => 0x01u8,
            (0, 1) => 0x02u8,
            (0, 2) => 0x04u8,
            (0, 3) => 0x40u8,
            (1, 0) => 0x08u8,
            (1, 1) => 0x10u8,
            (1, 2) => 0x20u8,
            (1, 3) => 0x80u8,
            _ => 0u8,
        },
{
    match (sx, sy) {
        (0, 0) => 0x01,
        (0, 1) => 0x02,
        (0, 2) => 0x04,
        (0, 3) => 0x40,
        (1, 0) => 0x08,
        (1, 1) => 0x10,
        (1, 2) => 0x20,
        (1, 3) => 0x80,
        _ => 0,
    }
}

} // verus!
