use vstd::prelude::*;

use crate::buffer::{append_char, put_grapheme, Buffer, CellView};
use crate::junction::{
    bare_cell, box_effect, grid_grows, h_line_effect, in_area, lemma_grid_grows_trans, resolve, resolve_spec,
    v_line_effect, EdgeCell, EdgeGrid,
};
use crate::layout::{
    child_rect_spec, constraints_of, ext_sum, main_len, main_start, partition_spec,
    tree_ok, Axis, Constraint, Node, TileId,
};
use crate::geometry::{sat_add, sat_sub, Rect};
use crate::style::Style;

verus! {

/// Stroke weight of a border line.
#[derive(Debug, Clone, Copy, PartialEq, Eq, Structural, Hash)]
pub enum LineWeight {
    Light,
    Heavy,
    Double,
}

/// Corner shape of a light box.
#[derive(Debug, Clone, Copy, PartialEq, Eq, Structural, Hash)]
pub enum CornerStyle {
    Square,
    Rounded,
}

/// Which sides of a box to draw, one bit per side.
#[derive(Debug, Clone, Copy, PartialEq, Eq, Structural, Hash)]
pub struct Borders {
    pub bits: u8,
}

impl Borders {
    /// The side set top.
    pub fn top() -> (b: Borders)
        ensures
            b.bits == 1,
    {
        Borders { bits: 1 }
    }

    /// The side set bottom.
    pub fn bottom() -> (b: Borders)
        ensures
            b.bits == 2,
    {
        Borders { bits: 2 }
    }

    /// The side set left.
    pub fn left() -> (b: Borders)
        ensures
            b.bits == 4,
    {
        Borders { bits: 4 }
    }

    /// The side set right.
    pub fn right() -> (b: Borders)
        ensures
            b.bits == 8,
    {
        Borders { bits: 8 }
    }

    /// The side set all.
    pub fn all() -> (b: Borders)
        ensures
            b.bits == 15,
    {
        Borders { bits: 15 }
    }

    /// The side set none.
    pub fn empty() -> (b: Borders)
        ensures
            b.bits == 0,
    {
        Borders { bits: 0 }
    }


    /// `true` when every side of `other` is in `self`.
    pub fn contains(self, other: Borders) -> (r: bool)
        ensures
            r == (self.bits & other.bits == other.bits),
    {
        self.bits & other.bits == other.bits
    }

    /// The sides in either set.
    pub fn union(self, other: Borders) -> (r: Borders)
        ensures
            r.bits == self.bits | other.bits,
    {
        Borders { bits: self.bits | other.bits }
    }
}

/// Weight, corner shape and colours of a drawn box.
#[derive(Debug, Clone, Copy, PartialEq, Eq)]
pub struct BorderStyle {
    pub weight: LineWeight,
    pub corners: CornerStyle,
    pub style: Style,
}

/// A run of border cells left open (a socket or title gap).
#[derive(Debug, Clone, Copy, PartialEq, Eq, Structural, Hash)]
pub struct BorderGap {
    pub rect: Rect,
}

impl BorderGap {
    pub fn new(rect: Rect) -> (g: Self)
        ensures
            g.rect == rect,
    {
        BorderGap { rect }
    }
}

/// The six glyphs of a box: horizontal line, vertical line, and the top-left,
/// top-right, bottom-left and bottom-right corners.
pub type Glyphs = (Seq<char>, Seq<char>, Seq<char>, Seq<char>, Seq<char>, Seq<char>);

/// The glyph set of a weight and corner style; rounded corners exist only for the
/// light weight, the others fall back to square corners.
pub open spec fn glyphs_spec(weight: LineWeight, corners: CornerStyle) -> Glyphs {
    match (weight, corners) {
        (LineWeight::Light, CornerStyle::Square) => (
            seq!['─'],
            seq!['│'],
            seq!['┌'],
            seq!['┐'],
            seq!['└'],
            seq!['┘'],
        ),
        (LineWeight::Light, CornerStyle::Rounded) => (
            seq!['─'],
            seq!['│'],
            seq!['╭'],
            seq!['╮'],
            seq!['╰'],
            seq!['╯'],
        ),
        (LineWeight::Heavy, _) => (
            seq!['━'],
            seq!['┃'],
            seq!['┏'],
            seq!['┓'],
            seq!['┗'],
            seq!['┛'],
        ),
        (LineWeight::Double, _) => (
            seq!['═'],
            seq!['║'],
            seq!['╔'],
            seq!['╗'],
            seq!['╚'],
            seq!['╝'],
        ),
    }
}

/// The `(h_line, v_line, top_left, top_right, bot_left, bot_right)` glyph set for
/// a weight and corner style.
pub fn border_glyphs(weight: &LineWeight, corners: &CornerStyle) -> (r: (
    &'static str,
    &'static str,
    &'static str,
    &'static str,
    &'static str,
    &'static str,
))
    ensures
        (r.0@, r.1@, r.2@, r.3@, r.4@, r.5@) == glyphs_spec(*weight, *corners),
{
    match (weight, corners) {
        (LineWeight::Light, CornerStyle::Square) => {
            proof {
                reveal_strlit("─");
                reveal_strlit("│");
                reveal_strlit("┌");
                reveal_strlit("┐");
                reveal_strlit("└");
                reveal_strlit("┘");
            }
            ("─", "│", "┌", "┐", "└", "┘")
        },
        (LineWeight::Light, CornerStyle::Rounded) => {
            proof {
                reveal_strlit("─");
                reveal_strlit("│");
                reveal_strlit("╭");
                reveal_strlit("╮");
                reveal_strlit("╰");
                reveal_strlit("╯");
            }
            ("─", "│", "╭", "╮", "╰", "╯")
        },
        (LineWeight::Heavy, _) => {
            proof {
                reveal_strlit("━");
                reveal_strlit("┃");
                reveal_strlit("┏");
                reveal_strlit("┓");
                reveal_strlit("┗");
                reveal_strlit("┛");
            }
            ("━", "┃", "┏", "┓", "┗", "┛")
        },
        (LineWeight::Double, _) => {
            proof {
                reveal_strlit("═");
                reveal_strlit("║");
                reveal_strlit("╔");
                reveal_strlit("╗");
                reveal_strlit("╚");
                reveal_strlit("╝");
            }
            ("═", "║", "╔", "╗", "╚", "╝")
        },
    }
}

/// One glyph written at a cell.
pub type Stroke = (int, int, Seq<char>);

/// The cells after writing each stroke in turn.
pub open spec fn put_strokes(v: Seq<CellView>, area: Rect, strokes: Seq<Stroke>, style: Style) -> Seq<
    CellView,
>
    decreases strokes.len(),
{
    if strokes.len() == 0 {
        v
    } else {
        let s = strokes.last();
        put_grapheme(put_strokes(v, area, strokes.drop_last(), style), area, s.0, s.1, s.2, style).0
    }
}

/// The glyph at a corner where a horizontal and a vertical side may meet: the
/// corner when both are drawn, the drawn side's line when one is, none otherwise.
pub open spec fn corner_stroke(h_side: bool, v_side: bool, corner: Seq<char>, g: Glyphs, x: int, y: int) -> Seq<Stroke> {
    if h_side && v_side {
        seq![(x, y, corner)]
    } else if h_side {
        seq![(x, y, g.0)]
    } else if v_side {
        seq![(x, y, g.1)]
    } else {
        Seq::empty()
    }
}

/// A run of `n` copies of `glyph` along a row from `(x, y)`.
pub open spec fn row_run(x: int, y: int, n: int, glyph: Seq<char>) -> Seq<Stroke> {
    Seq::new(n as nat, |k: int| (x + k, y, glyph))
}

/// A run of `n` copies of `glyph` down a column from `(x, y)`.
pub open spec fn col_run(x: int, y: int, n: int, glyph: Seq<char>) -> Seq<Stroke> {
    Seq::new(n as nat, |k: int| (x, y + k, glyph))
}

/// The side strokes of the first `n` middle rows below `y0`: for each row, the left
/// side then the right side, as requested.
pub open spec fn side_strokes(x0: int, x1: int, y0: int, n: int, left: bool, right: bool, g: Glyphs) -> Seq<Stroke>
    decreases n,
{
    if n <= 0 {
        Seq::empty()
    } else {
        let y = y0 + n;
        side_strokes(x0, x1, y0, n - 1, left, right, g) + (if left {
            seq![(x0, y, g.1)]
        } else {
            Seq::empty()
        }) + (if right {
            seq![(x1, y, g.1)]
        } else {
            Seq::empty()
        })
    }
}

/// The strokes that draw the requested sides of the (already clipped) box `a`, in
/// drawing order: a single column or row degenerates to one line; otherwise the top
/// row, the sides, then the bottom row, corners included.
pub open spec fn box_strokes(a: Rect, top: bool, bottom: bool, left: bool, right: bool, g: Glyphs) -> Seq<Stroke> {
    let x0 = a.x as int;
    let x1 = a.x + a.width - 1;
    let y0 = a.y as int;
    let y1 = a.y + a.height - 1;
    if a.width == 0 || a.height == 0 {
        Seq::empty()
    } else if a.width == 1 {
        if left || right {
            col_run(x0, y0, a.height as int, g.1)
        } else {
            Seq::empty()
        }
    } else if a.height == 1 {
        if top || bottom {
            row_run(x0, y0, a.width as int, g.0)
        } else {
            Seq::empty()
        }
    } else {
        corner_stroke(top, left, g.2, g, x0, y0) + (if top {
            row_run(x0 + 1, y0, x1 - x0 - 1, g.0)
        } else {
            Seq::empty()
        }) + corner_stroke(top, right, g.3, g, x1, y0) + side_strokes(
            x0,
            x1,
            y0,
            y1 - y0 - 1,
            left,
            right,
            g,
        ) + corner_stroke(bottom, left, g.4, g, x0, y1) + (if bottom {
            row_run(x0 + 1, y1, x1 - x0 - 1, g.0)
        } else {
            Seq::empty()
        }) + corner_stroke(bottom, right, g.5, g, x1, y1)
    }
}

/// Whether the side with bit `bit` is in `b`.
pub open spec fn has_side(b: Borders, bit: u8) -> bool {
    b.bits & bit == bit
}

/// The cells after drawing the requested sides of `area` (clipped to the buffer's
/// area) in a border style.
pub open spec fn draw_box_spec(v: Seq<CellView>, barea: Rect, area: Rect, borders: Borders, style: BorderStyle) -> Seq<CellView> {
    let a = barea.intersection_spec(area);
    put_strokes(
        v,
        barea,
        box_strokes(
            a,
            has_side(borders, 1),
            has_side(borders, 2),
            has_side(borders, 4),
            has_side(borders, 8),
            glyphs_spec(style.weight, style.corners),
        ),
        style.style,
    )
}

/// Write one stroke, extending the record of strokes written.
pub(crate) fn stroke(buf: &mut Buffer, x: u16, y: u16, g: &str, style: Style, Ghost(v0): Ghost<Seq<CellView>>, Ghost(done): Ghost<Seq<Stroke>>) -> (r: Ghost<Seq<Stroke>>)
    requires
        old(buf).wf(),
        old(buf).view() == put_strokes(v0, old(buf).area, done, style),
    ensures
        final(buf).wf(),
        final(buf).area == old(buf).area,
        r@ == done.push((x as int, y as int, g@)),
        final(buf).view() == put_strokes(v0, old(buf).area, r@, style),
{
    let _ = buf.set_grapheme(x, y, g, style);
    let ghost d2 = done.push((x as int, y as int, g@));
    proof {
        assert(d2.drop_last() =~= done);
    }
    Ghost(d2)
}

/// Draw a corner cell as [`corner_stroke`] says.
fn corner(buf: &mut Buffer, h_side: bool, v_side: bool, c: &str, h_line: &str, v_line: &str, x: u16, y: u16, style: Style, Ghost(v0): Ghost<Seq<CellView>>, Ghost(done): Ghost<Seq<Stroke>>, Ghost(g): Ghost<Glyphs>) -> (r: Ghost<Seq<Stroke>>)
    requires
        old(buf).wf(),
        old(buf).view() == put_strokes(v0, old(buf).area, done, style),
        h_line@ == g.0,
        v_line@ == g.1,
    ensures
        final(buf).wf(),
        final(buf).area == old(buf).area,
        r@ == done + corner_stroke(h_side, v_side, c@, g, x as int, y as int),
        final(buf).view() == put_strokes(v0, old(buf).area, r@, style),
{
    if h_side && v_side {
        let r = stroke(buf, x, y, c, style, Ghost(v0), Ghost(done));
        proof {
            assert(r@ =~= done + corner_stroke(h_side, v_side, c@, g, x as int, y as int));
        }
        r
    } else if h_side {
        let r = stroke(buf, x, y, h_line, style, Ghost(v0), Ghost(done));
        proof {
            assert(r@ =~= done + corner_stroke(h_side, v_side, c@, g, x as int, y as int));
        }
        r
    } else if v_side {
        let r = stroke(buf, x, y, v_line, style, Ghost(v0), Ghost(done));
        proof {
            assert(r@ =~= done + corner_stroke(h_side, v_side, c@, g, x as int, y as int));
        }
        r
    } else {
        proof {
            assert(done =~= done + corner_stroke(h_side, v_side, c@, g, x as int, y as int));
        }
        Ghost(done)
    }
}

/// Write `glyph` along row `y` at columns `x .. x + n`.
fn h_run(buf: &mut Buffer, x: u16, n: u16, y: u16, glyph: &str, style: Style, Ghost(v0): Ghost<Seq<CellView>>, Ghost(done): Ghost<Seq<Stroke>>) -> (r: Ghost<Seq<Stroke>>)
    requires
        old(buf).wf(),
        old(buf).view() == put_strokes(v0, old(buf).area, done, style),
        x + n <= u16::MAX,
    ensures
        final(buf).wf(),
        final(buf).area == old(buf).area,
        r@ == done + row_run(x as int, y as int, n as int, glyph@),
        final(buf).view() == put_strokes(v0, old(buf).area, r@, style),
{
    let ghost area = buf.area;
    let mut d = Ghost(done);
    let mut k: u16 = 0;
    while k < n
        invariant
            buf.wf(),
            buf.area == area,
            x + n <= u16::MAX,
            k <= n,
            d@ == done + row_run(x as int, y as int, k as int, glyph@),
            buf.view() == put_strokes(v0, area, d@, style),
        decreases n - k,
    {
        d = stroke(buf, x + k, y, glyph, style, Ghost(v0), d);
        proof {
            assert(d@ =~= done + row_run(x as int, y as int, k + 1, glyph@));
        }
        k = k + 1;
    }
    d
}

/// Write `glyph` down column `x` at rows `y .. y + n`.
fn v_run(buf: &mut Buffer, x: u16, y: u16, n: u16, glyph: &str, style: Style, Ghost(v0): Ghost<Seq<CellView>>, Ghost(done): Ghost<Seq<Stroke>>) -> (r: Ghost<Seq<Stroke>>)
    requires
        old(buf).wf(),
        old(buf).view() == put_strokes(v0, old(buf).area, done, style),
        y + n <= u16::MAX,
    ensures
        final(buf).wf(),
        final(buf).area == old(buf).area,
        r@ == done + col_run(x as int, y as int, n as int, glyph@),
        final(buf).view() == put_strokes(v0, old(buf).area, r@, style),
{
    let ghost area = buf.area;
    let mut d = Ghost(done);
    let mut k: u16 = 0;
    while k < n
        invariant
            buf.wf(),
            buf.area == area,
            y + n <= u16::MAX,
            k <= n,
            d@ == done + col_run(x as int, y as int, k as int, glyph@),
            buf.view() == put_strokes(v0, area, d@, style),
        decreases n - k,
    {
        d = stroke(buf, x, y + k, glyph, style, Ghost(v0), d);
        proof {
            assert(d@ =~= done + col_run(x as int, y as int, k + 1, glyph@));
        }
        k = k + 1;
    }
    d
}

/// Draw the requested sides of `area` into `buf`, clipped to the buffer's area.  Only
/// border cells are written; where two requested sides meet a corner glyph is drawn,
/// where one meets nothing that side's line continues; a single column or row
/// degenerates to a plain line.
#[verifier::rlimit(40)]
pub fn draw_box(buf: &mut Buffer, area: Rect, borders: Borders, style: &BorderStyle)
    requires
        old(buf).wf(),
    ensures
        final(buf).wf(),
        final(buf).area == old(buf).area,
        final(buf).view() == draw_box_spec(old(buf).view(), old(buf).area, area, borders, *style),
{
    let ghost v0 = buf.view();
    let ghost barea = buf.area;
    proof {
        lemma_intersection_fits(barea, area);
    }
    let area = buf.area.intersection(area);
    let (h_line, v_line, tl, tr, bl, br) = border_glyphs(&style.weight, &style.corners);
    let ghost g = glyphs_spec(style.weight, style.corners);
    let st = style.style;
    let top = borders.contains(Borders::top());
    let bottom = borders.contains(Borders::bottom());
    let left = borders.contains(Borders::left());
    let right = borders.contains(Borders::right());
    let ghost want = box_strokes(area, top, bottom, left, right, g);
    let mut d: Ghost<Seq<Stroke>> = Ghost(Seq::empty());
    if area.width == 0 || area.height == 0 {
        return;
    }
    let x0 = area.x;
    let x1 = area.x + area.width - 1;
    let y0 = area.y;
    let y1 = area.y + area.height - 1;
    if area.width == 1 {
        if left || right {
            d = v_run(buf, x0, y0, area.height, v_line, st, Ghost(v0), d);
            proof {
                assert(d@ =~= want);
            }
        }
        return;
    }
    if area.height == 1 {
        if top || bottom {
            d = h_run(buf, x0, area.width, y0, h_line, st, Ghost(v0), d);
            proof {
                assert(d@ =~= want);
            }
        }
        return;
    }
    d = corner(buf, top, left, tl, h_line, v_line, x0, y0, st, Ghost(v0), d, Ghost(g));
    if top {
        d = h_run(buf, x0 + 1, x1 - x0 - 1, y0, h_line, st, Ghost(v0), d);
    }
    d = corner(buf, top, right, tr, h_line, v_line, x1, y0, st, Ghost(v0), d, Ghost(g));
    let ghost before_sides = d@;
    let mut y = y0 + 1;
    while y < y1
        invariant
            buf.wf(),
            buf.area == barea,
            y0 + 1 <= y <= y1,
            v_line@ == g.1,
            d@ == before_sides + side_strokes(x0 as int, x1 as int, y0 as int, y - y0 - 1, left, right, g),
            buf.view() == put_strokes(v0, barea, d@, st),
        decreases y1 - y,
    {
        let ghost d_row = d@;
        if left {
            d = stroke(buf, x0, y, v_line, st, Ghost(v0), d);
        }
        if right {
            d = stroke(buf, x1, y, v_line, st, Ghost(v0), d);
        }
        proof {
            assert(d@ =~= before_sides + side_strokes(x0 as int, x1 as int, y0 as int, y - y0, left, right, g));
        }
        y = y + 1;
    }
    d = corner(buf, bottom, left, bl, h_line, v_line, x0, y1, st, Ghost(v0), d, Ghost(g));
    if bottom {
        d = h_run(buf, x0 + 1, x1 - x0 - 1, y1, h_line, st, Ghost(v0), d);
    }
    d = corner(buf, bottom, right, br, h_line, v_line, x1, y1, st, Ghost(v0), d, Ghost(g));
    proof {
        assert(d@ =~= want);
    }
}

/// A clipped rectangle stays within the `u16` coordinate space.
proof fn lemma_intersection_fits(a: Rect, r: Rect)
    ensures
        a.intersection_spec(r).x + a.intersection_spec(r).width <= u16::MAX,
        a.intersection_spec(r).y + a.intersection_spec(r).height <= u16::MAX,
{
}

/// The interior of a tile framed with `borders`: shrunk by one cell on each bordered
/// side, saturating, so an under-sized tile gets a zero-area interior.
pub open spec fn interior(r: Rect, borders: Borders) -> Rect {
    let dl: u16 = if has_side(borders, 4) { 1 } else { 0 };
    let dt: u16 = if has_side(borders, 1) { 1 } else { 0 };
    let dr: u16 = if has_side(borders, 8) { 1 } else { 0 };
    let db: u16 = if has_side(borders, 2) { 1 } else { 0 };
    Rect {
        x: sat_add(r.x, dl),
        y: sat_add(r.y, dt),
        width: sat_sub(r.width, (dl + dr) as u16),
        height: sat_sub(r.height, (dt + db) as u16),
    }
}

/// The cells after framing each tile in turn.
pub open spec fn frame_all(v: Seq<CellView>, barea: Rect, tiles: Seq<(u64, Rect)>, borders: Borders, style: BorderStyle) -> Seq<CellView>
    decreases tiles.len(),
{
    if tiles.len() == 0 {
        v
    } else {
        draw_box_spec(frame_all(v, barea, tiles.drop_last(), borders, style), barea, tiles.last().1, borders, style)
    }
}

/// Frame each tile with a box and return its interior, in the order given.
pub fn frame_tiles(buf: &mut Buffer, tiles: &[(u64, Rect)], borders: Borders, style: &BorderStyle) -> (out: Vec<(u64, Rect)>)
    requires
        old(buf).wf(),
    ensures
        final(buf).wf(),
        final(buf).area == old(buf).area,
        final(buf).view() == frame_all(old(buf).view(), old(buf).area, tiles@, borders, *style),
        out@.len() == tiles@.len(),
        forall|k: int| 0 <= k < tiles@.len() ==> #[trigger] out@[k] == (tiles@[k].0, interior(tiles@[k].1, borders)),
{
    let dl: u16 = if borders.contains(Borders::left()) { 1 } else { 0 };
    let dt: u16 = if borders.contains(Borders::top()) { 1 } else { 0 };
    let dr: u16 = if borders.contains(Borders::right()) { 1 } else { 0 };
    let db: u16 = if borders.contains(Borders::bottom()) { 1 } else { 0 };
    let ghost v0 = buf.view();
    let ghost barea = buf.area;
    let mut out: Vec<(u64, Rect)> = Vec::new();
    let mut k: usize = 0;
    while k < tiles.len()
        invariant
            buf.wf(),
            buf.area == barea,
            k <= tiles@.len(),
            buf.view() == frame_all(v0, barea, tiles@.take(k as int), borders, *style),
            out@.len() == k,
            dl == (if has_side(borders, 4) { 1u16 } else { 0u16 }),
            dt == (if has_side(borders, 1) { 1u16 } else { 0u16 }),
            dr == (if has_side(borders, 8) { 1u16 } else { 0u16 }),
            db == (if has_side(borders, 2) { 1u16 } else { 0u16 }),
            forall|j: int| 0 <= j < k ==> #[trigger] out@[j] == (tiles@[j].0, interior(tiles@[j].1, borders)),
        decreases tiles@.len() - k,
    {
        let (id, rect) = tiles[k];
        draw_box(buf, rect, borders, style);
        proof {
            assert(tiles@.take(k + 1).drop_last() =~= tiles@.take(k as int));
        }
        let x = rect.x.saturating_add(dl);
        let y = rect.y.saturating_add(dt);
        let w = rect.width.saturating_sub(dl + dr);
        let h = rect.height.saturating_sub(dt + db);
        out.push((id, Rect::new(x, y, w, h)));
        k = k + 1;
    }
    proof {
        assert(tiles@.take(tiles@.len() as int) =~= tiles@);
    }
    out
}

} // verus!

verus! {

/// Drawing the dividers of `node` in the box `b` stays within the arithmetic it uses:
/// each split's requests, at the extent left after its dividers, sum within 32 bits;
/// each carousel's extents, and its scrolled end past the viewport start, sum within
/// a signed 32-bit integer; and so on for every child drawn.
pub open spec fn divides_ok(node: Node, b: Rect) -> bool
    decreases node,
{
    match node {
        Node::Tile(_) => true,
        Node::Split { orientation, children } => {
            let inner = deflate_spec(b);
            let axis = crate::layout::resolve_spec(orientation, inner).1;
            let n = children@.len() as int;
            let n_div = (n - 1) as u16;
            let available = sat_sub(main_len(axis, inner), n_div);
            let sizes = partition_spec(constraints_of(children@), available as int);
            n > 0 ==> {
                &&& crate::layout::request_sum(constraints_of(children@), available as int, n) <= u32::MAX
                &&& forall|i: int|
                    0 <= i < n ==> divides_ok(
                        #[trigger] children@[i].1,
                        split_child_box(axis, b, split_child_pos(main_start(axis, inner), sizes, i), sizes[i], i, n),
                    )
            }
        },
        Node::Carousel { orientation, scroll, children, .. } => {
            let inner = deflate_spec(b);
            let axis = crate::layout::resolve_spec(orientation, inner).1;
            let main_extent = main_len(axis, inner) as int;
            let total = ext_sum(children@.map_values(|c: (u16, Node)| c.0));
            let over = total - main_extent;
            let max_scroll = (if over > 0 { over } else { 0 }) as u16;
            let sc = if max_scroll < scroll { max_scroll } else { scroll };
            let vp_start = main_start(axis, inner) as int;
            children@.len() > 0 ==> {
                &&& total <= i32::MAX
                &&& vp_start - sc + total <= i32::MAX
                &&& forall|j: int|
                    0 <= j < children@.len() && !(children@[j].1 is Tile) ==> match car_child_box(
                        children@,
                        axis,
                        inner,
                        vp_start - sc,
                        vp_start,
                        vp_start + main_extent,
                        j,
                    ) {
                        Some(cb) => divides_ok(#[trigger] children@[j].1, cb),
                        None => true,
                    }
            }
        },
    }
}

/// `r` shrunk by one cell on each side, saturating.
pub open spec fn deflate_spec(r: Rect) -> Rect {
    Rect {
        x: sat_add(r.x, 1),
        y: sat_add(r.y, 1),
        width: sat_sub(r.width, 2),
        height: sat_sub(r.height, 2),
    }
}

/// `r` shrunk by one cell on each side, saturating: the content inside a one-cell
/// border.
fn deflate(r: Rect) -> (d: Rect)
    ensures
        d == deflate_spec(r),
{
    Rect::new(
        r.x.saturating_add(1),
        r.y.saturating_add(1),
        r.width.saturating_sub(2),
        r.height.saturating_sub(2),
    )
}

} // verus!

verus! {

/// A line laid into an edge grid: vertical or not, its first and last cell along
/// itself, and the column (vertical) or row (horizontal) it runs on.
pub type LineOp = (bool, u16, u16, u16);

/// A cell of an edge grid over `area`, currently `c`, after the lines `ops` are laid
/// in order at weight `w`.
pub open spec fn ops_cell(area: Rect, ops: Seq<LineOp>, w: LineWeight, x: int, y: int, c: EdgeCell) -> EdgeCell
    decreases ops.len(),
{
    if ops.len() == 0 {
        c
    } else {
        let p = ops_cell(area, ops.drop_last(), w, x, y, c);
        let o = ops.last();
        if o.0 {
            v_line_effect(area, o.1, o.2, o.3, w, x, y, p)
        } else {
            h_line_effect(area, o.1, o.2, o.3, w, x, y, p)
        }
    }
}

/// Laying `a` then `b` is laying `a + b`.
proof fn lemma_ops_concat(area: Rect, a: Seq<LineOp>, b: Seq<LineOp>, w: LineWeight, x: int, y: int, c: EdgeCell)
    ensures
        ops_cell(area, a + b, w, x, y, c) == ops_cell(area, b, w, x, y, ops_cell(area, a, w, x, y, c)),
    decreases b.len(),
{
    if b.len() > 0 {
        lemma_ops_concat(area, a, b.drop_last(), w, x, y, c);
        assert((a + b).drop_last() =~= a + b.drop_last());
    } else {
        assert(a + b =~= a);
    }
}

/// `g` is `g0` with the lines `ops` laid in order at weight `w`.
pub open spec fn grid_after(g0: EdgeGrid, g: EdgeGrid, ops: Seq<LineOp>, w: LineWeight) -> bool {
    &&& g.region() == g0.region()
    &&& forall|x: int, y: int|
        in_area(g0.region(), x, y) ==> #[trigger] g.cell_at(x, y) == ops_cell(
            g0.region(),
            ops,
            w,
            x,
            y,
            g0.cell_at(x, y),
        )
}

pub(crate) proof fn lemma_grid_after_trans(g0: EdgeGrid, g1: EdgeGrid, g2: EdgeGrid, a: Seq<LineOp>, b: Seq<LineOp>, w: LineWeight)
    requires
        grid_after(g0, g1, a, w),
        grid_after(g1, g2, b, w),
    ensures
        grid_after(g0, g2, a + b, w),
{
    assert forall|x: int, y: int| in_area(g0.region(), x, y) implies #[trigger] g2.cell_at(x, y) == ops_cell(
        g0.region(),
        a + b,
        w,
        x,
        y,
        g0.cell_at(x, y),
    ) by {
        assert(g1.cell_at(x, y) == ops_cell(g0.region(), a, w, x, y, g0.cell_at(x, y)));
        lemma_ops_concat(g0.region(), a, b, w, x, y, g0.cell_at(x, y));
    }
}

pub(crate) proof fn lemma_grid_after_line(g1: EdgeGrid, g2: EdgeGrid, o: LineOp, w: LineWeight)
    requires
        g2.region() == g1.region(),
        forall|x: int, y: int|
            in_area(g1.region(), x, y) ==> #[trigger] g2.cell_at(x, y) == if o.0 {
                v_line_effect(g1.region(), o.1, o.2, o.3, w, x, y, g1.cell_at(x, y))
            } else {
                h_line_effect(g1.region(), o.1, o.2, o.3, w, x, y, g1.cell_at(x, y))
            },
    ensures
        grid_after(g1, g2, seq![o], w),
{
    assert forall|x: int, y: int| in_area(g1.region(), x, y) implies #[trigger] g2.cell_at(x, y) == ops_cell(
        g1.region(),
        seq![o],
        w,
        x,
        y,
        g1.cell_at(x, y),
    ) by {
        assert(seq![o].drop_last() =~= Seq::<LineOp>::empty());
        assert(ops_cell(g1.region(), seq![o].drop_last(), w, x, y, g1.cell_at(x, y)) == g1.cell_at(x, y));
    }
}

pub(crate) proof fn lemma_grid_after_empty(g: EdgeGrid, w: LineWeight)
    ensures
        grid_after(g, g, Seq::empty(), w),
{
}

/// The divider lines and tile boxes of a layout: the lines laid, in order, and for
/// each tile its id, its box and its content rect, in depth-first order.
pub type Dividers = (Seq<LineOp>, Seq<(TileId, Rect, Rect)>);

/// Where the `i`-th child of a split starts along its axis: each child after its
/// predecessor and the one-cell divider between them, saturating.
pub open spec fn split_child_pos(start: u16, sizes: Seq<u16>, i: int) -> u16
    decreases i,
{
    if i <= 0 {
        start
    } else {
        sat_add(sat_add(split_child_pos(start, sizes, i - 1), sizes[i - 1]), 1)
    }
}

/// The box of the `i`-th of `n` children of a split of box `b`: from the divider
/// before it (or the box's edge) to the divider after it (or the box's other edge).
pub open spec fn split_child_box(axis: Axis, b: Rect, pos: u16, size: u16, i: int, n: int) -> Rect {
    match axis {
        Axis::Horizontal => {
            let left = if i == 0 { b.x } else { sat_sub(pos, 1) };
            let right = if i + 1 == n { sat_sub(b.right_spec(), 1) } else { sat_add(pos, size) };
            Rect { x: left, y: b.y, width: sat_add(sat_sub(right, left), 1), height: b.height }
        },
        Axis::Vertical => {
            let top = if i == 0 { b.y } else { sat_sub(pos, 1) };
            let bot = if i + 1 == n { sat_sub(b.bottom_spec(), 1) } else { sat_add(pos, size) };
            Rect { x: b.x, y: top, width: b.width, height: sat_add(sat_sub(bot, top), 1) }
        },
    }
}

/// The divider after a split child at `pos` of `size`, across the whole box `b`.
pub open spec fn split_divider(axis: Axis, b: Rect, pos: u16, size: u16) -> LineOp {
    match axis {
        Axis::Horizontal => (true, b.y, sat_sub(b.bottom_spec(), 1), sat_add(pos, size)),
        Axis::Vertical => (false, b.x, sat_sub(b.right_spec(), 1), sat_add(pos, size)),
    }
}

/// The dividers and tile boxes of the layout under `node` whose box, border
/// included, is `b`: a tile's box and the box shrunk by its border; a split's
/// children laid out in the box's interior with a divider between neighbours; a
/// carousel's visible children in the interior, after its scroll is clamped, a tile
/// child taking its clipped span as box and content.
pub open spec fn divider_spec(node: Node, b: Rect) -> Dividers
    decreases node, 0int,
{
    match node {
        Node::Tile(id) => (Seq::empty(), seq![(id, b, deflate_spec(b))]),
        Node::Split { orientation, children } => if children@.len() == 0 {
            (Seq::empty(), Seq::empty())
        } else {
            let inner = deflate_spec(b);
            let axis = crate::layout::resolve_spec(orientation, inner).1;
            let n_div = (children@.len() - 1) as u16;
            let available = sat_sub(main_len(axis, inner), n_div);
            let sizes = partition_spec(constraints_of(children@), available as int);
            proof {
                assert(decreases_to!(node => children));
                assert(decreases_to!(children => children@));
            }
            div_split_parts(children@, axis, b, main_start(axis, inner), sizes, children@.len() as int)
        },
        Node::Carousel { orientation, scroll, children, .. } => if children@.len() == 0 {
            (Seq::empty(), Seq::empty())
        } else {
            let inner = deflate_spec(b);
            let axis = crate::layout::resolve_spec(orientation, inner).1;
            let main_extent = main_len(axis, inner) as int;
            let over = ext_sum(children@.map_values(|c: (u16, Node)| c.0)) - main_extent;
            let max_scroll = (if over > 0 { over } else { 0 }) as u16;
            let sc = if max_scroll < scroll { max_scroll } else { scroll };
            let vp_start = main_start(axis, inner) as int;
            proof {
                assert(decreases_to!(node => children));
                assert(decreases_to!(children => children@));
            }
            div_car_parts(children@, axis, inner, vp_start - sc, vp_start, vp_start + main_extent, children@.len() as int)
        },
    }
}

/// The box of the `j`-th child of a carousel whose first child starts at `base` and
/// whose viewport spans `[vp_start, vp_end)` along `axis` of `inner`: its span
/// clipped to the viewport, or `None` when nothing of it shows.
pub open spec fn car_child_box(
    kids: Seq<(u16, Node)>,
    axis: Axis,
    inner: Rect,
    base: int,
    vp_start: int,
    vp_end: int,
    j: int,
) -> Option<Rect> {
    let child_start = base + ext_sum(kids.map_values(|c: (u16, Node)| c.0).take(j));
    let child_end = child_start + kids[j].0;
    let vis_start = if child_start > vp_start { child_start } else { vp_start };
    let vis_end = if child_end < vp_end { child_end } else { vp_end };
    if vis_start < vis_end {
        Some(child_rect_spec(axis, inner, vis_start as u16, (vis_end - vis_start) as u16))
    } else {
        None
    }
}

/// `b` is `a` after its dividers are added with box `bx`: adaptive orientations met
/// record their choice (for the box's interior), carousels met have their scroll
/// clamped, and the children visited are changed in turn; children a carousel does
/// not show, and the nodes of empty splits and carousels, stay as they were.
pub open spec fn divided_node(a: Node, b: Node, bx: Rect) -> bool
    decreases a,
{
    match a {
        Node::Tile(_) => b == a,
        Node::Split { orientation, children } => match b {
            Node::Split { orientation: o2, children: c2 } => if children@.len() == 0 {
                o2 == orientation && c2@ == children@
            } else {
                let inner = deflate_spec(bx);
                let axis = crate::layout::resolve_spec(orientation, inner).1;
                let n_div = (children@.len() - 1) as u16;
                let available = sat_sub(main_len(axis, inner), n_div);
                let sizes = partition_spec(constraints_of(children@), available as int);
                let start = main_start(axis, inner);
                &&& o2 == crate::layout::resolve_spec(orientation, inner).0
                &&& c2@.len() == children@.len()
                &&& forall|i: int|
                    0 <= i < children@.len() ==> (#[trigger] c2@[i]).0 == children@[i].0 && divided_node(
                        children@[i].1,
                        c2@[i].1,
                        split_child_box(
                            axis,
                            bx,
                            split_child_pos(start, sizes, i),
                            sizes[i],
                            i,
                            children@.len() as int,
                        ),
                    )
            },
            _ => false,
        },
        Node::Carousel { id, orientation, scroll, children } => match b {
            Node::Carousel { id: id2, orientation: o2, scroll: s2, children: c2 } => if children@.len() == 0 {
                id2 == id && o2 == orientation && s2 == scroll && c2@ == children@
            } else {
                let inner = deflate_spec(bx);
                let axis = crate::layout::resolve_spec(orientation, inner).1;
                let main_extent = main_len(axis, inner) as int;
                let over = ext_sum(children@.map_values(|c: (u16, Node)| c.0)) - main_extent;
                let max_scroll = (if over > 0 { over } else { 0 }) as u16;
                let sc = if max_scroll < scroll { max_scroll } else { scroll };
                let vp_start = main_start(axis, inner) as int;
                &&& id2 == id
                &&& o2 == crate::layout::resolve_spec(orientation, inner).0
                &&& s2 == sc
                &&& c2@.len() == children@.len()
                &&& forall|i: int|
                    0 <= i < children@.len() ==> (#[trigger] c2@[i]).0 == children@[i].0 && match car_child_box(
                        children@,
                        axis,
                        inner,
                        vp_start - sc,
                        vp_start,
                        vp_start + main_extent,
                        i,
                    ) {
                        Some(cb) => divided_node(children@[i].1, c2@[i].1, cb),
                        None => c2@[i] == children@[i],
                    }
            },
            _ => false,
        },
    }
}

/// The dividers and tile boxes of the first `k` children of a split of box `b`.
pub open spec fn div_split_parts(
    kids: Seq<(Constraint, Node)>,
    axis: Axis,
    b: Rect,
    start: u16,
    sizes: Seq<u16>,
    k: int,
) -> Dividers
    decreases kids, k,
{
    if k <= 0 || k > kids.len() {
        (Seq::empty(), Seq::empty())
    } else {
        let prev = div_split_parts(kids, axis, b, start, sizes, k - 1);
        let i = k - 1;
        let pos = split_child_pos(start, sizes, i);
        let size = sizes[i];
        let d = if i + 1 < kids.len() {
            seq![split_divider(axis, b, pos, size)]
        } else {
            Seq::empty()
        };
        proof {
            assert(decreases_to!(kids => kids[i]));
            assert(decreases_to!(kids[i] => kids[i].1));
        }
        let c = divider_spec(kids[i].1, split_child_box(axis, b, pos, size, i, kids.len() as int));
        (prev.0 + d + c.0, prev.1 + c.1)
    }
}

/// The dividers and tile boxes of the first `k` children of a carousel whose first
/// child starts at `base` and whose viewport spans `[vp_start, vp_end)` along `axis`
/// of `inner`.
pub open spec fn div_car_parts(
    kids: Seq<(u16, Node)>,
    axis: Axis,
    inner: Rect,
    base: int,
    vp_start: int,
    vp_end: int,
    k: int,
) -> Dividers
    decreases kids, k,
{
    if k <= 0 || k > kids.len() {
        (Seq::empty(), Seq::empty())
    } else {
        let prev = div_car_parts(kids, axis, inner, base, vp_start, vp_end, k - 1);
        let j = k - 1;
        let child_start = base + ext_sum(kids.map_values(|c: (u16, Node)| c.0).take(j));
        let child_end = child_start + kids[j].0;
        let vis_start = if child_start > vp_start { child_start } else { vp_start };
        let vis_end = if child_end < vp_end { child_end } else { vp_end };
        if vis_start < vis_end {
            let cb = child_rect_spec(axis, inner, vis_start as u16, (vis_end - vis_start) as u16);
            match kids[j].1 {
                Node::Tile(id) => (prev.0, prev.1.push((id, cb, cb))),
                _ => {
                    proof {
                        assert(decreases_to!(kids => kids[j]));
                        assert(decreases_to!(kids[j] => kids[j].1));
                    }
                    let c = divider_spec(kids[j].1, cb);
                    (prev.0 + c.0, prev.1 + c.1)
                },
            }
        } else {
            prev
        }
    }
}

/// The sum of a carousel's extents, as a signed 32-bit integer.
fn extent_total(children: &Vec<(u16, Node)>) -> (t: i32)
    requires
        ext_sum(children@.map_values(|c: (u16, Node)| c.0)) <= i32::MAX,
    ensures
        0 <= t,
        t == ext_sum(children@.map_values(|c: (u16, Node)| c.0)),
{
    let ghost e = children@.map_values(|c: (u16, Node)| c.0);
    let mut t: i32 = 0;
    let mut i: usize = 0;
    while i < children.len()
        invariant
            ext_sum(e) <= i32::MAX,
            e == children@.map_values(|c: (u16, Node)| c.0),
            i <= children@.len(),
            0 <= t,
            t == ext_sum(e.take(i as int)),
        decreases children@.len() - i,
    {
        proof {
            assert(e.take(i + 1).drop_last() =~= e.take(i as int));
            assert(e[i as int] == children@[i as int].0);
            crate::layout::lemma_ext_sum_prefix(e, i + 1, e.len() as int);
        }
        t = t + children[i].0 as i32;
        i = i + 1;
    }
    proof {
        assert(e.take(children@.len() as int) =~= e);
    }
    t
}

/// Add the internal divider lines of the layout under `node` (whose whole box,
/// border included, is `box_rect`) to `grid`, and record each tile's box and
/// content rect in `out`.  The grid only gains arms.
#[verifier::rlimit(80)]
fn add_dividers(grid: &mut EdgeGrid, node: &mut Node, box_rect: Rect, weight: LineWeight, out: &mut Vec<(TileId, Rect, Rect)>)
    requires
        old(grid).wf(),
        old(grid).region().fits(),
        tree_ok(*old(node)),
        divides_ok(*old(node), box_rect),
    ensures
        grid_grows(*old(grid), *final(grid)),
        tree_ok(*final(node)),
        final(out)@.len() >= old(out)@.len(),
        final(out)@.subrange(0, old(out)@.len() as int) == old(out)@,
        grid_after(*old(grid), *final(grid), divider_spec(*old(node), box_rect).0, weight),
        final(out)@ == old(out)@ + divider_spec(*old(node), box_rect).1,
        divided_node(*old(node), *final(node), box_rect),
    decreases *old(node),
{
    let ghost g0 = *grid;
    let ghost out0 = out@;
    let ghost node0 = *node;
    match node {
        Node::Tile(id) => {
            out.push((*id, box_rect, deflate(box_rect)));
            proof {
                assert(out@.subrange(0, out0.len() as int) =~= out0);
                assert(grid_grows(g0, *grid));
                assert(out@ =~= out0 + divider_spec(node0, box_rect).1);
            }
        },
        Node::Split { orientation, children } => {
            let ghost o0 = *orientation;
            let ghost c0 = children@;
            proof {
                assert(node0 == Node::Split { orientation: o0, children: *children });
            }
            if children.len() == 0 {
                proof {
                    assert(out@.subrange(0, out0.len() as int) =~= out0);
                    assert(out@ =~= out0 + divider_spec(node0, box_rect).1);
                }
                return;
            }
            let inner = deflate(box_rect);
            let axis = orientation.resolve(inner);
            let n = children.len();
            let n_div = (n - 1) as u16;
            let available = match axis {
                Axis::Horizontal => inner.width.saturating_sub(n_div),
                Axis::Vertical => inner.height.saturating_sub(n_div),
            };
            let sizes = crate::layout::partition(children.as_slice(), available);
            let mut pos = match axis {
                Axis::Horizontal => inner.x,
                Axis::Vertical => inner.y,
            };
            let ghost kids0 = children@;
            let ghost start = pos;
            let mut i: usize = 0;
            proof {
                assert(grid_grows(g0, *grid));
                assert(out@.subrange(0, out0.len() as int) =~= out0);
                assert(kids0 == c0);
                assert(axis == crate::layout::resolve_spec(o0, inner).1);
                assert(available == sat_sub(main_len(axis, inner), n_div));
                assert(start == main_start(axis, inner));
                assert(divider_spec(node0, box_rect) == div_split_parts(kids0, axis, box_rect, start, sizes@, n as int));
                assert(out@ =~= out0 + div_split_parts(kids0, axis, box_rect, start, sizes@, 0).1);
                assert(grid_after(g0, *grid, div_split_parts(kids0, axis, box_rect, start, sizes@, 0).0, weight));
            }
            while i < n
                invariant
                    grid_after(g0, *grid, div_split_parts(kids0, axis, box_rect, start, sizes@, i as int).0, weight),
                    out@ == out0 + div_split_parts(kids0, axis, box_rect, start, sizes@, i as int).1,
                    pos == split_child_pos(start, sizes@, i as int),
                    forall|j: int|
                        0 <= j < i ==> divided_node(
                            kids0[j].1,
                            #[trigger] children@[j].1,
                            split_child_box(axis, box_rect, split_child_pos(start, sizes@, j), sizes@[j], j, n as int),
                        ),
                    n == children@.len(),
                    n == kids0.len(),
                    n == sizes@.len(),
                    i <= n,
                    grid.wf(),
                    grid.region().fits(),
                    grid_grows(g0, *grid),
                    forall|j: int| i <= j < n ==> #[trigger] children@[j] == kids0[j],
                    forall|j: int| 0 <= j < n ==> tree_ok(#[trigger] kids0[j].1),
                    forall|j: int| 0 <= j < i ==> tree_ok(#[trigger] children@[j].1),
                    forall|j: int|
                        0 <= j < n ==> divides_ok(
                            #[trigger] kids0[j].1,
                            split_child_box(axis, box_rect, split_child_pos(start, sizes@, j), sizes@[j], j, n as int),
                        ),
                    forall|j: int| 0 <= j < n ==> (#[trigger] children@[j]).0 == kids0[j].0,
                    out@.len() >= out0.len(),
                    out@.subrange(0, out0.len() as int) == out0,
                    decreases_to!(*old(node) => kids0),
                decreases n - i,
            {
                let size = sizes[i];
                proof {
                    assert(decreases_to!(kids0 => kids0[i as int]));
                    assert(decreases_to!(kids0[i as int] => kids0[i as int].1));
                }
                let child_box = match axis {
                    Axis::Horizontal => {
                        let left = if i == 0 {
                            box_rect.x
                        } else {
                            pos.saturating_sub(1)
                        };
                        let right = if i + 1 == n {
                            box_rect.right().saturating_sub(1)
                        } else {
                            pos.saturating_add(size)
                        };
                        Rect::new(left, box_rect.y, right.saturating_sub(left).saturating_add(1), box_rect.height)
                    },
                    Axis::Vertical => {
                        let top = if i == 0 {
                            box_rect.y
                        } else {
                            pos.saturating_sub(1)
                        };
                        let bot = if i + 1 == n {
                            box_rect.bottom().saturating_sub(1)
                        } else {
                            pos.saturating_add(size)
                        };
                        Rect::new(box_rect.x, top, box_rect.width, bot.saturating_sub(top).saturating_add(1))
                    },
                };
                let ghost g1 = *grid;
                let ghost d: Seq<LineOp> = if i + 1 < n {
                    seq![split_divider(axis, box_rect, pos, size)]
                } else {
                    Seq::empty()
                };
                if i + 1 < n {
                    let div = pos.saturating_add(size);
                    assert(div == sat_add(pos, size));
                    proof {
                        assert(seq![split_divider(axis, box_rect, pos, size)].drop_last() =~= Seq::<LineOp>::empty());
                    }
                    match axis {
                        Axis::Horizontal => {
                            let y1 = box_rect.bottom().saturating_sub(1);
                            assert(y1 == sat_sub(box_rect.bottom_spec(), 1));
                            grid.grow_v_line(box_rect.y, y1, div, weight);
                            assert(d == seq![(true, box_rect.y, y1, div)]);
                        },
                        Axis::Vertical => {
                            let x1 = box_rect.right().saturating_sub(1);
                            assert(x1 == sat_sub(box_rect.right_spec(), 1));
                            grid.grow_h_line(box_rect.x, x1, div, weight);
                            assert(d == seq![(false, box_rect.x, x1, div)]);
                        },
                    }
                    proof {
                        lemma_grid_grows_trans(g0, g1, *grid);
                        lemma_grid_after_line(g1, *grid, split_divider(axis, box_rect, pos, size), weight);
                    }
                } else {
                    proof {
                        lemma_grid_after_empty(g1, weight);
                    }
                }
                let ghost g2 = *grid;
                let ghost out1 = out@;
                let ghost kids1 = children@;
                proof {
                    assert(child_box == split_child_box(axis, box_rect, pos, size, i as int, n as int));
                }
                add_dividers(grid, &mut children[i].1, child_box, weight, out);
                proof {
                    assert forall|j: int| 0 <= j < i + 1 implies divided_node(
                        kids0[j].1,
                        #[trigger] children@[j].1,
                        split_child_box(axis, box_rect, split_child_pos(start, sizes@, j), sizes@[j], j, n as int),
                    ) by {
                        if j < i {
                            assert(children@[j] == kids1[j]);
                        }
                    }
                }
                proof {
                    lemma_grid_grows_trans(g0, g2, *grid);
                    assert(out@.subrange(0, out0.len() as int) =~= out1.subrange(0, out0.len() as int));
                    let p = div_split_parts(kids0, axis, box_rect, start, sizes@, i as int);
                    let c = divider_spec(kids0[i as int].1, child_box);
                    lemma_grid_after_trans(g0, g1, g2, p.0, d, weight);
                    lemma_grid_after_trans(g0, g2, *grid, p.0 + d, c.0, weight);
                    assert(div_split_parts(kids0, axis, box_rect, start, sizes@, i + 1) == (p.0 + d + c.0, p.1 + c.1));
                    assert(out@ =~= out0 + div_split_parts(kids0, axis, box_rect, start, sizes@, i + 1).1);
                }
                pos = pos.saturating_add(size).saturating_add(1);
                i = i + 1;
            }
            proof {
                assert forall|j: int| 0 <= j < children@.len() implies tree_ok(#[trigger] children@[j].1) by {}
                assert(constraints_of(children@) =~= constraints_of(kids0));
                assert(out@ == out0 + divider_spec(node0, box_rect).1);
                assert(grid_after(g0, *grid, divider_spec(node0, box_rect).0, weight));
                assert(*orientation == crate::layout::resolve_spec(o0, inner).0);
            }
        },
        Node::Carousel { orientation, scroll, children, .. } => {
            let ghost o0 = *orientation;
            let ghost s0 = *scroll;
            let ghost c0 = children@;
            proof {
                assert(node0 matches Node::Carousel { orientation: oo, scroll: ss, children: cc, .. } && oo == o0
                    && ss == s0 && cc@ == c0);
            }
            if children.len() == 0 {
                proof {
                    assert(out@.subrange(0, out0.len() as int) =~= out0);
                    assert(out@ =~= out0 + divider_spec(node0, box_rect).1);
                }
                return;
            }
            let inner = deflate(box_rect);
            let axis = orientation.resolve(inner);
            let main_extent: i32 = match axis {
                Axis::Horizontal => inner.width as i32,
                Axis::Vertical => inner.height as i32,
            };
            let total = extent_total(children);
            let over = total - main_extent;
            let max_scroll = (if over > 0 {
                over
            } else {
                0
            }) as u16;
            if max_scroll < *scroll {
                *scroll = max_scroll;
            }
            let scroll_val = *scroll;
            let vp_start: i32 = match axis {
                Axis::Horizontal => inner.x as i32,
                Axis::Vertical => inner.y as i32,
            };
            let vp_end = vp_start + main_extent;
            let mut pos = vp_start - scroll_val as i32;
            let ghost kids0 = children@;
            let ghost exts = kids0.map_values(|c: (u16, Node)| c.0);
            let ghost base = pos as int;
            let n = children.len();
            let mut k: usize = 0;
            proof {
                assert(grid_grows(g0, *grid));
                assert(out@.subrange(0, out0.len() as int) =~= out0);
                assert(kids0 == c0);
                assert(axis == crate::layout::resolve_spec(o0, inner).1);
                assert(main_extent == main_len(axis, inner));
                assert(vp_start == main_start(axis, inner));
                assert(divider_spec(node0, box_rect) == div_car_parts(kids0, axis, inner, base, vp_start as int, vp_end as int, n as int));
                assert(out@ =~= out0 + div_car_parts(kids0, axis, inner, base, vp_start as int, vp_end as int, 0).1);
                assert(exts.take(0) =~= Seq::<u16>::empty());
            }
            while k < n
                invariant
                    grid_after(g0, *grid, div_car_parts(kids0, axis, inner, base, vp_start as int, vp_end as int, k as int).0, weight),
                    out@ == out0 + div_car_parts(kids0, axis, inner, base, vp_start as int, vp_end as int, k as int).1,
                    exts == kids0.map_values(|c: (u16, Node)| c.0),
                    pos == base + ext_sum(exts.take(k as int)),
                    forall|j: int| k <= j < n ==> #[trigger] children@[j] == kids0[j],
                    forall|j: int|
                        0 <= j < k ==> match car_child_box(kids0, axis, inner, base, vp_start as int, vp_end as int, j) {
                            Some(cb) => divided_node(kids0[j].1, (#[trigger] children@[j]).1, cb),
                            None => children@[j] == kids0[j],
                        },
                    n == children@.len(),
                    n == kids0.len(),
                    k <= n,
                    vp_start <= 65535,
                    0 <= vp_start,
                    vp_end == vp_start + main_extent,
                    0 <= main_extent <= 65535,
                    -65535 <= pos <= vp_start + k * 65535,
                    base + ext_sum(exts) <= i32::MAX,
                    forall|j: int|
                        0 <= j < n && !(kids0[j].1 is Tile) ==> match car_child_box(
                            kids0,
                            axis,
                            inner,
                            base,
                            vp_start as int,
                            vp_end as int,
                            j,
                        ) {
                            Some(cb) => divides_ok(#[trigger] kids0[j].1, cb),
                            None => true,
                        },
                    grid.wf(),
                    grid.region().fits(),
                    grid_grows(g0, *grid),
                    forall|j: int| k <= j < n ==> #[trigger] children@[j] == kids0[j],
                    forall|j: int| 0 <= j < n ==> tree_ok(#[trigger] kids0[j].1),
                    forall|j: int| 0 <= j < k ==> tree_ok(#[trigger] children@[j].1),
                    forall|j: int| 0 <= j < n ==> (#[trigger] children@[j]).0 == kids0[j].0,
                    out@.len() >= out0.len(),
                    out@.subrange(0, out0.len() as int) == out0,
                    decreases_to!(*old(node) => kids0),
                decreases n - k,
            {
                let ext = children[k].0;
                proof {
                    crate::layout::lemma_ext_sum_prefix(exts, k + 1, n as int);
                    assert(exts.take(k + 1).drop_last() =~= exts.take(k as int));
                    assert(exts[k as int] == ext);
                }
                let child_start = pos;
                let child_end = pos + ext as i32;
                pos = child_end;
                let ghost prev = div_car_parts(kids0, axis, inner, base, vp_start as int, vp_end as int, k as int);
                let ghost g1 = *grid;
                let ghost kids1 = children@;
                proof {
                    assert(exts.take(k + 1).drop_last() =~= exts.take(k as int));
                    assert(exts[k as int] == ext);
                    assert(pos == base + ext_sum(exts.take(k + 1)));
                }
                let vis_start = if child_start > vp_start {
                    child_start
                } else {
                    vp_start
                };
                let vis_end = if child_end < vp_end {
                    child_end
                } else {
                    vp_end
                };
                if vis_start < vis_end {
                    let vis_len = (vis_end - vis_start) as u16;
                    let child_box = match axis {
                        Axis::Horizontal => Rect::new(vis_start as u16, inner.y, vis_len, inner.height),
                        Axis::Vertical => Rect::new(inner.x, vis_start as u16, inner.width, vis_len),
                    };
                    let tile_id = match &children[k].1 {
                        Node::Tile(id) => Some(*id),
                        _ => None,
                    };
                    let ghost out1 = out@;
                    proof {
                        assert(child_box == child_rect_spec(axis, inner, vis_start as u16, (vis_end - vis_start) as u16));
                    }
                    match tile_id {
                        Some(id) => {
                            out.push((id, child_box, child_box));
                            proof {
                                assert(out@.subrange(0, out0.len() as int) =~= out1.subrange(0, out0.len() as int));
                                assert(kids0[k as int].1 == Node::Tile(id));
                                assert(div_car_parts(kids0, axis, inner, base, vp_start as int, vp_end as int, k + 1) == (prev.0, prev.1.push((id, child_box, child_box))));
                                assert(out@ =~= out0 + div_car_parts(kids0, axis, inner, base, vp_start as int, vp_end as int, k + 1).1);
                            }
                        },
                        None => {
                            proof {
                                assert(decreases_to!(kids0 => kids0[k as int]));
                                assert(decreases_to!(kids0[k as int] => kids0[k as int].1));
                            }
                            let ghost g2 = *grid;
                            add_dividers(grid, &mut children[k].1, child_box, weight, out);
                            proof {
                                lemma_grid_grows_trans(g0, g2, *grid);
                                assert(out@.subrange(0, out0.len() as int) =~= out1.subrange(0, out0.len() as int));
                                assert(!(kids0[k as int].1 is Tile));
                                let c = divider_spec(kids0[k as int].1, child_box);
                                lemma_grid_after_trans(g0, g2, *grid, prev.0, c.0, weight);
                                assert(div_car_parts(kids0, axis, inner, base, vp_start as int, vp_end as int, k + 1) == (prev.0 + c.0, prev.1 + c.1));
                                assert(out@ =~= out0 + div_car_parts(kids0, axis, inner, base, vp_start as int, vp_end as int, k + 1).1);
                            }
                        },
                    }
                }
                proof {
                    if !(vis_start < vis_end) {
                        assert(div_car_parts(kids0, axis, inner, base, vp_start as int, vp_end as int, k + 1) == prev);
                        assert(car_child_box(kids0, axis, inner, base, vp_start as int, vp_end as int, k as int) is None);
                        assert(children@ == kids1);
                    } else {
                        assert(car_child_box(kids0, axis, inner, base, vp_start as int, vp_end as int, k as int) == Some(
                            child_rect_spec(axis, inner, vis_start as u16, (vis_end - vis_start) as u16),
                        ));
                    }
                    assert forall|j: int| 0 <= j < k + 1 implies match car_child_box(
                        kids0,
                        axis,
                        inner,
                        base,
                        vp_start as int,
                        vp_end as int,
                        j,
                    ) {
                        Some(cb) => divided_node(kids0[j].1, (#[trigger] children@[j]).1, cb),
                        None => children@[j] == kids0[j],
                    } by {
                        if j < k {
                            assert(children@[j] == kids1[j]);
                        }
                    }
                }
                k = k + 1;
            }
            proof {
                assert forall|j: int| 0 <= j < children@.len() implies tree_ok(#[trigger] children@[j].1) by {}
                assert(children@.map_values(|c: (u16, Node)| c.0) =~= kids0.map_values(|c: (u16, Node)| c.0));
                assert(out@ == out0 + divider_spec(node0, box_rect).1);
                assert(*orientation == crate::layout::resolve_spec(o0, inner).0);
            }
        },
    }
}

} // verus!

verus! {

/// The strokes that render the first `n` cells of row `y` from column `x0` of grid
/// `g`: one per cell that resolves to a glyph, left to right.
pub open spec fn grid_row_strokes(g: EdgeGrid, x0: int, y: int, n: nat) -> Seq<Stroke>
    decreases n,
{
    if n == 0 {
        Seq::empty()
    } else {
        let prev = grid_row_strokes(g, x0, y, (n - 1) as nat);
        match resolve_spec(g.cell_at(x0 + n - 1, y)) {
            Some(ch) => prev.push((x0 + n - 1, y, seq![ch])),
            None => prev,
        }
    }
}

/// The strokes that render the first `rows` rows of `area` from grid `g`, row by row.
pub open spec fn grid_strokes(g: EdgeGrid, area: Rect, rows: nat) -> Seq<Stroke>
    decreases rows,
{
    if rows == 0 {
        Seq::empty()
    } else {
        grid_strokes(g, area, (rows - 1) as nat) + grid_row_strokes(
            g,
            area.x as int,
            area.y + rows - 1,
            area.width as nat,
        )
    }
}

/// `(x, y)` lies on the outermost ring of cells of `area`.
pub open spec fn on_ring(area: Rect, x: int, y: int) -> bool {
    &&& in_area(area, x, y)
    &&& (x == area.x || x == area.x + area.width - 1 || y == area.y || y == area.y + area.height - 1)
}

/// `g` is an edge grid over `area` whose outer ring is drawn whenever `area` has
/// two cells or more, and `after` is `before` with the glyph of every cell of `area`
/// that resolves written into it, in row-major order.
pub open spec fn shared_render(
    g: EdgeGrid,
    area: Rect,
    before: Seq<CellView>,
    barea: Rect,
    after: Seq<CellView>,
    style: Style,
) -> bool {
    &&& g.wf()
    &&& g.region() == area
    &&& (area.width >= 2 || area.height >= 2) ==> forall|x: int, y: int|
        on_ring(area, x, y) ==> #[trigger] g.cell_at(x, y) != bare_cell()
    &&& after == put_strokes(before, barea, grid_strokes(g, area, area.height as nat), style)
}

/// A box added to a fresh grid over the same area draws every cell of its ring.
proof fn lemma_frame_ring(area: Rect, w: LineWeight, x: int, y: int)
    requires
        area.fits(),
        area.width >= 1,
        area.height >= 1,
        area.width >= 2 || area.height >= 2,
        on_ring(area, x, y),
    ensures
        box_effect(area, area, w, x, y, bare_cell()) != bare_cell(),
{
}

/// The box of the first of the first `k` tiles of `info` whose id is `id`.
pub open spec fn first_box(info: Seq<(TileId, Rect, Rect)>, id: TileId, k: int) -> Option<Rect>
    decreases k,
{
    if k <= 0 || k > info.len() {
        None
    } else {
        match first_box(info, id, k - 1) {
            Some(b) => Some(b),
            None => if info[k - 1].0 == id {
                Some(info[k - 1].1)
            } else {
                None
            },
        }
    }
}

proof fn lemma_first_box_stays(info: Seq<(TileId, Rect, Rect)>, id: TileId, k: int, m: int)
    requires
        0 <= k <= m <= info.len(),
        first_box(info, id, k) is Some,
    ensures
        first_box(info, id, m) == first_box(info, id, k),
    decreases m - k,
{
    if k < m {
        lemma_first_box_stays(info, id, k, m - 1);
    }
}

/// A grid cell, currently `c`, after the overrides `ovs` are laid in order: for
/// each, the box of the first tile of `info` with its id, when there is one that
/// fits the coordinate space, is redrawn at its weight.
pub open spec fn override_cell(
    area: Rect,
    info: Seq<(TileId, Rect, Rect)>,
    ovs: Seq<(TileId, LineWeight)>,
    x: int,
    y: int,
    c: EdgeCell,
) -> EdgeCell
    decreases ovs.len(),
{
    if ovs.len() == 0 {
        c
    } else {
        let prev = override_cell(area, info, ovs.drop_last(), x, y, c);
        let o = ovs.last();
        match first_box(info, o.0, info.len() as int) {
            Some(b) => if b.x + b.width <= 0xffff && b.y + b.height <= 0xffff && b.width != 0 && b.height
                != 0 {
                box_effect(area, b, o.1, x, y, prev)
            } else {
                prev
            },
            None => prev,
        }
    }
}

/// A cell of the shared-border grid over `area`: the outer frame at weight `w`, then
/// the dividers `ops`, then the overrides.
pub open spec fn shared_cell(
    area: Rect,
    w: LineWeight,
    d: Dividers,
    ovs: Seq<(TileId, LineWeight)>,
    x: int,
    y: int,
) -> EdgeCell {
    let framed = if area.width == 0 || area.height == 0 {
        bare_cell()
    } else {
        box_effect(area, area, w, x, y, bare_cell())
    };
    override_cell(area, d.1, ovs, x, y, ops_cell(area, d.0, w, x, y, framed))
}

/// Render the layout under `root` in shared-border mode: one outer frame around
/// `area`, one divider line between neighbouring tiles, junction glyphs where lines
/// meet, and for each `(id, weight)` of `overrides` the box of tile `id` redrawn at
/// that weight (the stronger weight wins).  Returns each tile's content rect, in
/// depth-first order.
pub fn render_shared(
    buf: &mut Buffer,
    root: &mut Node,
    area: Rect,
    style: &BorderStyle,
    overrides: &[(TileId, LineWeight)],
) -> (out: Vec<(TileId, Rect)>)
    requires
        old(buf).wf(),
        area.fits(),
        tree_ok(*old(root)),
        divides_ok(*old(root), area),
    ensures
        final(buf).wf(),
        final(buf).area == old(buf).area,
        tree_ok(*final(root)),
        exists|g: EdgeGrid|
            shared_render(g, area, old(buf).view(), old(buf).area, final(buf).view(), style.style) && forall|
                x: int,
                y: int,
            |
                in_area(area, x, y) ==> #[trigger] g.cell_at(x, y) == shared_cell(
                    area,
                    style.weight,
                    divider_spec(*old(root), area),
                    overrides@,
                    x,
                    y,
                ),
        out@ == divider_spec(*old(root), area).1.map_values(|t: (TileId, Rect, Rect)| (t.0, t.2)),
        divided_node(*old(root), *final(root), area),
{
    let mut grid = EdgeGrid::new(area);
    grid.add_box(area, style.weight);
    let ghost g1 = grid;
    proof {
        if area.width >= 2 || area.height >= 2 {
            assert forall|x: int, y: int| on_ring(area, x, y) implies #[trigger] g1.cell_at(x, y)
                != bare_cell() by {
                lemma_frame_ring(area, style.weight, x, y);
            }
        }
    }
    let mut tile_info: Vec<(TileId, Rect, Rect)> = Vec::new();
    let ghost root0 = *root;
    let ghost d = divider_spec(root0, area);
    add_dividers(&mut grid, root, area, style.weight, &mut tile_info);
    proof {
        assert(tile_info@ =~= d.1);
    }
    let mut k: usize = 0;
    while k < overrides.len()
        invariant
            grid.wf(),
            grid.region() == area,
            area.fits(),
            grid_grows(g1, grid),
            k <= overrides@.len(),
            tile_info@ == d.1,
            forall|x: int, y: int|
                in_area(area, x, y) ==> #[trigger] grid.cell_at(x, y) == override_cell(
                    area,
                    d.1,
                    overrides@.take(k as int),
                    x,
                    y,
                    ops_cell(area, d.0, style.weight, x, y, g1.cell_at(x, y)),
                ),
        decreases overrides.len() - k,
    {
        let (id, ow) = overrides[k];
        let mut j: usize = 0;
        let mut found: Option<Rect> = None;
        while j < tile_info.len() && found.is_none()
            invariant
                j <= tile_info@.len(),
                found == first_box(tile_info@, id, j as int),
                found is Some ==> first_box(tile_info@, id, tile_info@.len() as int) == found,
            decreases tile_info.len() - j,
        {
            if tile_info[j].0 == id {
                found = Some(tile_info[j].1);
            }
            j = j + 1;
            proof {
                if found is Some {
                    lemma_first_box_stays(tile_info@, id, j as int, tile_info@.len() as int);
                }
            }
        }
        let ghost gk = grid;
        proof {
            assert(overrides@.take(k + 1).drop_last() =~= overrides@.take(k as int));
            assert(overrides@.take(k + 1).last() == (id, ow));
        }
        if let Some(b) = found {
            if b.x as u32 + b.width as u32 <= 0xffff && b.y as u32 + b.height as u32 <= 0xffff {
                let ghost g2 = grid;
                grid.grow_box(b, ow);
                proof {
                    lemma_grid_grows_trans(g1, g2, grid);
                }
            }
        }
        k = k + 1;
    }
    proof {
        assert(overrides@.take(overrides@.len() as int) =~= overrides@);
        assert forall|x: int, y: int| in_area(area, x, y) implies #[trigger] grid.cell_at(x, y) == shared_cell(
            area,
            style.weight,
            d,
            overrides@,
            x,
            y,
        ) by {
            assert(g1.cell_at(x, y) == (if area.width == 0 || area.height == 0 {
                bare_cell()
            } else {
                box_effect(area, area, style.weight, x, y, bare_cell())
            }));
        }
    }
    let ghost g = grid;
    proof {
        if area.width >= 2 || area.height >= 2 {
            assert forall|x: int, y: int| on_ring(area, x, y) implies #[trigger] g.cell_at(x, y)
                != bare_cell() by {
                assert(g1.cell_at(x, y) != bare_cell());
            }
        }
    }
    let ghost v0 = buf.view();
    let ghost barea = buf.area;
    let mut y = area.y;
    while y < area.y + area.height
        invariant
            buf.wf(),
            buf.area == barea,
            area.fits(),
            grid == g,
            g.wf(),
            g.region() == area,
            area.y <= y <= area.y + area.height,
            buf.view() == put_strokes(v0, barea, grid_strokes(g, area, (y - area.y) as nat), style.style),
        decreases area.y + area.height - y,
    {
        let mut x = area.x;
        while x < area.x + area.width
            invariant
                buf.wf(),
                buf.area == barea,
                area.fits(),
                grid == g,
                g.wf(),
                g.region() == area,
                area.y <= y < area.y + area.height,
                area.x <= x <= area.x + area.width,
                buf.view() == put_strokes(
                    v0,
                    barea,
                    grid_strokes(g, area, (y - area.y) as nat) + grid_row_strokes(
                        g,
                        area.x as int,
                        y as int,
                        (x - area.x) as nat,
                    ),
                    style.style,
                ),
            decreases area.x + area.width - x,
        {
            let ghost before = grid_strokes(g, area, (y - area.y) as nat) + grid_row_strokes(
                g,
                area.x as int,
                y as int,
                (x - area.x) as nat,
            );
            let ghost after = grid_strokes(g, area, (y - area.y) as nat) + grid_row_strokes(
                g,
                area.x as int,
                y as int,
                (x + 1 - area.x) as nat,
            );
            match grid.get(x, y) {
                Some(cell) => match resolve(cell) {
                    Some(ch) => {
                        let mut s = String::new();
                        append_char(&mut s, ch);
                        let _ = buf.set_grapheme(x, y, s.as_str(), style.style);
                        proof {
                            assert(s@ =~= seq![ch]);
                            assert(after =~= before.push((x as int, y as int, seq![ch])));
                            assert(after.drop_last() =~= before);
                        }
                    },
                    None => {
                        proof {
                            assert(after =~= before);
                        }
                    },
                },
                None => {},
            }
            x = x + 1;
        }
        proof {
            assert(grid_strokes(g, area, (y + 1 - area.y) as nat) =~= grid_strokes(
                g,
                area,
                (y - area.y) as nat,
            ) + grid_row_strokes(g, area.x as int, y as int, area.width as nat));
        }
        y = y + 1;
    }
    proof {
        assert(shared_render(g, area, v0, barea, buf.view(), style.style));
    }
    let mut out: Vec<(TileId, Rect)> = Vec::new();
    let mut i: usize = 0;
    while i < tile_info.len()
        invariant
            out@.len() == i,
            i <= tile_info@.len(),
            forall|t: int| 0 <= t < i ==> #[trigger] out@[t] == (tile_info@[t].0, tile_info@[t].2),
        decreases tile_info.len() - i,
    {
        out.push((tile_info[i].0, tile_info[i].2));
        i = i + 1;
    }
    proof {
        assert(out@ =~= d.1.map_values(|t: (TileId, Rect, Rect)| (t.0, t.2)));
    }
    out
}

} // verus!
