use vstd::prelude::*;

use crate::border::{put_strokes, stroke, Stroke};
use crate::buffer::{display_width, grapheme_clusters, graphemes_of, str_width, Buffer};
use crate::geometry::Rect;
use crate::style::Style;

verus! {

/// Blank columns (or rows) between the end of marquee text and its next repetition.
pub const MARQUEE_GAP: u16 = 3;

/// Which edge of a tile's outer box a label is drawn on.
#[derive(Debug, Clone, Copy, PartialEq, Eq, Structural, Hash)]
pub enum Side {
    Top,
    Bottom,
    /// Left column, reading top to bottom.
    Left,
    /// Right column, reading top to bottom.
    Right,
}

/// Alignment of a label that fits its run.
#[derive(Debug, Clone, Copy, PartialEq, Eq, Structural, Hash)]
pub enum Align {
    Start,
    /// Centred; an odd remainder rounds toward the start.
    Center,
    End,
}

/// A physical horizontal anchor, after resolving a logical alignment against a
/// base direction.
#[derive(Debug, Clone, Copy, PartialEq, Eq, Structural, Hash)]
pub enum Anchor {
    Left,
    Center,
    Right,
}

/// The base direction of a paragraph.
#[derive(Debug, Clone, Copy, PartialEq, Eq, Structural, Hash)]
pub enum BaseDirection {
    Ltr,
    Rtl,
    /// Not yet resolved; treated as left to right.
    Auto,
}

/// The context text is laid out in: its base direction.
#[derive(Debug, Clone, Copy, PartialEq, Eq, Structural, Hash)]
pub struct TextCtx {
    pub base: BaseDirection,
}

impl TextCtx {
    /// Left-to-right text.
    pub fn ltr() -> (c: Self)
        ensures
            c.base == BaseDirection::Ltr,
    {
        TextCtx { base: BaseDirection::Ltr }
    }

    /// Right-to-left text.
    pub fn rtl() -> (c: Self)
        ensures
            c.base == BaseDirection::Rtl,
    {
        TextCtx { base: BaseDirection::Rtl }
    }
}

/// The physical anchor of an alignment: under right-to-left the start is the right
/// edge and the end the left; centring is the same either way.
pub open spec fn anchor_of(a: Align, base: BaseDirection) -> Anchor {
    match (a, base) {
        (Align::Center, _) => Anchor::Center,
        (Align::Start, BaseDirection::Rtl) => Anchor::Right,
        (Align::Start, _) => Anchor::Left,
        (Align::End, BaseDirection::Rtl) => Anchor::Left,
        (Align::End, _) => Anchor::Right,
    }
}

impl Align {
    /// Resolve this logical alignment to a physical anchor for `base`.
    pub fn resolve(self, base: BaseDirection) -> (r: Anchor)
        ensures
            r == anchor_of(self, base),
    {
        match (self, base) {
            (Align::Center, _) => Anchor::Center,
            (Align::Start, BaseDirection::Rtl) => Anchor::Right,
            (Align::Start, _) => Anchor::Left,
            (Align::End, BaseDirection::Rtl) => Anchor::Left,
            (Align::End, _) => Anchor::Right,
        }
    }
}

/// A text label to draw on a tile's border edge; `offset` is the marquee scroll
/// position, in columns (or rows) from the start of the text.
pub struct Label {
    pub text: String,
    pub side: Side,
    pub align: Align,
    pub offset: u16,
}

/// The display widths of the graphemes summed.
pub open spec fn width_total(gs: Seq<Seq<char>>) -> int
    decreases gs.len(),
{
    if gs.len() == 0 {
        0
    } else {
        width_total(gs.drop_last()) + display_width(gs.last())
    }
}

/// The graphemes of non-zero width, each with its width.
pub open spec fn wide_enough(gs: Seq<Seq<char>>) -> Seq<(Seq<char>, int)>
    decreases gs.len(),
{
    if gs.len() == 0 {
        Seq::empty()
    } else {
        let rest = wide_enough(gs.drop_last());
        let w = display_width(gs.last()) as int;
        if w > 0 {
            rest.push((gs.last(), w))
        } else {
            rest
        }
    }
}

/// The graphemes of width 1.
pub open spec fn narrow(gs: Seq<Seq<char>>) -> Seq<Seq<char>>
    decreases gs.len(),
{
    if gs.len() == 0 {
        Seq::empty()
    } else {
        let rest = narrow(gs.drop_last());
        if display_width(gs.last()) == 1 {
            rest.push(gs.last())
        } else {
            rest
        }
    }
}

/// The widths of the items summed.
pub open spec fn item_cols(items: Seq<(Seq<char>, int)>) -> int
    decreases items.len(),
{
    if items.len() == 0 {
        0
    } else {
        item_cols(items.drop_last()) + items.last().1
    }
}

/// How many cells a label's text needs along its edge: display columns for a
/// horizontal edge, the count of width-1 graphemes (kept to 16 bits) for a vertical one.
pub open spec fn extent_spec(text: Seq<char>, side: Side) -> int {
    let gs = grapheme_clusters(text);
    match side {
        Side::Top | Side::Bottom => width_total(gs),
        Side::Left | Side::Right => (narrow(gs).len() as u16) as int,
    }
}

} // verus!

verus! {

proof fn lemma_width_total_prefix(gs: Seq<Seq<char>>, i: int)
    requires
        0 <= i <= gs.len(),
    ensures
        0 <= width_total(gs.take(i)) <= width_total(gs),
    decreases gs.len(),
{
    if i == gs.len() {
        assert(gs.take(i) =~= gs);
        lemma_width_total_nonneg(gs);
    } else {
        assert(gs.take(i) =~= gs.drop_last().take(i));
        lemma_width_total_prefix(gs.drop_last(), i);
    }
}

proof fn lemma_width_total_nonneg(gs: Seq<Seq<char>>)
    ensures
        0 <= width_total(gs),
    decreases gs.len(),
{
    if gs.len() > 0 {
        lemma_width_total_nonneg(gs.drop_last());
    }
}

proof fn lemma_item_cols_total(gs: Seq<Seq<char>>)
    ensures
        item_cols(wide_enough(gs)) == width_total(gs),
        forall|k: int| 0 <= k < wide_enough(gs).len() ==> (#[trigger] wide_enough(gs)[k]).1 >= 1,
    decreases gs.len(),
{
    if gs.len() > 0 {
        lemma_item_cols_total(gs.drop_last());
        let r = wide_enough(gs.drop_last());
        if display_width(gs.last()) > 0 {
            assert(wide_enough(gs).drop_last() =~= r);
        }
    }
}

proof fn lemma_item_cols_prefix(items: Seq<(Seq<char>, int)>, i: int)
    requires
        0 <= i <= items.len(),
        forall|k: int| 0 <= k < items.len() ==> (#[trigger] items[k]).1 >= 0,
    ensures
        0 <= item_cols(items.take(i)) <= item_cols(items),
    decreases items.len(),
{
    if i == items.len() {
        assert(items.take(i) =~= items);
        lemma_item_cols_nonneg(items);
    } else {
        assert(items.take(i) =~= items.drop_last().take(i));
        lemma_item_cols_prefix(items.drop_last(), i);
    }
}

proof fn lemma_item_cols_nonneg(items: Seq<(Seq<char>, int)>)
    requires
        forall|k: int| 0 <= k < items.len() ==> (#[trigger] items[k]).1 >= 0,
    ensures
        0 <= item_cols(items),
    decreases items.len(),
{
    if items.len() > 0 {
        lemma_item_cols_nonneg(items.drop_last());
    }
}

/// The display columns of `text`.
fn h_display_cols(text: &str) -> (r: u16)
    requires
        width_total(grapheme_clusters(text@)) <= u16::MAX,
    ensures
        r == width_total(grapheme_clusters(text@)),
{
    let gs = graphemes_of(text);
    let ghost all = grapheme_clusters(text@);
    let mut total: u16 = 0;
    let mut i: usize = 0;
    while i < gs.len()
        invariant
            gs@.len() == all.len(),
            forall|k: int| 0 <= k < gs@.len() ==> #[trigger] gs@[k]@ == all[k],
            width_total(all) <= u16::MAX,
            i <= gs@.len(),
            total == width_total(all.take(i as int)),
        decreases gs@.len() - i,
    {
        proof {
            assert(all.take(i + 1).drop_last() =~= all.take(i as int));
            lemma_width_total_prefix(all, i + 1);
        }
        let w = str_width(gs[i]);
        total = total + w as u16;
        i = i + 1;
    }
    proof {
        assert(all.take(all.len() as int) =~= all);
    }
    total
}

/// The graphemes of `text` of width 1.
fn narrow_of<'a>(text: &'a str) -> (r: Vec<&'a str>)
    ensures
        r@.len() == narrow(grapheme_clusters(text@)).len(),
        forall|k: int| 0 <= k < r@.len() ==> #[trigger] r@[k]@ == narrow(grapheme_clusters(text@))[k],
{
    let gs = graphemes_of(text);
    let ghost all = grapheme_clusters(text@);
    let mut out: Vec<&'a str> = Vec::new();
    let mut i: usize = 0;
    while i < gs.len()
        invariant
            gs@.len() == all.len(),
            forall|k: int| 0 <= k < gs@.len() ==> #[trigger] gs@[k]@ == all[k],
            i <= gs@.len(),
            out@.len() == narrow(all.take(i as int)).len(),
            forall|k: int| 0 <= k < out@.len() ==> #[trigger] out@[k]@ == narrow(all.take(i as int))[k],
        decreases gs@.len() - i,
    {
        proof {
            assert(all.take(i + 1).drop_last() =~= all.take(i as int));
        }
        if str_width(gs[i]) == 1 {
            out.push(gs[i]);
        }
        i = i + 1;
    }
    proof {
        assert(all.take(all.len() as int) =~= all);
    }
    out
}

/// The graphemes of `text` of non-zero width, with their widths, and their columns
/// summed.
fn wide_items_of<'a>(text: &'a str) -> (r: (Vec<(&'a str, u16)>, u16))
    requires
        width_total(grapheme_clusters(text@)) <= u16::MAX,
    ensures
        r.0@.len() == wide_enough(grapheme_clusters(text@)).len(),
        forall|k: int|
            0 <= k < r.0@.len() ==> (#[trigger] r.0@[k]).0@ == wide_enough(grapheme_clusters(text@))[k].0
                && r.0@[k].1 == wide_enough(grapheme_clusters(text@))[k].1,
        r.1 == item_cols(wide_enough(grapheme_clusters(text@))),
{
    let gs = graphemes_of(text);
    let ghost all = grapheme_clusters(text@);
    let mut out: Vec<(&'a str, u16)> = Vec::new();
    let mut total: u16 = 0;
    let mut i: usize = 0;
    proof {
        lemma_item_cols_total(all);
    }
    while i < gs.len()
        invariant
            gs@.len() == all.len(),
            forall|k: int| 0 <= k < gs@.len() ==> #[trigger] gs@[k]@ == all[k],
            width_total(all) <= u16::MAX,
            i <= gs@.len(),
            out@.len() == wide_enough(all.take(i as int)).len(),
            forall|k: int|
                0 <= k < out@.len() ==> (#[trigger] out@[k]).0@ == wide_enough(all.take(i as int))[k].0
                    && out@[k].1 == wide_enough(all.take(i as int))[k].1,
            total == width_total(all.take(i as int)),
        decreases gs@.len() - i,
    {
        proof {
            assert(all.take(i + 1).drop_last() =~= all.take(i as int));
            lemma_width_total_prefix(all, i + 1);
        }
        let w = str_width(gs[i]);
        if w > 0 {
            out.push((gs[i], w as u16));
        }
        total = total + w as u16;
        i = i + 1;
    }
    proof {
        assert(all.take(all.len() as int) =~= all);
    }
    (out, total)
}

/// The marquee period of `text` on a run of `run_len` cells, or `None` when it fits:
/// the text's extent along the edge (see [`extent_spec`]) plus [`MARQUEE_GAP`].
pub fn label_period(text: &str, run_len: u16, side: Side) -> (r: Option<u16>)
    requires
        side is Top || side is Bottom ==> width_total(grapheme_clusters(text@)) <= u16::MAX,
        extent_spec(text@, side) > run_len ==> extent_spec(text@, side) + MARQUEE_GAP <= u16::MAX,
    ensures
        r == if extent_spec(text@, side) <= run_len {
            None
        } else {
            Some((extent_spec(text@, side) + MARQUEE_GAP) as u16)
        },
{
    let extent = match side {
        Side::Top | Side::Bottom => h_display_cols(text),
        Side::Left | Side::Right => narrow_of(text).len() as u16,
    };
    if extent <= run_len {
        None
    } else {
        Some(extent + MARQUEE_GAP)
    }
}

} // verus!

verus! {

/// The space glyph.
pub open spec fn sp() -> Seq<char> {
    seq![' ']
}

/// The offset of text of `n` cells in a run of `run_len` cells.
pub open spec fn align_offset(align: Align, run_len: int, n: int) -> int {
    match align {
        Align::Start => 0,
        Align::End => run_len - n,
        Align::Center => (run_len - n) / 2,
    }
}

/// The items laid left to right from column `x` on row `y`.
pub open spec fn run_strokes(items: Seq<(Seq<char>, int)>, x: int, y: int) -> Seq<Stroke>
    decreases items.len(),
{
    if items.len() == 0 {
        Seq::empty()
    } else {
        run_strokes(items.drop_last(), x, y).push(
            (x + item_cols(items.drop_last()), y, items.last().0),
        )
    }
}

/// The marquee line of one period: the text items, then the gap as spaces.
pub open spec fn marquee_items(items: Seq<(Seq<char>, int)>) -> Seq<(Seq<char>, int)> {
    items + seq![(sp(), 1int), (sp(), 1int), (sp(), 1int)]
}

/// `n` spaces along row `y` from column `x`.
pub open spec fn spaces(x: int, y: int, n: int) -> Seq<Stroke> {
    Seq::new(n as nat, |k: int| (x + k, y, sp()))
}

/// The item that holds column `start` of the periodic line, and how many of its
/// columns come before `start`, searching from item `i` at column `col`.
pub open spec fn locate(all: Seq<(Seq<char>, int)>, start: int, i: int, col: int) -> (int, int)
    decreases all.len() - i,
{
    if i >= all.len() || i < 0 {
        (0, 0)
    } else if col + all[i].1 > start {
        (i, start - col)
    } else {
        locate(all, start, i + 1, col + all[i].1)
    }
}

/// The strokes of a marquee window from screen column `sx` to `end` on row `y`,
/// starting with item `i` (of which the first `s` columns are already past): an
/// item cut by the left edge shows as spaces, an item that fits is drawn, an item
/// cut by the right edge shows as spaces up to the edge.
pub open spec fn window_strokes(all: Seq<(Seq<char>, int)>, i: int, sx: int, end: int, y: int, s: int) -> Seq<Stroke>
    decreases end - sx,
{
    if sx >= end || all.len() == 0 || i < 0 {
        Seq::empty()
    } else {
        let (g, w) = all[i % (all.len() as int)];
        if w <= 0 {
            Seq::empty()
        } else if s > 0 {
            let vis = if w - s < end - sx {
                w - s
            } else {
                end - sx
            };
            if vis <= 0 {
                Seq::empty()
            } else {
                spaces(sx, y, vis) + window_strokes(all, i + 1, sx + vis, end, y, 0)
            }
        } else if w <= end - sx {
            seq![(sx, y, g)] + window_strokes(all, i + 1, sx + w, end, y, 0)
        } else {
            spaces(sx, y, end - sx)
        }
    }
}

/// The strokes that draw a label of `text` on side `side` of `rect`: nothing for
/// empty text or a run shorter than one cell; text that fits is placed by `align`
/// (horizontal text left to right in display columns, vertical text one width-1
/// grapheme per row, wider graphemes skipped); text that overflows shows the
/// marquee window of one run's length from `offset` (modulo the period) along the
/// text followed by the gap, repeating.
pub open spec fn label_strokes(rect: Rect, text: Seq<char>, side: Side, align: Align, offset: int) -> Seq<Stroke> {
    let gs = grapheme_clusters(text);
    if text.len() == 0 {
        Seq::empty()
    } else {
        match side {
            Side::Top | Side::Bottom => {
                if rect.width < 3 {
                    Seq::empty()
                } else {
                    let run_len = rect.width - 2;
                    let run_x = rect.x + 1;
                    let run_y = if side is Top {
                        rect.y as int
                    } else {
                        rect.y + rect.height - 1
                    };
                    let items = wide_enough(gs);
                    let cols = item_cols(items);
                    if cols == 0 {
                        Seq::empty()
                    } else if cols <= run_len {
                        run_strokes(items, run_x + align_offset(align, run_len, cols), run_y)
                    } else {
                        let all = marquee_items(items);
                        let start = offset % (cols + 3);
                        let (idx, skip) = locate(all, start, 0, 0);
                        window_strokes(all, idx, run_x, run_x + run_len, run_y, skip)
                    }
                }
            },
            Side::Left | Side::Right => {
                if rect.height < 3 {
                    Seq::empty()
                } else {
                    let run_len = rect.height - 2;
                    let run_y = rect.y + 1;
                    let run_x = if side is Left {
                        rect.x as int
                    } else {
                        rect.x + rect.width - 1
                    };
                    let nr = narrow(gs);
                    let count = nr.len() as int;
                    if count == 0 {
                        Seq::empty()
                    } else if count <= run_len {
                        let y0 = run_y + align_offset(align, run_len, count);
                        Seq::new(nr.len(), |k: int| (run_x, y0 + k, nr[k]))
                    } else {
                        let period = count + 3;
                        let vr = nr + seq![sp(), sp(), sp()];
                        let start = offset % period;
                        Seq::new(run_len as nat, |k: int| (run_x, run_y + k, vr[(start + k) % period]))
                    }
                }
            },
        }
    }
}

/// What a label needs of its rect and text to be drawn without overflowing 16-bit
/// arithmetic: the rect lies in the coordinate space, the text's extent (and, when
/// it scrolls, its period) fits in 16 bits, and a vertical marquee's last slot
/// index does too.
pub open spec fn label_fits(rect: Rect, text: Seq<char>, side: Side, offset: int) -> bool {
    let gs = grapheme_clusters(text);
    &&& rect.fits()
    &&& (side is Bottom ==> rect.y + rect.height >= 1)
    &&& (side is Right ==> rect.x + rect.width >= 1)
    &&& match side {
        Side::Top | Side::Bottom => {
            &&& width_total(gs) <= u16::MAX
            &&& width_total(gs) > rect.width - 2 ==> width_total(gs) + 3 <= u16::MAX
        },
        Side::Left | Side::Right => {
            let count = narrow(gs).len() as int;
            &&& count + 3 <= u16::MAX
            &&& (count > rect.height - 2 && rect.height >= 3) ==> offset % (count + 3) + rect.height - 2 <= u16::MAX + 1
        },
    }
}

} // verus!

verus! {

/// Lay the items left to right from column `x` on row `y`.
fn draw_run(buf: &mut Buffer, items: &Vec<(&str, u16)>, x: u16, y: u16, style: Style, Ghost(v0): Ghost<Seq<crate::buffer::CellView>>, Ghost(done): Ghost<Seq<Stroke>>, Ghost(spec_items): Ghost<Seq<(Seq<char>, int)>>) -> (r: Ghost<Seq<Stroke>>)
    requires
        old(buf).wf(),
        old(buf).view() == put_strokes(v0, old(buf).area, done, style),
        items@.len() == spec_items.len(),
        forall|k: int| 0 <= k < items@.len() ==> (#[trigger] items@[k]).0@ == spec_items[k].0 && items@[k].1 == spec_items[k].1,
        x + item_cols(spec_items) <= u16::MAX,
        forall|k: int| 0 <= k < spec_items.len() ==> (#[trigger] spec_items[k]).1 >= 0,
    ensures
        final(buf).wf(),
        final(buf).area == old(buf).area,
        r@ == done + run_strokes(spec_items, x as int, y as int),
        final(buf).view() == put_strokes(v0, old(buf).area, r@, style),
{
    let ghost area = buf.area;
    let mut d = Ghost(done);
    let mut cx = x;
    let mut k: usize = 0;
    while k < items.len()
        invariant
            buf.wf(),
            buf.area == area,
            items@.len() == spec_items.len(),
            forall|j: int| 0 <= j < items@.len() ==> (#[trigger] items@[j]).0@ == spec_items[j].0 && items@[j].1 == spec_items[j].1,
            forall|j: int| 0 <= j < spec_items.len() ==> (#[trigger] spec_items[j]).1 >= 0,
            x + item_cols(spec_items) <= u16::MAX,
            k <= items@.len(),
            cx == x + item_cols(spec_items.take(k as int)),
            d@ == done + run_strokes(spec_items.take(k as int), x as int, y as int),
            buf.view() == put_strokes(v0, area, d@, style),
        decreases items@.len() - k,
    {
        let (g, w) = items[k];
        proof {
            assert(spec_items.take(k + 1).drop_last() =~= spec_items.take(k as int));
            lemma_item_cols_prefix(spec_items, k + 1);
        }
        d = stroke(buf, cx, y, g, style, Ghost(v0), d);
        proof {
            assert(d@ =~= done + run_strokes(spec_items.take(k + 1), x as int, y as int));
        }
        cx = cx + w;
        k = k + 1;
    }
    proof {
        assert(spec_items.take(spec_items.len() as int) =~= spec_items);
    }
    d
}

} // verus!

verus! {

/// Write `n` spaces along row `y` from column `x`.
fn draw_spaces(buf: &mut Buffer, x: u16, y: u16, n: u16, style: Style, Ghost(v0): Ghost<Seq<crate::buffer::CellView>>, Ghost(done): Ghost<Seq<Stroke>>) -> (r: Ghost<Seq<Stroke>>)
    requires
        old(buf).wf(),
        old(buf).view() == put_strokes(v0, old(buf).area, done, style),
        x + n <= u16::MAX,
    ensures
        final(buf).wf(),
        final(buf).area == old(buf).area,
        r@ == done + spaces(x as int, y as int, n as int),
        final(buf).view() == put_strokes(v0, old(buf).area, r@, style),
{
    let ghost area = buf.area;
    let mut d = Ghost(done);
    let mut k: u16 = 0;
    while k < n
        invariant
            buf.wf(),
            buf.area == area,
            x + n <= u16::MAX,
            k <= n,
            d@ == done + spaces(x as int, y as int, k as int),
            buf.view() == put_strokes(v0, area, d@, style),
        decreases n - k,
    {
        let g = " ";
        proof {
            reveal_strlit(" ");
            assert(g@ == sp());
        }
        d = stroke(buf, x + k, y, g, style, Ghost(v0), d);
        proof {
            assert(d@ =~= done + spaces(x as int, y as int, k + 1));
        }
        k = k + 1;
    }
    d
}

/// Draw a horizontal marquee window of `run_len` columns from `run_x` on row
/// `run_y`, starting `start` columns into the periodic line of the items followed
/// by the gap (see [`window_strokes`]).
#[verifier::rlimit(60)]
fn draw_h_window(buf: &mut Buffer, run_x: u16, run_y: u16, run_len: u16, gws: &Vec<(&str, u16)>, start: u16, style: Style, Ghost(v0): Ghost<Seq<crate::buffer::CellView>>, Ghost(items): Ghost<Seq<(Seq<char>, int)>>) -> (r: Ghost<Seq<Stroke>>)
    requires
        old(buf).wf(),
        old(buf).view() == v0,
        gws@.len() == items.len(),
        forall|k: int| 0 <= k < gws@.len() ==> (#[trigger] gws@[k]).0@ == items[k].0 && gws@[k].1 == items[k].1,
        forall|k: int| 0 <= k < items.len() ==> (#[trigger] items[k]).1 >= 1,
        item_cols(items) + 3 <= u16::MAX,
        run_x + run_len <= u16::MAX,
        gws@.len() < u16::MAX,
    ensures
        final(buf).wf(),
        final(buf).area == old(buf).area,
        r@ == ({
            let all = marquee_items(items);
            let (idx, skip) = locate(all, start as int, 0, 0);
            window_strokes(all, idx, run_x as int, run_x + run_len, run_y as int, skip)
        }),
        final(buf).view() == put_strokes(v0, old(buf).area, r@, style),
{
    let ghost area = buf.area;
    let ghost all_s = marquee_items(items);
    let mut all: Vec<(&str, u16)> = Vec::new();
    let mut k: usize = 0;
    while k < gws.len()
        invariant
            k <= gws@.len(),
            all@ == gws@.take(k as int),
        decreases gws@.len() - k,
    {
        all.push(gws[k]);
        proof {
            assert(all@ =~= gws@.take(k + 1));
        }
        k = k + 1;
    }
    proof {
        assert(gws@.take(gws@.len() as int) =~= gws@);
        reveal_strlit(" ");
    }
    all.push((" ", 1));
    all.push((" ", 1));
    all.push((" ", 1));
    proof {
        assert forall|j: int| 0 <= j < all@.len() implies (#[trigger] all@[j]).0@ == all_s[j].0 && all@[j].1 == all_s[j].1 && all_s[j].1 >= 1 by {
            if j < gws@.len() {
                assert(all@[j] == gws@[j]);
            }
        }
        assert(item_cols(all_s) == item_cols(items) + 3) by {
            let a1 = all_s.drop_last();
            let a2 = a1.drop_last();
            let a3 = a2.drop_last();
            assert(a3 =~= items);
            assert(all_s.last().1 == 1 && a1.last().1 == 1 && a2.last().1 == 1);
            assert(item_cols(all_s) == item_cols(a1) + 1);
            assert(item_cols(a1) == item_cols(a2) + 1);
            assert(item_cols(a2) == item_cols(a3) + 1);
        }
    }
    let n = all.len();
    let mut col: u16 = 0;
    let mut item_idx: usize = 0;
    let mut skip: u16 = 0;
    let mut i: usize = 0;
    while i < n
        invariant_except_break
            item_idx == 0 && skip == 0,
        invariant
            n == all@.len(),
            n == all_s.len(),
            forall|j: int| 0 <= j < n ==> (#[trigger] all@[j]).0@ == all_s[j].0 && all@[j].1 == all_s[j].1 && all_s[j].1 >= 1,
            forall|q: int| 0 <= q < n ==> #[trigger] all_s[q].1 >= 1,
            item_cols(all_s) <= u16::MAX,
            i <= n,
            col <= start,
            col == item_cols(all_s.take(i as int)),
            locate(all_s, start as int, 0, 0) == locate(all_s, start as int, i as int, col as int),
        ensures
            locate(all_s, start as int, 0, 0) == (item_idx as int, skip as int),
            item_idx < n || (item_idx == 0 && skip == 0),
            skip > 0 ==> item_idx < n && skip < all_s[item_idx as int].1,
        decreases n - i,
    {
        let w = all[i].1;
        proof {
            assert(all_s.take(i + 1).drop_last() =~= all_s.take(i as int));
            lemma_item_cols_prefix(all_s, i + 1);
        }
        if col + w > start {
            item_idx = i;
            skip = start - col;
            break;
        }
        col = col + w;
        i = i + 1;
    }
    let screen_end = run_x + run_len;
    let mut sx = run_x;
    let mut j = item_idx;
    let mut first = true;
    let mut d: Ghost<Seq<Stroke>> = Ghost(Seq::empty());
    let ghost full = window_strokes(all_s, item_idx as int, run_x as int, screen_end as int, run_y as int, skip as int);
    while sx < screen_end
        invariant
            buf.wf(),
            buf.area == area,
            n == all@.len(),
            n == all_s.len(),
            n >= 3,
            n <= 70000,
            forall|q: int| 0 <= q < n ==> (#[trigger] all@[q]).0@ == all_s[q].0 && all@[q].1 == all_s[q].1 && all_s[q].1 >= 1,
            item_cols(all_s) <= u16::MAX,
            run_x <= sx <= screen_end,
            screen_end <= u16::MAX,
            j >= item_idx,
            j - item_idx <= sx - run_x,
            item_idx < n || (item_idx == 0 && skip == 0),
            first ==> j == item_idx,
            skip > 0 ==> skip < all_s[item_idx as int].1,
            buf.view() == put_strokes(v0, area, d@, style),
            d@ + window_strokes(all_s, j as int, sx as int, screen_end as int, run_y as int, if first { skip as int } else { 0 }) == full,
        decreases screen_end - sx,
    {
        proof {
            if first {
                assert(j % n == j) by {
                    if item_idx < n {
                        vstd::arithmetic::div_mod::lemma_small_mod(j as nat, n as nat);
                    }
                }
            }
        }
        let (g, w) = all[j % n];
        let s = if first {
            skip
        } else {
            0
        };
        first = false;
        let ghost rest = window_strokes(all_s, j + 1, sx as int, screen_end as int, run_y as int, 0);
        if s > 0 {
            let room = screen_end - sx;
            let visible = if w - s < room {
                w - s
            } else {
                room
            };
            let ghost sx0 = sx;
            let ghost d0 = d@;
            d = draw_spaces(buf, sx, run_y, visible, style, Ghost(v0), d);
            sx = sx + visible;
            proof {
                assert(d0 + window_strokes(all_s, j as int, sx0 as int, screen_end as int, run_y as int, s as int) == full);
                assert(d@ + window_strokes(all_s, j + 1, sx as int, screen_end as int, run_y as int, 0) =~= full);
            }
        } else if w <= screen_end - sx {
            let ghost sx0 = sx;
            let ghost d0 = d@;
            d = stroke(buf, sx, run_y, g, style, Ghost(v0), d);
            sx = sx + w;
            proof {
                assert(d@ + window_strokes(all_s, j + 1, sx as int, screen_end as int, run_y as int, 0) =~= full);
            }
        } else {
            let ghost d0 = d@;
            let ghost sx0 = sx;
            d = draw_spaces(buf, sx, run_y, screen_end - sx, style, Ghost(v0), d);
            sx = screen_end;
            proof {
                assert(d@ + window_strokes(all_s, j + 1, sx as int, screen_end as int, run_y as int, 0) =~= full);
            }
        }
        j = j + 1;
    }
    proof {
        assert(d@ =~= full);
    }
    d
}

} // verus!

verus! {

proof fn lemma_items_len(items: Seq<(Seq<char>, int)>)
    requires
        forall|k: int| 0 <= k < items.len() ==> (#[trigger] items[k]).1 >= 1,
    ensures
        items.len() <= item_cols(items),
    decreases items.len(),
{
    if items.len() > 0 {
        lemma_items_len(items.drop_last());
    }
}

/// Draw a label on the top or bottom edge of `rect`.
#[verifier::rlimit(40)]
fn draw_h_label(buf: &mut Buffer, rect: Rect, label: &Label, style: &Style)
    requires
        old(buf).wf(),
        label.side is Top || label.side is Bottom,
        label.text@.len() > 0,
        label_fits(rect, label.text@, label.side, label.offset as int),
    ensures
        final(buf).wf(),
        final(buf).area == old(buf).area,
        final(buf).view() == put_strokes(
            old(buf).view(),
            old(buf).area,
            label_strokes(rect, label.text@, label.side, label.align, label.offset as int),
            *style,
        ),
{
    let ghost v0 = buf.view();
    let ghost area = buf.area;
    let ghost gs = grapheme_clusters(label.text@);
    let ghost want = label_strokes(rect, label.text@, label.side, label.align, label.offset as int);
    if rect.width < 3 {
        return;
    }
    let run_len = rect.width - 2;
    let run_x = rect.x + 1;
    let run_y = match label.side {
        Side::Top => rect.y,
        _ => rect.y + rect.height - 1,
    };
    let (gws, cols) = wide_items_of(label.text.as_str());
    let ghost items = wide_enough(gs);
    proof {
        lemma_item_cols_total(gs);
    }
    if cols == 0 {
        return;
    }
    if cols <= run_len {
        let off = match label.align {
            Align::Start => 0,
            Align::End => run_len - cols,
            Align::Center => (run_len - cols) / 2,
        };
        let d = draw_run(buf, &gws, run_x + off, run_y, *style, Ghost(v0), Ghost(Seq::empty()), Ghost(items));
        proof {
            assert(d@ =~= want);
        }
    } else {
        let period = cols + MARQUEE_GAP;
        let start = label.offset % period;
        proof {
            lemma_items_len(items);
        }
        let d = draw_h_window(buf, run_x, run_y, run_len, &gws, start, *style, Ghost(v0), Ghost(items));
        proof {
            assert(d@ == want);
        }
    }
}

/// Draw a label down the left or right edge of `rect`: one width-1 grapheme per row.
#[verifier::rlimit(40)]
fn draw_v_label(buf: &mut Buffer, rect: Rect, label: &Label, style: &Style)
    requires
        old(buf).wf(),
        label.side is Left || label.side is Right,
        label.text@.len() > 0,
        label_fits(rect, label.text@, label.side, label.offset as int),
    ensures
        final(buf).wf(),
        final(buf).area == old(buf).area,
        final(buf).view() == put_strokes(
            old(buf).view(),
            old(buf).area,
            label_strokes(rect, label.text@, label.side, label.align, label.offset as int),
            *style,
        ),
{
    let ghost v0 = buf.view();
    let ghost area = buf.area;
    let ghost gs = grapheme_clusters(label.text@);
    let ghost want = label_strokes(rect, label.text@, label.side, label.align, label.offset as int);
    if rect.height < 3 {
        return;
    }
    let run_len = rect.height - 2;
    let run_y = rect.y + 1;
    let run_x = match label.side {
        Side::Left => rect.x,
        _ => rect.x + rect.width - 1,
    };
    let nr = narrow_of(label.text.as_str());
    let ghost nrs = narrow(gs);
    let count = nr.len() as u16;
    if count == 0 {
        return;
    }
    let mut d: Ghost<Seq<Stroke>> = Ghost(Seq::empty());
    if count <= run_len {
        let label_y = run_y + match label.align {
            Align::Start => 0,
            Align::End => run_len - count,
            Align::Center => (run_len - count) / 2,
        };
        let mut k: usize = 0;
        proof {
            assert(d@ =~= Seq::new(0 as nat, |q: int| (run_x as int, label_y + q, nrs[q])));
        }
        while k < nr.len()
            invariant
                buf.wf(),
                buf.area == area,
                nr@.len() == nrs.len(),
                forall|q: int| 0 <= q < nr@.len() ==> #[trigger] nr@[q]@ == nrs[q],
                count == nr@.len(),
                label_y + count <= run_y + run_len,
                run_y + run_len <= u16::MAX,
                k <= nr@.len(),
                d@ == Seq::new(k as nat, |q: int| (run_x as int, label_y + q, nrs[q])),
                buf.view() == put_strokes(v0, area, d@, *style),
            decreases nr@.len() - k,
        {
            let y = label_y + k as u16;
            d = stroke(buf, run_x, y, nr[k], *style, Ghost(v0), d);
            proof {
                assert(d@ =~= Seq::new((k + 1) as nat, |q: int| (run_x as int, label_y + q, nrs[q])));
            }
            k = k + 1;
        }
        proof {
            assert(d@ =~= want);
        }
    } else {
        let period = count + MARQUEE_GAP;
        let start = label.offset % period;
        let mut rows: Vec<&str> = Vec::new();
        let mut k: usize = 0;
        while k < nr.len()
            invariant
                k <= nr@.len(),
                rows@ == nr@.take(k as int),
            decreases nr@.len() - k,
        {
            rows.push(nr[k]);
            proof {
                assert(rows@ =~= nr@.take(k + 1));
            }
            k = k + 1;
        }
        proof {
            assert(nr@.take(nr@.len() as int) =~= nr@);
            reveal_strlit(" ");
        }
        rows.push(" ");
        rows.push(" ");
        rows.push(" ");
        let ghost vr = nrs + seq![sp(), sp(), sp()];
        proof {
            assert forall|q: int| 0 <= q < rows@.len() implies #[trigger] rows@[q]@ == vr[q] by {
                if q < nr@.len() {
                    assert(rows@[q] == nr@[q]);
                }
            }
        }
        let mut r: u16 = 0;
        proof {
            assert(d@ =~= Seq::new(0 as nat, |q: int| (run_x as int, run_y + q, vr[(start + q) % (period as int)])));
        }
        while r < run_len
            invariant
                buf.wf(),
                buf.area == area,
                rows@.len() == period,
                vr.len() == period,
                forall|q: int| 0 <= q < rows@.len() ==> #[trigger] rows@[q]@ == vr[q],
                period > 0,
                start < period,
                start + run_len <= u16::MAX + 1,
                run_y + run_len <= u16::MAX,
                r <= run_len,
                d@ == Seq::new(r as nat, |q: int| (run_x as int, run_y + q, vr[(start + q) % (period as int)])),
                buf.view() == put_strokes(v0, area, d@, *style),
            decreases run_len - r,
        {
            let slot = ((start + r) % period) as usize;
            d = stroke(buf, run_x, run_y + r, rows[slot], *style, Ghost(v0), d);
            proof {
                assert(d@ =~= Seq::new((r + 1) as nat, |q: int| (run_x as int, run_y + q, vr[(start + q) % (period as int)])));
            }
            r = r + 1;
        }
        proof {
            assert(d@ =~= want);
        }
    }
}

/// Draw `label` over the border of `rect` (the tile's whole outer box), on the run
/// of cells strictly between the two corners of its edge; corners and other edges
/// are untouched (see [`label_strokes`]).
pub fn draw_label(buf: &mut Buffer, rect: Rect, label: &Label, style: &Style)
    requires
        old(buf).wf(),
        label_fits(rect, label.text@, label.side, label.offset as int),
    ensures
        final(buf).wf(),
        final(buf).area == old(buf).area,
        final(buf).view() == put_strokes(
            old(buf).view(),
            old(buf).area,
            label_strokes(rect, label.text@, label.side, label.align, label.offset as int),
            *style,
        ),
{
    if label.text.as_str().is_empty() {
        return;
    }
    match label.side {
        Side::Top | Side::Bottom => draw_h_label(buf, rect, label, style),
        Side::Left | Side::Right => draw_v_label(buf, rect, label, style),
    }
}

} // verus!

verus! {

/// The display columns of `text`, or `None` when they exceed 16 bits.
fn h_cols_bounded(text: &str) -> (r: Option<u16>)
    ensures
        r is None <==> width_total(grapheme_clusters(text@)) > u16::MAX,
        r matches Some(w) ==> w == width_total(grapheme_clusters(text@)),
{
    let gs = graphemes_of(text);
    let ghost all = grapheme_clusters(text@);
    let mut total: usize = 0;
    let mut i: usize = 0;
    while i < gs.len()
        invariant
            gs@.len() == all.len(),
            forall|k: int| 0 <= k < gs@.len() ==> #[trigger] gs@[k]@ == all[k],
            all == grapheme_clusters(text@),
            i <= gs@.len(),
            total <= u16::MAX,
            total == width_total(all.take(i as int)),
        decreases gs@.len() - i,
    {
        proof {
            assert(all.take(i + 1).drop_last() =~= all.take(i as int));
            lemma_width_total_prefix(all, i + 1);
        }
        let w = str_width(gs[i]);
        if w > 0xffff || total + w > 0xffff {
            proof {
                assert(all.take(i + 1).last() == all[i as int]);
                assert(width_total(all.take(i + 1)) == width_total(all.take(i as int)) + display_width(
                    all[i as int],
                ));
            }
            return None;
        }
        total = total + w;
        i = i + 1;
    }
    proof {
        assert(all.take(all.len() as int) =~= all);
    }
    Some(total as u16)
}

/// Whether `label` can be drawn on `rect`: [`label_fits`], computed.
pub fn label_fits_check(rect: Rect, label: &Label) -> (r: bool)
    ensures
        r == label_fits(rect, label.text@, label.side, label.offset as int),
{
    if rect.x as u32 + rect.width as u32 > 0xffff || rect.y as u32 + rect.height as u32 > 0xffff {
        return false;
    }
    match label.side {
        Side::Bottom => {
            if (rect.y as u32) + (rect.height as u32) < 1 {
                return false;
            }
        },
        Side::Right => {
            if (rect.x as u32) + (rect.width as u32) < 1 {
                return false;
            }
        },
        _ => {},
    }
    match label.side {
        Side::Top | Side::Bottom => match h_cols_bounded(label.text.as_str()) {
            None => false,
            Some(w) => !((w as i32) > (rect.width as i32) - 2) || (w as u32) + 3 <= 0xffff,
        },
        Side::Left | Side::Right => {
            let count = narrow_of(label.text.as_str()).len();
            if count > 0xffff - 3 {
                false
            } else if (count as i32) > (rect.height as i32) - 2 && rect.height >= 3 {
                (label.offset as usize) % (count + 3) + (rect.height as usize) - 2 <= 0x10000
            } else {
                true
            }
        },
    }
}

/// Draw `label` as [`draw_label`] does where [`label_fits`] holds, and report whether
/// it did; elsewhere the buffer is left unchanged.
pub fn try_draw_label(buf: &mut Buffer, rect: Rect, label: &Label, style: &Style) -> (drawn: bool)
    requires
        old(buf).wf(),
    ensures
        final(buf).wf(),
        final(buf).area == old(buf).area,
        drawn == label_fits(rect, label.text@, label.side, label.offset as int),
        final(buf).view() == if drawn {
            put_strokes(
                old(buf).view(),
                old(buf).area,
                label_strokes(rect, label.text@, label.side, label.align, label.offset as int),
                *style,
            )
        } else {
            old(buf).view()
        },
{
    if label_fits_check(rect, label) {
        draw_label(buf, rect, label, style);
        true
    } else {
        false
    }
}

/// [`label_period`] where its 16-bit bounds hold: `None` when the text's extent along
/// a horizontal edge, or the period of a label that scrolls, exceeds 16 bits.
pub fn label_period_checked(text: &str, run_len: u16, side: Side) -> (r: Option<Option<u16>>)
    ensures
        r is Some <==> ((side is Top || side is Bottom ==> width_total(grapheme_clusters(text@))
            <= u16::MAX) && (extent_spec(text@, side) > run_len ==> extent_spec(text@, side)
            + MARQUEE_GAP <= u16::MAX)),
        r matches Some(p) ==> p == if extent_spec(text@, side) <= run_len {
            None
        } else {
            Some((extent_spec(text@, side) + MARQUEE_GAP) as u16)
        },
{
    let extent: u16 = match side {
        Side::Top | Side::Bottom => match h_cols_bounded(text) {
            None => return None,
            Some(w) => w,
        },
        Side::Left | Side::Right => narrow_of(text).len() as u16,
    };
    if extent > run_len && extent as u32 + MARQUEE_GAP as u32 > 0xffff {
        return None;
    }
    Some(label_period(text, run_len, side))
}

} // verus!
