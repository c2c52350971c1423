use unicode_segmentation::UnicodeSegmentation;
use unicode_width::UnicodeWidthStr;
use vstd::prelude::*;

use crate::geometry::Rect;
use crate::style::{plain_style, Style};

verus! {

/// The display width, in terminal columns, that the Unicode width tables give a string.
pub uninterp spec fn display_width(s: Seq<char>) -> nat;

/// The extended grapheme clusters of a string, in order.
pub uninterp spec fn grapheme_clusters(s: Seq<char>) -> Seq<Seq<char>>;

/// `UnicodeWidthStr::width` of unicode-width: the number of terminal columns that
/// the Unicode width tables assign to `s`.  Named, not stated: the tables take pages.
#[verifier::external_body]
pub(crate) fn str_width(s: &str) -> (r: usize)
    ensures
        r == display_width(s@),
{
    UnicodeWidthStr::width(s)
}

/// `UnicodeSegmentation::graphemes(s, true)` of unicode-segmentation: the extended
/// grapheme clusters of `s`, in order.  Which clusters they are is named, not stated
/// (the segmentation rules take pages); stated is what the iterator's source shows of
/// every segmentation: it hands out consecutive non-empty slices of `s` from its start
/// to its end, so the clusters, concatenated, give back `s`.
#[verifier::external_body]
pub(crate) fn graphemes_of(s: &str) -> (r: Vec<&str>)
    ensures
        r@.len() == grapheme_clusters(s@).len(),
        forall|i: int| 0 <= i < r@.len() ==> #[trigger] r@[i]@ == grapheme_clusters(s@)[i],
        r@.map_values(|g: &str| g@).flatten() == s@,
        forall|i: int| 0 <= i < r@.len() ==> (#[trigger] r@[i])@.len() > 0,
{
    s.graphemes(true).collect()
}

/// The grapheme clusters of a string, concatenated, give back the string.
pub(crate) proof fn lemma_clusters_flatten(s: &str, r: Vec<&str>)
    requires
        r@.len() == grapheme_clusters(s@).len(),
        forall|i: int| 0 <= i < r@.len() ==> #[trigger] r@[i]@ == grapheme_clusters(s@)[i],
        r@.map_values(|g: &str| g@).flatten() == s@,
    ensures
        grapheme_clusters(s@).flatten() == s@,
{
    assert(r@.map_values(|g: &str| g@) =~= grapheme_clusters(s@));
}

/// `String::push` of std: appends the character `c` to `s`.
#[verifier::external_body]
pub(crate) fn append_char(s: &mut String, c: char)
    ensures
        final(s)@ == old(s)@.push(c),
{
    s.push(c)
}

/// What a cell shows: its grapheme cluster and its style.
pub type CellView = (Seq<char>, Style);

/// The single space, the symbol of a blank cell.
pub open spec fn space() -> Seq<char> {
    seq![' ']
}

/// A blank cell: a space in the plain style.
pub open spec fn blank() -> CellView {
    (space(), plain_style())
}

/// A single terminal cell holding one grapheme cluster and its style.  An empty
/// symbol marks a continuation cell: the right half of a 2-wide grapheme.
#[derive(Debug)]
pub struct Cell {
    pub symbol: String,
    pub style: Style,
}

impl View for Cell {
    type V = CellView;

    open spec fn view(&self) -> CellView {
        (self.symbol@, self.style)
    }
}

impl Clone for Cell {
    fn clone(&self) -> (r: Self)
        ensures
            r@ == self@,
    {
        Cell { symbol: self.symbol.clone(), style: self.style }
    }
}

impl PartialEq for Cell {
    fn eq(&self, other: &Self) -> (r: bool) {
        self.symbol == other.symbol && self.style == other.style
    }
}

impl vstd::std_specs::cmp::PartialEqSpecImpl for Cell {
    open spec fn obeys_eq_spec() -> bool {
        true
    }

    open spec fn eq_spec(&self, other: &Self) -> bool {
        self.symbol@ == other.symbol@ && self.style == other.style
    }
}

impl Eq for Cell {

}

impl Default for Cell {
    fn default() -> (r: Self)
        ensures
            r@ == blank(),
    {
        let s = " ";
        proof {
            reveal_strlit(" ");
        }
        Cell { symbol: s.to_owned(), style: Style { fg: crate::style::Color::Reset, bg: crate::style::Color::Reset, mods: crate::style::Modifier { bits: 0 } } }
    }
}

impl Cell {
    /// A cell showing `symbol` in `style`.
    pub fn new(symbol: &str, style: Style) -> (r: Self)
        ensures
            r@ == (symbol@, style),
    {
        Cell { symbol: symbol.to_owned(), style }
    }

    /// `true` when this cell is the right-hand placeholder of a 2-wide grapheme.
    pub fn is_continuation(&self) -> (r: bool)
        ensures
            r == (self.symbol@.len() == 0),
    {
        self.symbol.as_str().unicode_len() == 0
    }
}

/// The position in row-major order of cell `(x, y)` of `area`.
pub open spec fn cell_index(area: Rect, x: int, y: int) -> int {
    (y - area.y) * area.width + (x - area.x)
}

/// The cell at row-major position `i` of `area`.
pub open spec fn index_cell(area: Rect, i: int) -> (int, int) {
    (area.x + i % (area.width as int), area.y + i / (area.width as int))
}

/// Blank the wide-grapheme partner of the cell at `(x, y)`, if it has one: the
/// left half when `(x, y)` is a continuation, the continuation to the right when
/// `(x, y)` holds a 2-wide grapheme.
pub open spec fn unlink_spec(v: Seq<CellView>, area: Rect, x: int, y: int) -> Seq<CellView> {
    let i = cell_index(area, x, y);
    if v[i].0.len() == 0 {
        if x > area.x && display_width(v[i - 1].0) == 2 {
            v.update(i - 1, blank())
        } else {
            v
        }
    } else if display_width(v[i].0) == 2 && x + 1 < area.right_spec() {
        v.update(i + 1, blank())
    } else {
        v
    }
}

/// The cells after writing grapheme `g` at `(x, y)` in `style`, and the column
/// after it: nothing off the area; a zero-width grapheme joins the cell to its
/// left; a grapheme that would spill past the right edge leaves a space instead;
/// otherwise the grapheme is written (blanking any wide partner it breaks), and a
/// 2-wide grapheme makes the next cell its continuation.
pub open spec fn put_grapheme(
    v: Seq<CellView>,
    area: Rect,
    x: int,
    y: int,
    g: Seq<char>,
    style: Style,
) -> (Seq<CellView>, int) {
    let i = cell_index(area, x, y);
    let w = display_width(g);
    if x < area.x || x >= area.right_spec() || y >= area.bottom_spec() || y < area.y {
        (v, x)
    } else if w == 0 {
        if x > area.x {
            (v.update(i - 1, (v[i - 1].0 + g, v[i - 1].1)), x)
        } else {
            (v, x)
        }
    } else if x + w > area.right_spec() {
        (v.update(i, (space(), style)), x + 1)
    } else {
        let v2 = unlink_spec(v, area, x, y).update(i, (g, style));
        if w == 2 && x + 1 < area.right_spec() {
            (unlink_spec(v2, area, x + 1, y).update(i + 1, (Seq::empty(), style)), x + w)
        } else {
            (v2, x + w)
        }
    }
}

/// The cells after writing the graphemes `gs` left to right from `(x, y)`, stopping
/// at the right edge, and the column after the last one written.
pub open spec fn put_graphemes(
    v: Seq<CellView>,
    area: Rect,
    x: int,
    y: int,
    gs: Seq<Seq<char>>,
    style: Style,
) -> (Seq<CellView>, int)
    decreases gs.len(),
{
    if gs.len() == 0 {
        (v, x)
    } else {
        let (v1, c1) = put_graphemes(v, area, x, y, gs.drop_last(), style);
        if c1 >= area.right_spec() {
            (v1, c1)
        } else {
            put_grapheme(v1, area, c1, y, gs.last(), style)
        }
    }
}

/// Once the column has reached the right edge, later graphemes change nothing.
pub proof fn lemma_put_graphemes_stuck(
    v: Seq<CellView>,
    area: Rect,
    x: int,
    y: int,
    gs: Seq<Seq<char>>,
    style: Style,
    k: int,
)
    requires
        0 <= k <= gs.len(),
        put_graphemes(v, area, x, y, gs.take(k), style).1 >= area.right_spec(),
    ensures
        put_graphemes(v, area, x, y, gs, style) == put_graphemes(v, area, x, y, gs.take(k), style),
    decreases gs.len() - k,
{
    if k < gs.len() {
        assert(gs.take(k + 1).drop_last() =~= gs.take(k));
        lemma_put_graphemes_stuck(v, area, x, y, gs, style, k + 1);
    } else {
        assert(gs.take(k) =~= gs);
    }
}

/// The cell at `(x, y)` of `b` shows something other than in `prev` and is not a
/// continuation.
pub open spec fn changed_at(b: &Buffer, prev: &Buffer, x: int, y: int) -> bool {
    b.cell(x, y).0.len() != 0 && b.cell(x, y) != prev.cell(x, y)
}

/// The changed positions among the first `k` cells of `r`, in row-major order.
pub open spec fn changed_upto(b: &Buffer, prev: &Buffer, r: Rect, k: int) -> Seq<(u16, u16)>
    decreases k,
{
    if k <= 0 || r.width == 0 {
        Seq::empty()
    } else {
        let before = changed_upto(b, prev, r, k - 1);
        let (x, y) = index_cell(r, k - 1);
        if changed_at(b, prev, x, y) {
            before.push((x as u16, y as u16))
        } else {
            before
        }
    }
}

/// The changed positions of `r`, in row-major order.
pub open spec fn diff_positions(b: &Buffer, prev: &Buffer, r: Rect) -> Seq<(u16, u16)> {
    changed_upto(b, prev, r, r.area_spec() as int)
}

/// Distinct cells of an area have distinct row-major positions.
proof fn lemma_cell_index_injective(area: Rect, x1: int, y1: int, x2: int, y2: int)
    requires
        area.contains_spec(x1, y1),
        area.contains_spec(x2, y2),
        cell_index(area, x1, y1) == cell_index(area, x2, y2),
    ensures
        x1 == x2,
        y1 == y2,
{
    let w = area.width as int;
    let (a1, b1, a2, b2) = (x1 - area.x, y1 - area.y, x2 - area.x, y2 - area.y);
    if b1 < b2 {
        assert(b1 * w + w <= b2 * w) by (nonlinear_arith)
            requires
                b1 < b2,
                w > 0,
        ;
    } else if b2 < b1 {
        assert(b2 * w + w <= b1 * w) by (nonlinear_arith)
            requires
                b2 < b1,
                w > 0,
        ;
    }
}

/// The row-major position of a cell of an area lies below the area's size.
pub proof fn lemma_cell_index_bound(area: Rect, x: int, y: int)
    requires
        area.contains_spec(x, y),
    ensures
        0 <= cell_index(area, x, y) < area.area_spec(),
{
    assert(0 <= (y - area.y) * area.width + (x - area.x) < area.width * area.height) by (
    nonlinear_arith)
        requires
            0 <= x - area.x < area.width,
            0 <= y - area.y < area.height,
    ;
}

/// The row-major position of `(x, y)` in `r` names `(x, y)` back.
proof fn lemma_row_major(r: Rect, x: int, y: int)
    requires
        r.contains_spec(x, y),
    ensures
        index_cell(r, (y - r.y) * r.width + (x - r.x)) == (x, y),
{
    let w = r.width as int;
    vstd::arithmetic::div_mod::lemma_fundamental_div_mod_converse_mod((y - r.y) * w + (x - r.x), w, y - r.y, x - r.x);
    vstd::arithmetic::div_mod::lemma_fundamental_div_mod_converse_div((y - r.y) * w + (x - r.x), w, y - r.y, x - r.x);
}

/// The intersection of two rectangles lies inside the first.
proof fn lemma_intersection_inside(a: Rect, b: Rect)
    ensures
        forall|x: int, y: int|
            a.intersection_spec(b).contains_spec(x, y) ==> a.contains_spec(x, y) && b.contains_spec(x, y),
        a.intersection_spec(b).y + a.intersection_spec(b).height == a.intersection_spec(b).bottom_spec(),
        a.intersection_spec(b).x + a.intersection_spec(b).width == a.intersection_spec(b).right_spec(),
{
}

/// Intersection does not depend on the order of its operands.
proof fn lemma_intersection_commutes(a: Rect, b: Rect)
    ensures
        a.intersection_spec(b) == b.intersection_spec(a),
{
}

/// A 2-D grid of cells that widgets draw into, row-major over `area`.
pub struct Buffer {
    pub area: Rect,
    pub cells: Vec<Cell>,
}

/// The row-major position of `(x, y)` in `area`, computed.
fn idx_of(area: Rect, x: u16, y: u16) -> (r: usize)
    requires
        area.contains_spec(x as int, y as int),
    ensures
        r == cell_index(area, x as int, y as int),
        r < area.area_spec(),
{
    proof {
        assert((y - area.y) * area.width + (x - area.x) < area.width * area.height) by (
        nonlinear_arith)
            requires
                0 <= x - area.x < area.width,
                0 <= y - area.y < area.height,
        ;
        assert(area.width * area.height <= 65535 * 65535) by (nonlinear_arith)
            requires
                area.width <= 65535,
                area.height <= 65535,
        ;
        assert((y - area.y) * area.width <= area.width * area.height) by (nonlinear_arith)
            requires
                0 <= y - area.y < area.height,
                area.width >= 0,
        ;
    }
    let row = (y - area.y) as usize;
    let col = (x - area.x) as usize;
    row * area.width as usize + col
}

/// `count` blank cells.
fn blank_cells(count: usize) -> (r: Vec<Cell>)
    ensures
        r@.len() == count,
        forall|i: int| 0 <= i < count ==> #[trigger] r@[i]@ == blank(),
{
    let mut v: Vec<Cell> = Vec::new();
    let mut i: usize = 0;
    while i < count
        invariant
            i <= count,
            v@.len() == i,
            forall|k: int| 0 <= k < i ==> #[trigger] v@[k]@ == blank(),
        decreases count - i,
    {
        v.push(Cell::default());
        i = i + 1;
    }
    v
}

impl Buffer {
    /// The cells, row-major.
    pub open spec fn view(&self) -> Seq<CellView> {
        self.cells@.map_values(|c: Cell| c@)
    }

    /// The cell count matches the area.
    pub open spec fn wf(&self) -> bool {
        self.view().len() == self.area.area_spec()
    }

    /// What the cell at `(x, y)` shows.
    pub open spec fn cell(&self, x: int, y: int) -> CellView {
        self.view()[cell_index(self.area, x, y)]
    }

    /// A buffer covering `area`, every cell blank.
    pub fn empty(area: Rect) -> (b: Self)
        ensures
            b.wf(),
            b.area == area,
            forall|i: int| 0 <= i < b.view().len() ==> #[trigger] b.view()[i] == blank(),
    {
        let len = area.area() as usize;
        Buffer { area, cells: blank_cells(len) }
    }

    /// The cell at `(x, y)`.
    pub fn get(&self, x: u16, y: u16) -> (r: &Cell)
        requires
            self.wf(),
            self.area.contains_spec(x as int, y as int),
        ensures
            r@ == self.cell(x as int, y as int),
    {
        let i = idx_of(self.area, x, y);
        &self.cells[i]
    }

    /// Mutable access to the cell at `(x, y)`.
    pub fn get_mut(&mut self, x: u16, y: u16) -> (r: &mut Cell)
        requires
            old(self).wf(),
            old(self).area.contains_spec(x as int, y as int),
        ensures
            r@ == old(self).cell(x as int, y as int),
            final(self).area == old(self).area,
            final(self).view() == old(self).view().update(
                cell_index(old(self).area, x as int, y as int),
                final(r)@,
            ),
    {
        let i = idx_of(self.area, x, y);
        &mut self.cells[i]
    }

    /// Blank any wide-grapheme partner of the cell at `(x, y)` before it is overwritten.
    fn unlink_wide_at(&mut self, x: u16, y: u16)
        requires
            old(self).wf(),
            old(self).area.contains_spec(x as int, y as int),
        ensures
            final(self).wf(),
            final(self).area == old(self).area,
            final(self).view() == unlink_spec(old(self).view(), old(self).area, x as int, y as int),
    {
        let i = idx_of(self.area, x, y);
        let ghost v = self.view();
        if self.cells[i].is_continuation() {
            if x > self.area.x {
                let left = idx_of(self.area, x - 1, y);
                let w = str_width(self.cells[left].symbol.as_str());
                if w == 2 {
                    self.cells.set(left, Cell::default());
                    proof {
                        assert(self.view() =~= v.update(i - 1, blank()));
                    }
                }
            }
        } else {
            let w = str_width(self.cells[i].symbol.as_str());
            if w == 2 {
                let rx = x + 1;
                if rx < self.area.right() {
                    let right = idx_of(self.area, rx, y);
                    self.cells.set(right, Cell::default());
                    proof {
                        assert(self.view() =~= v.update(i + 1, blank()));
                    }
                }
            }
        }
    }

    /// Write the grapheme cluster `g` at `(x, y)` in `style` and return the column
    /// after it (see [`put_grapheme`]).
    pub fn set_grapheme(&mut self, x: u16, y: u16, g: &str, style: Style) -> (r: u16)
        requires
            old(self).wf(),
        ensures
            final(self).wf(),
            final(self).area == old(self).area,
            (final(self).view(), r as int) == put_grapheme(
                old(self).view(),
                old(self).area,
                x as int,
                y as int,
                g@,
                style,
            ),
    {
        let ghost v0 = self.view();
        if x < self.area.x || x >= self.area.right() || y >= self.area.bottom() || y < self.area.y {
            return x;
        }
        let w = str_width(g);
        if w == 0 {
            if x > self.area.x {
                let i = idx_of(self.area, x - 1, y);
                self.cells[i].symbol.append(g);
                proof {
                    assert(self.view() =~= v0.update(i as int, (v0[i as int].0 + g@, v0[i as int].1)));
                }
            }
            return x;
        }
        if w > (self.area.right() - x) as usize {
            let i = idx_of(self.area, x, y);
            let sp = " ";
            proof {
                reveal_strlit(" ");
                assert(sp@ == space());
            }
            self.cells.set(i, Cell { symbol: sp.to_owned(), style });
            proof {
                assert(self.view() =~= v0.update(i as int, (space(), style)));
            }
            return x + 1;
        }
        self.unlink_wide_at(x, y);
        let i = idx_of(self.area, x, y);
        let ghost v1 = self.view();
        self.cells.set(i, Cell { symbol: g.to_owned(), style });
        proof {
            assert(self.view() =~= v1.update(i as int, (g@, style)));
        }
        if w == 2 {
            if x + 1 < self.area.right() {
                self.unlink_wide_at(x + 1, y);
                let j = idx_of(self.area, x + 1, y);
                let ghost v2 = self.view();
                self.cells.set(j, Cell { symbol: String::new(), style });
                proof {
                    assert(self.view() =~= v2.update(j as int, (Seq::empty(), style)));
                }
            }
        }
        x + w as u16
    }

    /// Write `s` left to right from `(x, y)` grapheme by grapheme, clipping at the
    /// right edge; return the column after the last grapheme written.
    pub fn set_string(&mut self, x: u16, y: u16, s: &str, style: Style) -> (r: u16)
        requires
            old(self).wf(),
        ensures
            final(self).wf(),
            final(self).area == old(self).area,
            (final(self).view(), r as int) == put_graphemes(
                old(self).view(),
                old(self).area,
                x as int,
                y as int,
                grapheme_clusters(s@),
                style,
            ),
    {
        let gs = graphemes_of(s);
        let ghost all = grapheme_clusters(s@);
        let ghost v0 = self.view();
        let ghost area = self.area;
        let mut cx = x;
        let mut k: usize = 0;
        proof {
            assert(all.take(all.len() as int) =~= all);
        }
        while k < gs.len()
            invariant
                self.wf(),
                self.area == area,
                gs@.len() == all.len(),
                all.take(all.len() as int) == all,
                forall|i: int| 0 <= i < gs@.len() ==> #[trigger] gs@[i]@ == all[i],
                k <= gs@.len(),
                (self.view(), cx as int) == put_graphemes(v0, area, x as int, y as int, all.take(k as int), style),
            ensures
                (self.view(), cx as int) == put_graphemes(v0, area, x as int, y as int, all, style),
            decreases gs@.len() - k,
        {
            if cx >= self.area.right() {
                proof {
                    lemma_put_graphemes_stuck(v0, area, x as int, y as int, all, style, k as int);
                }
                break;
            }
            proof {
                assert(all.take(k + 1).drop_last() =~= all.take(k as int));
            }
            cx = self.set_grapheme(cx, y, gs[k], style);
            k = k + 1;
        }
        cx
    }

    /// Reset every cell to blank.
    pub fn reset(&mut self)
        requires
            old(self).wf(),
        ensures
            final(self).wf(),
            final(self).area == old(self).area,
            forall|i: int| 0 <= i < final(self).view().len() ==> #[trigger] final(self).view()[i] == blank(),
    {
        let n = self.cells.len();
        let mut i: usize = 0;
        while i < n
            invariant
                n == self.cells@.len(),
                self.wf(),
                self.area == old(self).area,
                i <= n,
                forall|k: int| 0 <= k < i ==> #[trigger] self.view()[k] == blank(),
            decreases n - i,
        {
            let ghost v = self.view();
            self.cells.set(i, Cell::default());
            proof {
                assert(self.view() =~= v.update(i as int, blank()));
            }
            i = i + 1;
        }
    }

    /// Reallocate for a new `area`, every cell blank.
    pub fn resize(&mut self, area: Rect)
        ensures
            final(self).wf(),
            final(self).area == area,
            forall|i: int| 0 <= i < final(self).view().len() ==> #[trigger] final(self).view()[i] == blank(),
    {
        self.area = area;
        let len = area.area() as usize;
        self.cells = blank_cells(len);
    }

    /// Fill `rect`, clipped to the buffer's area, with copies of `cell`.
    pub fn fill(&mut self, rect: Rect, cell: Cell)
        requires
            old(self).wf(),
        ensures
            final(self).wf(),
            final(self).area == old(self).area,
            forall|x: int, y: int|
                #![trigger final(self).cell(x, y)]
                old(self).area.contains_spec(x, y) ==> final(self).cell(x, y) == if old(
                    self,
                ).area.intersection_spec(rect).contains_spec(x, y) {
                    cell@
                } else {
                    old(self).cell(x, y)
                },
    {
        let r = self.area.intersection(rect);
        let ghost area = self.area;
        let ghost v0 = self.view();
        proof {
            lemma_intersection_inside(area, rect);
        }
        let mut row = r.y;
        while row < r.bottom()
            invariant
                self.wf(),
                self.area == area,
                r == area.intersection_spec(rect),
                r.y <= row <= r.bottom_spec(),
                r.y + r.height == r.bottom_spec(),
                forall|x: int, y: int|
                    r.contains_spec(x, y) ==> area.contains_spec(x, y),
                forall|x: int, y: int|
                    #![trigger self.cell(x, y)]
                    area.contains_spec(x, y) ==> self.cell(x, y) == if r.contains_spec(x, y) && y
                        < row {
                        cell@
                    } else {
                        v0[cell_index(area, x, y)]
                    },
            decreases r.bottom_spec() - row,
        {
            let mut col = r.x;
            while col < r.right()
                invariant
                    self.wf(),
                    self.area == area,
                    r == area.intersection_spec(rect),
                    r.y <= row < r.bottom_spec(),
                    r.x <= col <= r.right_spec(),
                    forall|x: int, y: int|
                        r.contains_spec(x, y) ==> area.contains_spec(x, y),
                    forall|x: int, y: int|
                        #![trigger self.cell(x, y)]
                        area.contains_spec(x, y) ==> self.cell(x, y) == if r.contains_spec(x, y)
                            && (y < row || (y == row && x < col)) {
                            cell@
                        } else {
                            v0[cell_index(area, x, y)]
                        },
                decreases r.right_spec() - col,
            {
                let i = idx_of(self.area, col, row);
                let ghost v = self.view();
                proof {
                    assert forall|x: int, y: int| area.contains_spec(x, y) implies #[trigger] v[cell_index(area, x, y)]
                        == if r.contains_spec(x, y) && (y < row || (y == row && x < col)) {
                        cell@
                    } else {
                        v0[cell_index(area, x, y)]
                    } by {
                        assert(self.cell(x, y) == v[cell_index(area, x, y)]);
                    }
                }
                self.cells.set(i, cell.clone());
                proof {
                    assert(self.view() =~= v.update(i as int, cell@));
                    assert forall|x: int, y: int| area.contains_spec(x, y) implies #[trigger] self.cell(x, y)
                        == if r.contains_spec(x, y) && (y < row || (y == row && x < col + 1)) {
                        cell@
                    } else {
                        v0[cell_index(area, x, y)]
                    } by {
                        lemma_cell_index_bound(area, x, y);
                        if x != col || y != row {
                            if cell_index(area, x, y) == i {
                                lemma_cell_index_injective(area, x, y, col as int, row as int);
                            }
                            assert(self.cell(x, y) == v[cell_index(area, x, y)]);
                        }
                    }
                }
                col = col + 1;
            }
            row = row + 1;
        }
    }

    /// The cells that differ from `prev` over the two buffers' common area, in
    /// row-major order, with their positions; continuation cells are left out.
    pub fn diff<'a>(&'a self, prev: &'a Buffer) -> (out: Vec<(u16, u16, &'a Cell)>)
        requires
            self.wf(),
            prev.wf(),
        ensures
            out@.len() == diff_positions(self, prev, self.area.intersection_spec(prev.area)).len(),
            forall|k: int|
                0 <= k < out@.len() ==> {
                    let (x, y, c) = #[trigger] out@[k];
                    &&& (x, y) == diff_positions(self, prev, self.area.intersection_spec(prev.area))[k]
                    &&& c@ == self.cell(x as int, y as int)
                },
    {
        let mut out: Vec<(u16, u16, &'a Cell)> = Vec::new();
        let area = self.area.intersection(prev.area);
        proof {
            lemma_intersection_inside(self.area, prev.area);
            lemma_intersection_inside(prev.area, self.area);
            lemma_intersection_commutes(self.area, prev.area);
        }
        let mut row = area.y;
        while row < area.bottom()
            invariant
                self.wf(),
                prev.wf(),
                area == self.area.intersection_spec(prev.area),
                area.y <= row <= area.bottom_spec(),
                forall|x: int, y: int|
                    area.contains_spec(x, y) ==> self.area.contains_spec(x, y) && prev.area.contains_spec(x, y),
                out@.len() == changed_upto(self, prev, area, (row - area.y) * area.width).len(),
                forall|k: int|
                    0 <= k < out@.len() ==> {
                        let (x, y, c) = #[trigger] out@[k];
                        &&& (x, y) == changed_upto(self, prev, area, (row - area.y) * area.width)[k]
                        &&& c@ == self.cell(x as int, y as int)
                    },
            decreases area.bottom_spec() - row,
        {
            let mut col = area.x;
            while col < area.right()
                invariant
                    self.wf(),
                    prev.wf(),
                    area == self.area.intersection_spec(prev.area),
                    area.y <= row < area.bottom_spec(),
                    area.x <= col <= area.right_spec(),
                    forall|x: int, y: int|
                        area.contains_spec(x, y) ==> self.area.contains_spec(x, y) && prev.area.contains_spec(x, y),
                    out@.len() == changed_upto(self, prev, area, (row - area.y) * area.width + (col - area.x)).len(),
                    forall|k: int|
                        0 <= k < out@.len() ==> {
                            let (x, y, c) = #[trigger] out@[k];
                            &&& (x, y) == changed_upto(self, prev, area, (row - area.y) * area.width + (col - area.x))[k]
                            &&& c@ == self.cell(x as int, y as int)
                        },
                decreases area.right_spec() - col,
            {
                let ghost k = (row - area.y) * area.width + (col - area.x);
                proof {
                    lemma_row_major(area, col as int, row as int);
                }
                let cell = self.get(col, row);
                if !cell.is_continuation() {
                    let old_cell = prev.get(col, row);
                    if *cell != *old_cell {
                        out.push((col, row, cell));
                    }
                }
                col = col + 1;
            }
            proof {
                assert((row + 1 - area.y) * area.width == (row - area.y) * area.width + area.width)
                    by (nonlinear_arith);
            }
            row = row + 1;
        }
        proof {
            assert((area.bottom_spec() - area.y) * area.width == area.width * area.height) by (
            nonlinear_arith)
                requires
                    area.bottom_spec() - area.y == area.height,
            ;
        }
        out
    }

    /// Overwrite the cell at `(x, y)` with `cell`, first blanking any wide-grapheme
    /// partner of what was there.
    pub fn set(&mut self, x: u16, y: u16, cell: Cell)
        requires
            old(self).wf(),
            old(self).area.contains_spec(x as int, y as int),
        ensures
            final(self).wf(),
            final(self).area == old(self).area,
            final(self).view() == unlink_spec(
                old(self).view(),
                old(self).area,
                x as int,
                y as int,
            ).update(cell_index(old(self).area, x as int, y as int), cell@),
    {
        self.unlink_wide_at(x, y);
        let i = idx_of(self.area, x, y);
        let ghost v = self.view();
        self.cells.set(i, cell);
        proof {
            assert(self.view() =~= v.update(i as int, cell@));
        }
    }
}


/// What cell `(x, y)` shows after the `src` rectangle of a buffer `from` (covering
/// `farea`) is copied with its top-left corner at `(dx, dy)`: the copied cell where
/// the copy reaches a cell of `from`, the previous cell `prev` elsewhere.
pub open spec fn blit_cell(
    prev: CellView,
    from: Seq<CellView>,
    farea: Rect,
    src: Rect,
    dx: int,
    dy: int,
    x: int,
    y: int,
) -> CellView {
    let sx = src.x + (x - dx);
    let sy = src.y + (y - dy);
    if dx <= x < dx + src.width && dy <= y < dy + src.height && farea.contains_spec(sx, sy) {
        from[cell_index(farea, sx, sy)]
    } else {
        prev
    }
}

impl Buffer {
    /// Copy the `src` rectangle of `from` into this buffer with its top-left corner
    /// at `(dx, dy)`, cell by cell; what falls outside either buffer is skipped.
    pub fn blit(&mut self, from: &Buffer, src: Rect, dx: u16, dy: u16)
        requires
            old(self).wf(),
            from.wf(),
        ensures
            final(self).wf(),
            final(self).area == old(self).area,
            forall|x: int, y: int|
                old(self).area.contains_spec(x, y) ==> #[trigger] final(self).cell(x, y) == blit_cell(
                    old(self).cell(x, y),
                    from.view(),
                    from.area,
                    src,
                    dx as int,
                    dy as int,
                    x,
                    y,
                ),
    {
        let ghost b0 = *self;
        let mut r: u16 = 0;
        while r < src.height
            invariant
                self.wf(),
                from.wf(),
                self.area == b0.area,
                r <= src.height,
                forall|x: int, y: int|
                    b0.area.contains_spec(x, y) ==> #[trigger] self.cell(x, y) == if dy <= y < dy + r {
                        blit_cell(b0.cell(x, y), from.view(), from.area, src, dx as int, dy as int, x, y)
                    } else {
                        b0.cell(x, y)
                    },
            decreases src.height - r,
        {
            let mut c: u16 = 0;
            while c < src.width
                invariant
                    self.wf(),
                    from.wf(),
                    self.area == b0.area,
                    r < src.height,
                    c <= src.width,
                    forall|x: int, y: int|
                        b0.area.contains_spec(x, y) ==> #[trigger] self.cell(x, y) == if (dy <= y < dy
                            + r) || (y == dy + r && dx <= x < dx + c) {
                            blit_cell(
                                b0.cell(x, y),
                                from.view(),
                                from.area,
                                src,
                                dx as int,
                                dy as int,
                                x,
                                y,
                            )
                        } else {
                            b0.cell(x, y)
                        },
                decreases src.width - c,
            {
                let ghost s1 = *self;
                let sx: u32 = src.x as u32 + c as u32;
                let sy: u32 = src.y as u32 + r as u32;
                let tx: u32 = dx as u32 + c as u32;
                let ty: u32 = dy as u32 + r as u32;
                if sx <= 0xffff && sy <= 0xffff && tx <= 0xffff && ty <= 0xffff {
                    if from.area.contains(sx as u16, sy as u16) && self.area.contains(
                        tx as u16,
                        ty as u16,
                    ) {
                        let cell = from.get(sx as u16, sy as u16).clone();
                        let i = idx_of(self.area, tx as u16, ty as u16);
                        let ghost v = self.view();
                        self.cells.set(i, cell);
                        proof {
                            assert(self.view() =~= v.update(i as int, cell@));
                            assert forall|x: int, y: int|
                                b0.area.contains_spec(x, y) && (x != tx || y != ty) implies
                                #[trigger] self.cell(x, y) == v[cell_index(b0.area, x, y)] by {
                                if cell_index(b0.area, x, y) == i {
                                    lemma_cell_index_injective(b0.area, x, y, tx as int, ty as int);
                                }
                                lemma_cell_index_bound(b0.area, x, y);
                            }
                        }
                    }
                }
                proof {
                    assert forall|x: int, y: int| b0.area.contains_spec(x, y) implies #[trigger] self.cell(x, y) == if (dy <= y < dy
                            + r) || (y == dy + r && dx <= x < dx + c + 1) {
                            blit_cell(b0.cell(x, y), from.view(), from.area, src, dx as int, dy as int, x, y)
                        } else {
                            b0.cell(x, y)
                        } by {
                        assert(s1.cell(x, y) == if (dy <= y < dy + r) || (y == dy + r && dx <= x < dx + c) {
                            blit_cell(b0.cell(x, y), from.view(), from.area, src, dx as int, dy as int, x, y)
                        } else {
                            b0.cell(x, y)
                        });
                    }
                }
                c = c + 1;
            }
            r = r + 1;
        }
    }
}

impl Buffer {
    /// Write the character `ch` at `(x, y)` in `style`, as [`Buffer::set_grapheme`] does
    /// for the one-character string.
    pub fn set_char(&mut self, x: u16, y: u16, ch: char, style: Style)
        requires
            old(self).wf(),
        ensures
            final(self).wf(),
            final(self).area == old(self).area,
            final(self).view() == put_grapheme(old(self).view(), old(self).area, x as int, y as int, seq![ch], style).0,
    {
        let mut s = String::new();
        append_char(&mut s, ch);
        proof {
            assert(s@ =~= seq![ch]);
        }
        let _ = self.set_grapheme(x, y, s.as_str(), style);
    }
}

} // verus!
