use vstd::prelude::*;

verus! {

/// A rectangle in terminal cell coordinates: origin at the top-left, x grows
/// rightward, y grows downward, all values in cells.
#[derive(Debug, Clone, Copy, PartialEq, Eq, Structural, Hash)]
pub struct Rect {
    /// Column of the left edge (inclusive).
    pub x: u16,
    /// Row of the top edge (inclusive).
    pub y: u16,
    /// Number of columns.
    pub width: u16,
    /// Number of rows.
    pub height: u16,
}

/// `a + b`, saturated at `u16::MAX`.
pub open spec fn sat_add(a: u16, b: u16) -> u16 {
    if a + b > u16::MAX {
        u16::MAX
    } else {
        (a + b) as u16
    }
}

/// `a - b`, saturated at zero.
pub open spec fn sat_sub(a: u16, b: u16) -> u16 {
    if a < b {
        0
    } else {
        (a - b) as u16
    }
}

pub open spec fn max16(a: u16, b: u16) -> u16 {
    if a >= b {
        a
    } else {
        b
    }
}

pub open spec fn min16(a: u16, b: u16) -> u16 {
    if a <= b {
        a
    } else {
        b
    }
}

/// The empty rectangle at the origin.
pub open spec fn zero_rect() -> Rect {
    Rect { x: 0, y: 0, width: 0, height: 0 }
}

impl Default for Rect {
    fn default() -> (r: Self)
        ensures
            r == zero_rect(),
    {
        Rect { x: 0, y: 0, width: 0, height: 0 }
    }
}

impl Rect {
    /// Exclusive right bound (saturating).
    pub open spec fn right_spec(self) -> u16 {
        sat_add(self.x, self.width)
    }

    /// Exclusive bottom bound (saturating).
    pub open spec fn bottom_spec(self) -> u16 {
        sat_add(self.y, self.height)
    }

    pub open spec fn is_empty_spec(self) -> bool {
        self.width == 0 || self.height == 0
    }

    pub open spec fn contains_spec(self, x: int, y: int) -> bool {
        self.x <= x < self.right_spec() && self.y <= y < self.bottom_spec()
    }

    pub open spec fn area_spec(self) -> nat {
        (self.width as nat) * (self.height as nat)
    }

    /// Number of cells on the clockwise ring; the whole area for rects thinner than 2.
    pub open spec fn border_len_spec(self) -> nat {
        if self.width < 2 || self.height < 2 {
            self.area_spec()
        } else {
            (2 * (self.width + self.height) - 4) as nat
        }
    }

    /// The `k`-th cell of the clockwise border walk (top edge left→right, right edge
    /// top→bottom, bottom edge right→left, left edge bottom→top); for a rect thinner
    /// than 2 the `k`-th cell of its straight run in row-major order.
    pub open spec fn border_cell_at(self, k: int) -> (int, int) {
        let w = self.width as int;
        let h = self.height as int;
        let x0 = self.x as int;
        let y0 = self.y as int;
        if w < 2 || h < 2 {
            (x0 + k % w, y0 + k / w)
        } else if k < w {
            (x0 + k, y0)
        } else if k < w + h - 1 {
            (x0 + w - 1, y0 + (k - w + 1))
        } else if k < 2 * w + h - 2 {
            (x0 + w - 1 - (k - (w + h - 2)), y0 + h - 1)
        } else {
            (x0, y0 + h - 1 - (k - (2 * w + h - 3)))
        }
    }

    /// The cells that lie on the border ring, for a rect that fits the coordinate space.
    pub open spec fn on_ring(self, x: int, y: int) -> bool {
        self.contains_spec(x, y) && (x == self.x || y == self.y || x == self.x + self.width - 1
            || y == self.y + self.height - 1)
    }

    /// The rect lies wholly inside the `u16` coordinate space.
    pub open spec fn fits(self) -> bool {
        self.x + self.width <= u16::MAX && self.y + self.height <= u16::MAX
    }

    /// The overlap of two rects, or the empty rect at the origin when they do not overlap.
    pub open spec fn intersection_spec(self, other: Rect) -> Rect {
        let x1 = max16(self.x, other.x);
        let y1 = max16(self.y, other.y);
        let x2 = min16(self.right_spec(), other.right_spec());
        let y2 = min16(self.bottom_spec(), other.bottom_spec());
        if x2 <= x1 || y2 <= y1 {
            zero_rect()
        } else {
            Rect { x: x1, y: y1, width: (x2 - x1) as u16, height: (y2 - y1) as u16 }
        }
    }

    /// Construct a `Rect` from its top-left corner and dimensions.
    pub fn new(x: u16, y: u16, width: u16, height: u16) -> (r: Self)
        ensures
            r == (Rect { x, y, width, height }),
    {
        Rect { x, y, width, height }
    }

    /// Total number of cells, widened to `u32`.
    pub fn area(self) -> (r: u32)
        ensures
            r == self.area_spec(),
    {
        proof {
            vstd::arithmetic::mul::lemma_mul_upper_bound(
                self.width as int,
                u16::MAX as int,
                self.height as int,
                u16::MAX as int,
            );
        }
        (self.width as u32) * (self.height as u32)
    }

    /// The column one past the right edge, saturating at `u16::MAX`.
    pub fn right(self) -> (r: u16)
        ensures
            r == self.right_spec(),
    {
        self.x.saturating_add(self.width)
    }

    /// The row one past the bottom edge, saturating at `u16::MAX`.
    pub fn bottom(self) -> (r: u16)
        ensures
            r == self.bottom_spec(),
    {
        self.y.saturating_add(self.height)
    }

    /// `true` when the rect has no cells.
    pub fn is_empty(self) -> (r: bool)
        ensures
            r == self.is_empty_spec(),
    {
        self.width == 0 || self.height == 0
    }

    /// `true` when `(x, y)` lies in `[x, right) × [y, bottom)`.
    pub fn contains(self, x: u16, y: u16) -> (r: bool)
        ensures
            r == self.contains_spec(x as int, y as int),
    {
        x >= self.x && x < self.right() && y >= self.y && y < self.bottom()
    }

    /// Number of cells on the border ring: `2·(W+H) − 4`, or the area when `W < 2`
    /// or `H < 2`.
    pub fn border_len(self) -> (r: u32)
        ensures
            r == self.border_len_spec(),
    {
        if self.width < 2 || self.height < 2 {
            return self.area();
        }
        2 * (self.width as u32 + self.height as u32) - 4
    }

    /// The border cells, clockwise from the top-left corner, with no repeats; a
    /// degenerate rect yields its straight run of cells.
    pub fn border_cells(self) -> (cells: Vec<(u16, u16)>)
        requires
            self.fits(),
        ensures
            cells@.len() == self.border_len_spec(),
            forall|k: int|
                0 <= k < cells@.len() ==> (cells@[k].0 as int, cells@[k].1 as int)
                    == self.border_cell_at(k),
    {
        let mut cells: Vec<(u16, u16)> = Vec::new();
        if self.width == 0 || self.height == 0 {
            proof {
                vstd::arithmetic::mul::lemma_mul_by_zero_is_zero(self.width as int);
                vstd::arithmetic::mul::lemma_mul_by_zero_is_zero(self.height as int);
            }
            return cells;
        }
        let x0 = self.x;
        let y0 = self.y;
        let x1 = self.x + self.width - 1;
        let y1 = self.y + self.height - 1;
        if self.width == 1 || self.height == 1 {
            let ghost w = self.width as int;
            let mut y = y0;
            while y <= y1
                invariant
                    self.fits(),
                    self.width == 1 || self.height == 1,
                    self.width >= 1 && self.height >= 1,
                    x0 == self.x,
                    y0 == self.y,
                    x1 == self.x + self.width - 1,
                    y1 == self.y + self.height - 1,
                    w == self.width,
                    y0 <= y <= y1 + 1,
                    cells@.len() == (y - y0) * w,
                    forall|k: int|
                        0 <= k < cells@.len() ==> (cells@[k].0 as int, cells@[k].1 as int)
                            == self.border_cell_at(k),
                decreases y1 + 1 - y,
            {
                let mut x = x0;
                while x <= x1
                    invariant
                        self.fits(),
                        self.width == 1 || self.height == 1,
                        self.width >= 1 && self.height >= 1,
                        x0 == self.x,
                        y0 == self.y,
                        x1 == self.x + self.width - 1,
                        y1 == self.y + self.height - 1,
                        w == self.width,
                        y0 <= y <= y1,
                        x0 <= x <= x1 + 1,
                        cells@.len() == (y - y0) * w + (x - x0),
                        forall|k: int|
                            0 <= k < cells@.len() ==> (cells@[k].0 as int, cells@[k].1 as int)
                                == self.border_cell_at(k),
                    decreases x1 + 1 - x,
                {
                    proof {
                        let k = (y - y0) * w + (x - x0);
                        assert(k == (y - y0) * w + (x - x0));
                        assert(0 <= x - x0 < w);
                        vstd::arithmetic::div_mod::lemma_fundamental_div_mod_converse(
                            k,
                            w,
                            y - y0,
                            x - x0,
                        );
                    }
                    cells.push((x, y));
                    x = x + 1;
                }
                proof {
                    assert((y - y0) * w + w == (y + 1 - y0) * w) by (nonlinear_arith);
                }
                y = y + 1;
            }
            proof {
                assert((y1 + 1 - y0) * w == self.width * self.height) by (nonlinear_arith)
                    requires
                        y1 + 1 - y0 == self.height,
                        w == self.width,
                ;
            }
            return cells;
        }
        let ghost w = self.width as int;
        let ghost h = self.height as int;
        let mut x = x0;
        while x <= x1
            invariant
                self.fits(),
                self.width >= 2 && self.height >= 2,
                x0 == self.x,
                y0 == self.y,
                x1 == self.x + self.width - 1,
                y1 == self.y + self.height - 1,
                w == self.width,
                h == self.height,
                x0 <= x <= x1 + 1,
                cells@.len() == x - x0,
                forall|k: int|
                    0 <= k < cells@.len() ==> (cells@[k].0 as int, cells@[k].1 as int)
                        == self.border_cell_at(k),
            decreases x1 + 1 - x,
        {
            cells.push((x, y0));
            x = x + 1;
        }
        let mut y = y0 + 1;
        while y <= y1
            invariant
                self.fits(),
                self.width >= 2 && self.height >= 2,
                x0 == self.x,
                y0 == self.y,
                x1 == self.x + self.width - 1,
                y1 == self.y + self.height - 1,
                w == self.width,
                h == self.height,
                y0 + 1 <= y <= y1 + 1,
                cells@.len() == w + (y - y0 - 1),
                forall|k: int|
                    0 <= k < cells@.len() ==> (cells@[k].0 as int, cells@[k].1 as int)
                        == self.border_cell_at(k),
            decreases y1 + 1 - y,
        {
            cells.push((x1, y));
            y = y + 1;
        }
        let mut x = x1;
        while x > x0
            invariant
                self.fits(),
                self.width >= 2 && self.height >= 2,
                x0 == self.x,
                y0 == self.y,
                x1 == self.x + self.width - 1,
                y1 == self.y + self.height - 1,
                w == self.width,
                h == self.height,
                x0 <= x <= x1,
                cells@.len() == w + h - 1 + (x1 - x),
                forall|k: int|
                    0 <= k < cells@.len() ==> (cells@[k].0 as int, cells@[k].1 as int)
                        == self.border_cell_at(k),
            decreases x,
        {
            x = x - 1;
            cells.push((x, y1));
        }
        let mut y = y1;
        while y > y0 + 1
            invariant
                self.fits(),
                self.width >= 2 && self.height >= 2,
                x0 == self.x,
                y0 == self.y,
                x1 == self.x + self.width - 1,
                y1 == self.y + self.height - 1,
                w == self.width,
                h == self.height,
                y0 + 1 <= y <= y1,
                cells@.len() == 2 * w + h - 2 + (y1 - y),
                forall|k: int|
                    0 <= k < cells@.len() ==> (cells@[k].0 as int, cells@[k].1 as int)
                        == self.border_cell_at(k),
            decreases y,
        {
            y = y - 1;
            cells.push((x0, y));
        }
        cells
    }

    /// The largest rect inside both `self` and `other`; the empty rect at the origin
    /// when they are disjoint or merely adjacent.
    pub fn intersection(self, other: Rect) -> (r: Rect)
        ensures
            r == self.intersection_spec(other),
    {
        let x1 = if self.x >= other.x {
            self.x
        } else {
            other.x
        };
        let y1 = if self.y >= other.y {
            self.y
        } else {
            other.y
        };
        let sr = self.right();
        let or = other.right();
        let sb = self.bottom();
        let ob = other.bottom();
        let x2 = if sr <= or {
            sr
        } else {
            or
        };
        let y2 = if sb <= ob {
            sb
        } else {
            ob
        };
        if x2 <= x1 || y2 <= y1 {
            Rect::default()
        } else {
            Rect { x: x1, y: y1, width: x2 - x1, height: y2 - y1 }
        }
    }

    /// The arc length of `(x, y)` along the clockwise border, measured from the
    /// top-left corner, together with the perimeter `2·((W−1)+(H−1))`; `None` for a
    /// rect thinner than 2 and for a cell on none of the four border lines.  The
    /// edges are tested in the order top, right, bottom, left.
    pub open spec fn border_arc_spec(self, x: int, y: int) -> Option<(int, int)> {
        let w = self.width - 1;
        let h = self.height - 1;
        let bx0 = self.x as int;
        let by0 = self.y as int;
        let bx1 = self.x + self.width - 1;
        let by1 = self.y + self.height - 1;
        let perim = 2 * (w + h);
        if self.width < 2 || self.height < 2 {
            None
        } else if y == by0 {
            Some((if x > bx0 { x - bx0 } else { 0 }, perim))
        } else if x == bx1 {
            Some((w + (if y > by0 { y - by0 } else { 0 }), perim))
        } else if y == by1 {
            Some((w + h + (if bx1 > x { bx1 - x } else { 0 }), perim))
        } else if x == bx0 {
            Some((2 * w + h + (if by1 > y { by1 - y } else { 0 }), perim))
        } else {
            None
        }
    }

    /// Where `(x, y)` lies on the clockwise border: its arc length from the top-left
    /// corner and the perimeter, so that their quotient is the cell's position in
    /// `[0, 1)` around the ring.
    pub fn border_arc(self, x: u16, y: u16) -> (r: Option<(u32, u32)>)
        requires
            self.x + self.width <= u16::MAX + 1,
            self.y + self.height <= u16::MAX + 1,
        ensures
            match r {
                Some((s, p)) => self.border_arc_spec(x as int, y as int) == Some((s as int, p as int)),
                None => self.border_arc_spec(x as int, y as int) is None,
            },
    {
        if self.width < 2 || self.height < 2 {
            return None;
        }
        let bx0 = self.x;
        let by0 = self.y;
        let bx1 = self.x + (self.width - 1);
        let by1 = self.y + (self.height - 1);
        let w = (self.width - 1) as u32;
        let h = (self.height - 1) as u32;
        let perim = 2 * (w + h);
        if y == by0 {
            Some(((x.saturating_sub(bx0)) as u32, perim))
        } else if x == bx1 {
            Some((w + (y.saturating_sub(by0)) as u32, perim))
        } else if y == by1 {
            Some((w + h + (bx1.saturating_sub(x)) as u32, perim))
        } else if x == bx0 {
            Some((2 * w + h + (by1.saturating_sub(y)) as u32, perim))
        } else {
            None
        }
    }
}

/// A product of two `u16` extents fits in a `u32` (and so in a `usize`).
pub proof fn lemma_area_bound(w: u16, h: u16)
    ensures
        0 <= (w as int) * (h as int) <= 0xfffe0001,
        (w as int) * (h as int) <= usize::MAX,
{
    vstd::arithmetic::mul::lemma_mul_upper_bound(w as int, 0xffff, h as int, 0xffff);
    vstd::arithmetic::mul::lemma_mul_nonnegative(w as int, h as int);
}

/// The offset that keeps `cursor` in a `viewport`-slot window over `len` items:
/// the smallest move that brings the cursor into view, clamped so the window never
/// scrolls past the end; zero for an empty viewport or list.
pub open spec fn window_offset(cursor: nat, offset: nat, len: nat, viewport: nat) -> nat {
    if viewport == 0 || len == 0 {
        0
    } else {
        let moved: nat = if cursor < offset {
            cursor
        } else if cursor >= offset + viewport {
            (cursor + 1 - viewport) as nat
        } else {
            offset
        };
        let max_offset: nat = if len >= viewport {
            (len - viewport) as nat
        } else {
            0
        };
        if moved > max_offset {
            max_offset
        } else {
            moved
        }
    }
}

/// Slide a `viewport`-slot window over `len` items so that `cursor` stays visible;
/// updates the caller-owned `offset` and returns the visible range `[offset, end)`.
pub fn visible_window(cursor: usize, offset: &mut usize, len: usize, viewport: usize) -> (r:
    std::ops::Range<usize>)
    ensures
        *final(offset) == window_offset(
            cursor as nat,
            *old(offset) as nat,
            len as nat,
            viewport as nat,
        ),
        r.start == *final(offset),
        viewport == 0 || len == 0 ==> r.end == 0,
        viewport > 0 && len > 0 ==> r.end == if r.start + viewport <= len {
            r.start + viewport
        } else {
            len as int
        },
{
    if viewport == 0 || len == 0 {
        *offset = 0;
        return 0..0;
    }
    if cursor < *offset {
        *offset = cursor;
    } else if cursor - *offset >= viewport {
        *offset = cursor - (viewport - 1);
    }
    let max_offset = len.saturating_sub(viewport);
    if *offset > max_offset {
        *offset = max_offset;
    }
    let start = *offset;
    let end = if start + viewport <= len {
        start + viewport
    } else {
        len
    };
    start..end
}

/// The new left edge of `r` after reflecting it about the vertical centre axis of `area`.
pub open spec fn mirror_x(area: Rect, r: Rect) -> u16 {
    (area.x + sat_sub(area.width, sat_add(sat_sub(r.x, area.x), r.width))) as u16
}

/// Reflect each rect horizontally about the vertical centre axis of `area`, in place:
/// only `x` changes, width and vertical extent are kept.
pub fn mirror_rects_in(area: Rect, rects: &mut [Rect])
    requires
        forall|i: int|
            0 <= i < old(rects)@.len() ==> area.x + sat_sub(
                area.width,
                sat_add(sat_sub(#[trigger] old(rects)@[i].x, area.x), old(rects)@[i].width),
            ) <= u16::MAX,
    ensures
        final(rects)@.len() == old(rects)@.len(),
        forall|i: int|
            0 <= i < old(rects)@.len() ==> final(rects)@[i] == (Rect {
                x: mirror_x(area, old(rects)@[i]),
                ..old(rects)@[i]
            }),
{
    let n = rects.len();
    let mut i: usize = 0;
    while i < n
        invariant
            forall|j: int|
                0 <= j < old(rects)@.len() ==> area.x + sat_sub(
                    area.width,
                    sat_add(sat_sub(#[trigger] old(rects)@[j].x, area.x), old(rects)@[j].width),
                ) <= u16::MAX,
            n == rects@.len(),
            rects@.len() == old(rects)@.len(),
            0 <= i <= n,
            forall|j: int|
                0 <= j < i ==> rects@[j] == (Rect { x: mirror_x(area, old(rects)@[j]), ..old(rects)@[j] }),
            forall|j: int| i <= j < n ==> rects@[j] == old(rects)@[j],
        decreases n - i,
    {
        let r = rects[i];
        let offset_from_left = r.x.saturating_sub(area.x);
        let inner_right = offset_from_left.saturating_add(r.width);
        let nx = area.x + area.width.saturating_sub(inner_right);
        rects[i] = Rect { x: nx, ..r };
        i = i + 1;
    }
}

/// Mirroring is an involution: reflecting a rect that lies within `area`'s
/// horizontal span twice gives back its original column.
pub proof fn lemma_mirror_involution(area: Rect, r: Rect)
    requires
        2 * area.x + area.width - r.x - r.width <= u16::MAX,
        area.x <= r.x,
        r.x + r.width <= area.x + area.width,
    ensures
        mirror_x(area, Rect { x: mirror_x(area, r), ..r }) == r.x,
{
}

/// Every cell of the border walk lies on the rect's ring.
pub proof fn lemma_border_cells_on_ring(r: Rect, k: int)
    requires
        r.fits(),
        0 <= k < r.border_len_spec(),
    ensures
        r.on_ring(r.border_cell_at(k).0, r.border_cell_at(k).1),
{
    if r.width < 2 || r.height < 2 {
        let w = r.width as int;
        let h = r.height as int;
        assert(w > 0 && h > 0) by {
            if w == 0 || h == 0 {
                vstd::arithmetic::mul::lemma_mul_by_zero_is_zero(w);
                vstd::arithmetic::mul::lemma_mul_by_zero_is_zero(h);
            }
        }
        vstd::arithmetic::div_mod::lemma_div_pos_is_pos(k, w);
        vstd::arithmetic::div_mod::lemma_mod_bound(k, w);
        if w == 1 {
            vstd::arithmetic::div_mod::lemma_div_basics(k);
            assert(k < h) by (nonlinear_arith)
                requires
                    k < w * h,
                    w == 1,
            ;
        } else {
            assert(h == 1);
            assert(k < w) by (nonlinear_arith)
                requires
                    k < w * h,
                    h == 1,
            ;
            vstd::arithmetic::div_mod::lemma_basic_div(k, w);
            vstd::arithmetic::div_mod::lemma_small_mod(k as nat, w as nat);
        }
    }
}

/// The border walk never visits a cell twice.
pub proof fn lemma_border_cells_distinct(r: Rect, i: int, j: int)
    requires
        r.fits(),
        0 <= i < j < r.border_len_spec(),
    ensures
        r.border_cell_at(i) != r.border_cell_at(j),
{
    if r.width < 2 || r.height < 2 {
        let w = r.width as int;
        if r.border_cell_at(i) == r.border_cell_at(j) {
            assert(w > 0) by {
                if w == 0 {
                    vstd::arithmetic::mul::lemma_mul_by_zero_is_zero(r.height as int);
                }
            }
            vstd::arithmetic::div_mod::lemma_fundamental_div_mod(i, w);
            vstd::arithmetic::div_mod::lemma_fundamental_div_mod(j, w);
        }
    }
}


/// One of the four screen directions.
#[derive(Debug, Clone, Copy, PartialEq, Eq, Structural, Hash)]
pub enum Direction {
    Up,
    Down,
    Left,
    Right,
}

impl Direction {
    /// The unit step `(dx, dy)` of the direction; rows grow downward.
    pub fn delta(self) -> (r: (i32, i32))
        ensures
            r == match self {
                Direction::Up => (0i32, -1i32),
                Direction::Down => (0i32, 1i32),
                Direction::Left => (-1i32, 0i32),
                Direction::Right => (1i32, 0i32),
            },
    {
        match self {
            Direction::Up => (0, -1),
            Direction::Down => (0, 1),
            Direction::Left => (-1, 0),
            Direction::Right => (1, 0),
        }
    }
}

} // verus!
