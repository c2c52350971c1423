use vstd::prelude::*;

use crate::border::LineWeight;
use crate::geometry::Rect;

verus! {

/// The four arms of one cell in the edge grid: the weight of the border segment
/// reaching the cell from each direction, or `None`.
#[derive(Debug, Clone, Copy, PartialEq, Eq, Structural)]
pub struct EdgeCell {
    pub up: Option<LineWeight>,
    pub down: Option<LineWeight>,
    pub left: Option<LineWeight>,
    pub right: Option<LineWeight>,
}

/// The cell with no arm.
pub open spec fn bare_cell() -> EdgeCell {
    EdgeCell { up: None, down: None, left: None, right: None }
}

impl Default for EdgeCell {
    fn default() -> (c: Self)
        ensures
            c == bare_cell(),
    {
        EdgeCell { up: None, down: None, left: None, right: None }
    }
}

/// Rank of a weight: Light < Heavy < Double.
pub open spec fn weight_rank(w: LineWeight) -> nat {
    match w {
        LineWeight::Light => 1,
        LineWeight::Heavy => 2,
        LineWeight::Double => 3,
    }
}

/// The stronger of an existing arm and a new weight.
pub open spec fn stronger_spec(existing: Option<LineWeight>, new: LineWeight) -> LineWeight {
    match existing {
        None => new,
        Some(e) => if weight_rank(e) >= weight_rank(new) {
            e
        } else {
            new
        },
    }
}

/// An arm after a segment of weight `w` reaches it.
pub open spec fn merged(existing: Option<LineWeight>, w: LineWeight) -> Option<LineWeight> {
    Some(stronger_spec(existing, w))
}

/// Row-major index of an in-area cell.
pub open spec fn grid_index(area: Rect, x: int, y: int) -> int {
    (y - area.y) * area.width + (x - area.x)
}

/// `(x, y)` lies in `area` (with `area` inside the coordinate space).
pub open spec fn in_area(area: Rect, x: int, y: int) -> bool {
    area.x <= x < area.x + area.width && area.y <= y < area.y + area.height
}

/// The effect on cell `(x, y)` (currently `c`) of a horizontal line at row `row`
/// over columns `x0..=x1`, clipped to `area`: every covered cell but the first gains
/// a left arm, every one but the last a right arm.
pub open spec fn h_line_effect(
    area: Rect,
    x0: u16,
    x1: u16,
    row: u16,
    w: LineWeight,
    x: int,
    y: int,
    c: EdgeCell,
) -> EdgeCell {
    let lo: int = if x0 >= area.x {
        x0 as int
    } else {
        area.x as int
    };
    let hi: int = if x1 <= area.x + area.width - 1 {
        x1 as int
    } else {
        area.x + area.width - 1
    };
    if y == row && area.y <= row < area.y + area.height && lo <= x <= hi {
        EdgeCell {
            left: if x > lo {
                merged(c.left, w)
            } else {
                c.left
            },
            right: if x < hi {
                merged(c.right, w)
            } else {
                c.right
            },
            ..c
        }
    } else {
        c
    }
}

/// The effect on cell `(x, y)` (currently `c`) of a vertical line at column `col`
/// over rows `y0..=y1`, clipped to `area`.
pub open spec fn v_line_effect(
    area: Rect,
    y0: u16,
    y1: u16,
    col: u16,
    w: LineWeight,
    x: int,
    y: int,
    c: EdgeCell,
) -> EdgeCell {
    let lo: int = if y0 >= area.y {
        y0 as int
    } else {
        area.y as int
    };
    let hi: int = if y1 <= area.y + area.height - 1 {
        y1 as int
    } else {
        area.y + area.height - 1
    };
    if x == col && area.x <= col < area.x + area.width && lo <= y <= hi {
        EdgeCell {
            up: if y > lo {
                merged(c.up, w)
            } else {
                c.up
            },
            down: if y < hi {
                merged(c.down, w)
            } else {
                c.down
            },
            ..c
        }
    } else {
        c
    }
}

/// Two distinct in-area cells have distinct indices, and every index is in range.
proof fn lemma_index(area: Rect, x1: int, y1: int, x2: int, y2: int)
    requires
        in_area(area, x1, y1),
        in_area(area, x2, y2),
    ensures
        0 <= grid_index(area, x1, y1) < area.width * area.height,
        (x1 != x2 || y1 != y2) ==> grid_index(area, x1, y1) != grid_index(area, x2, y2),
{
    let w = area.width as int;
    let h = area.height as int;
    let r1 = y1 - area.y;
    let r2 = y2 - area.y;
    let c1 = x1 - area.x;
    let c2 = x2 - area.x;
    assert(0 <= r1 * w + c1 < w * h) by (nonlinear_arith)
        requires
            0 <= r1 < h,
            0 <= c1 < w,
    ;
    if r1 < r2 {
        assert(r1 * w + c1 < r2 * w + c2) by (nonlinear_arith)
            requires
                r1 < r2,
                0 <= c1 < w,
                0 <= c2,
        ;
    } else if r2 < r1 {
        assert(r2 * w + c2 < r1 * w + c1) by (nonlinear_arith)
            requires
                r2 < r1,
                0 <= c2 < w,
                0 <= c1,
        ;
    }
}

/// A grid of [`EdgeCell`]s covering `area`, into which border segments are
/// accumulated before being resolved to box-drawing glyphs.
pub struct EdgeGrid {
    /// The region this grid covers.
    pub area: Rect,
    cells: Vec<EdgeCell>,
}

impl EdgeGrid {
    /// The region the grid covers.
    pub closed spec fn region(self) -> Rect {
        self.area
    }

    /// One cell per position of the area.
    pub closed spec fn wf(self) -> bool {
        self.cells@.len() == self.area.width * self.area.height
    }

    /// The cell at `(x, y)`; meaningful for in-area positions.
    pub closed spec fn cell_at(self, x: int, y: int) -> EdgeCell {
        self.cells@[grid_index(self.area, x, y)]
    }

    /// An empty grid for `area`, with every arm absent.
    pub fn new(area: Rect) -> (g: Self)
        ensures
            g.wf(),
            g.region() == area,
            forall|x: int, y: int| in_area(area, x, y) ==> g.cell_at(x, y) == bare_cell(),
    {
        proof {
            crate::geometry::lemma_area_bound(area.width, area.height);
        }
        let len = area.width as usize * area.height as usize;
        let mut cells: Vec<EdgeCell> = Vec::new();
        let mut i: usize = 0;
        while i < len
            invariant
                0 <= i <= len,
                cells@.len() == i,
                forall|k: int| 0 <= k < i ==> cells@[k] == bare_cell(),
            decreases len - i,
        {
            cells.push(EdgeCell::default());
            i = i + 1;
        }
        let g = EdgeGrid { area, cells };
        proof {
            assert forall|x: int, y: int| in_area(area, x, y) implies g.cell_at(x, y)
                == bare_cell() by {
                lemma_index(area, x, y, x, y);
            }
        }
        g
    }

    /// Linear index of an in-area cell.
    fn idx(&self, x: u16, y: u16) -> (i: usize)
        requires
            self.wf(),
            in_area(self.area, x as int, y as int),
        ensures
            i == grid_index(self.area, x as int, y as int),
            i < self.cells@.len(),
    {
        proof {
            lemma_index(self.area, x as int, y as int, x as int, y as int);
            crate::geometry::lemma_area_bound(self.area.width, self.area.height);
            assert((y - self.area.y) * self.area.width <= grid_index(self.area, x as int, y as int));
        }
        (y - self.area.y) as usize * self.area.width as usize + (x - self.area.x) as usize
    }

    /// Merge weight `w` into the left arm of `(x, y)`.
    fn set_left(&mut self, x: u16, y: u16, w: LineWeight)
        requires
            old(self).wf(),
            in_area(old(self).region(), x as int, y as int),
        ensures
            final(self).wf(),
            final(self).region() == old(self).region(),
            final(self).cells@ == old(self).cells@.update(
                grid_index(old(self).region(), x as int, y as int),
                EdgeCell {
                    left: merged(old(self).cell_at(x as int, y as int).left, w),
                    ..old(self).cell_at(x as int, y as int)
                },
            ),
    {
        let i = self.idx(x, y);
        let c = self.cells[i];
        self.cells.set(i, EdgeCell { left: Some(stronger(c.left, w)), ..c });
    }

    /// Merge weight `w` into the right arm of `(x, y)`.
    fn set_right(&mut self, x: u16, y: u16, w: LineWeight)
        requires
            old(self).wf(),
            in_area(old(self).region(), x as int, y as int),
        ensures
            final(self).wf(),
            final(self).region() == old(self).region(),
            final(self).cells@ == old(self).cells@.update(
                grid_index(old(self).region(), x as int, y as int),
                EdgeCell {
                    right: merged(old(self).cell_at(x as int, y as int).right, w),
                    ..old(self).cell_at(x as int, y as int)
                },
            ),
    {
        let i = self.idx(x, y);
        let c = self.cells[i];
        self.cells.set(i, EdgeCell { right: Some(stronger(c.right, w)), ..c });
    }

    /// Merge weight `w` into the up arm of `(x, y)`.
    fn set_up(&mut self, x: u16, y: u16, w: LineWeight)
        requires
            old(self).wf(),
            in_area(old(self).region(), x as int, y as int),
        ensures
            final(self).wf(),
            final(self).region() == old(self).region(),
            final(self).cells@ == old(self).cells@.update(
                grid_index(old(self).region(), x as int, y as int),
                EdgeCell {
                    up: merged(old(self).cell_at(x as int, y as int).up, w),
                    ..old(self).cell_at(x as int, y as int)
                },
            ),
    {
        let i = self.idx(x, y);
        let c = self.cells[i];
        self.cells.set(i, EdgeCell { up: Some(stronger(c.up, w)), ..c });
    }

    /// Merge weight `w` into the down arm of `(x, y)`.
    fn set_down(&mut self, x: u16, y: u16, w: LineWeight)
        requires
            old(self).wf(),
            in_area(old(self).region(), x as int, y as int),
        ensures
            final(self).wf(),
            final(self).region() == old(self).region(),
            final(self).cells@ == old(self).cells@.update(
                grid_index(old(self).region(), x as int, y as int),
                EdgeCell {
                    down: merged(old(self).cell_at(x as int, y as int).down, w),
                    ..old(self).cell_at(x as int, y as int)
                },
            ),
    {
        let i = self.idx(x, y);
        let c = self.cells[i];
        self.cells.set(i, EdgeCell { down: Some(stronger(c.down, w)), ..c });
    }

    /// Add a horizontal line at row `y` over columns `x0..=x1` at weight `w`,
    /// clipped to the area: every covered cell but the first gains a left arm and
    /// every one but the last a right arm, the stronger weight winning.
    pub fn add_h_line(&mut self, x0: u16, x1: u16, y: u16, w: LineWeight)
        requires
            old(self).wf(),
            old(self).region().fits(),
        ensures
            final(self).wf(),
            final(self).region() == old(self).region(),
            forall|xx: int, yy: int|
                in_area(old(self).region(), xx, yy) ==> final(self).cell_at(xx, yy) == h_line_effect(
                    old(self).region(),
                    x0,
                    x1,
                    y,
                    w,
                    xx,
                    yy,
                    old(self).cell_at(xx, yy),
                ),
    {
        let ghost area = self.area;
        if y < self.area.y || y >= self.area.y + self.area.height || self.area.width == 0 {
            return;
        }
        let ax = self.area.x;
        let ax1 = self.area.x + self.area.width - 1;
        let lo = if x0 >= ax {
            x0
        } else {
            ax
        };
        let hi = if x1 <= ax1 {
            x1
        } else {
            ax1
        };
        if lo > hi {
            return;
        }
        let mut x = lo;
        while x <= hi
            invariant
                self.wf(),
                self.area == area,
                area.fits(),
                area.y <= y < area.y + area.height,
                area.width > 0,
                lo == (if x0 >= area.x {
                    x0 as int
                } else {
                    area.x as int
                }),
                hi == (if x1 <= area.x + area.width - 1 {
                    x1 as int
                } else {
                    area.x + area.width - 1
                }),
                lo <= x <= hi + 1,
                forall|xx: int, yy: int|
                    in_area(area, xx, yy) ==> self.cell_at(xx, yy) == (if yy == y && xx < x {
                        h_line_effect(area, x0, x1, y, w, xx, yy, old(self).cell_at(xx, yy))
                    } else {
                        old(self).cell_at(xx, yy)
                    }),
            decreases hi + 1 - x,
        {
            let ghost before = self.cells@;
            let ghost c0 = self.cell_at(x as int, y as int);
            proof {
                lemma_index(area, x as int, y as int, x as int, y as int);
            }
            if x > lo {
                self.set_left(x, y, w);
            }
            let ghost c1 = self.cell_at(x as int, y as int);
            assert(c1 == EdgeCell {
                left: if x > lo {
                    merged(c0.left, w)
                } else {
                    c0.left
                },
                ..c0
            });
            if x < hi {
                self.set_right(x, y, w);
            }
            proof {
                let gi = grid_index(area, x as int, y as int);
                assert(self.cells@ == before.update(gi, self.cell_at(x as int, y as int)));
                assert forall|xx: int, yy: int| in_area(area, xx, yy) implies self.cell_at(xx, yy)
                    == (if yy == y && xx < x + 1 {
                    h_line_effect(area, x0, x1, y, w, xx, yy, old(self).cell_at(xx, yy))
                } else {
                    old(self).cell_at(xx, yy)
                }) by {
                    lemma_index(area, xx, yy, x as int, y as int);
                }
            }
            x = x + 1;
        }
    }

    /// Add a vertical line at column `x` over rows `y0..=y1` at weight `w`, clipped
    /// to the area: every covered cell but the first gains an up arm and every one
    /// but the last a down arm, the stronger weight winning.
    pub fn add_v_line(&mut self, y0: u16, y1: u16, x: u16, w: LineWeight)
        requires
            old(self).wf(),
            old(self).region().fits(),
        ensures
            final(self).wf(),
            final(self).region() == old(self).region(),
            forall|xx: int, yy: int|
                in_area(old(self).region(), xx, yy) ==> final(self).cell_at(xx, yy) == v_line_effect(
                    old(self).region(),
                    y0,
                    y1,
                    x,
                    w,
                    xx,
                    yy,
                    old(self).cell_at(xx, yy),
                ),
    {
        let ghost area = self.area;
        if x < self.area.x || x >= self.area.x + self.area.width || self.area.height == 0 {
            return;
        }
        let ay = self.area.y;
        let ay1 = self.area.y + self.area.height - 1;
        let lo = if y0 >= ay {
            y0
        } else {
            ay
        };
        let hi = if y1 <= ay1 {
            y1
        } else {
            ay1
        };
        if lo > hi {
            return;
        }
        let mut y = lo;
        while y <= hi
            invariant
                self.wf(),
                self.area == area,
                area.fits(),
                area.x <= x < area.x + area.width,
                area.height > 0,
                lo == (if y0 >= area.y {
                    y0 as int
                } else {
                    area.y as int
                }),
                hi == (if y1 <= area.y + area.height - 1 {
                    y1 as int
                } else {
                    area.y + area.height - 1
                }),
                lo <= y <= hi + 1,
                forall|xx: int, yy: int|
                    in_area(area, xx, yy) ==> self.cell_at(xx, yy) == (if xx == x && yy < y {
                        v_line_effect(area, y0, y1, x, w, xx, yy, old(self).cell_at(xx, yy))
                    } else {
                        old(self).cell_at(xx, yy)
                    }),
            decreases hi + 1 - y,
        {
            let ghost before = self.cells@;
            let ghost c0 = self.cell_at(x as int, y as int);
            proof {
                lemma_index(area, x as int, y as int, x as int, y as int);
            }
            if y > lo {
                self.set_up(x, y, w);
            }
            let ghost c1 = self.cell_at(x as int, y as int);
            assert(c1 == EdgeCell {
                up: if y > lo {
                    merged(c0.up, w)
                } else {
                    c0.up
                },
                ..c0
            });
            if y < hi {
                self.set_down(x, y, w);
            }
            proof {
                let gi = grid_index(area, x as int, y as int);
                assert(self.cells@ == before.update(gi, self.cell_at(x as int, y as int)));
                assert forall|xx: int, yy: int| in_area(area, xx, yy) implies self.cell_at(xx, yy)
                    == (if xx == x && yy < y + 1 {
                    v_line_effect(area, y0, y1, x, w, xx, yy, old(self).cell_at(xx, yy))
                } else {
                    old(self).cell_at(xx, yy)
                }) by {
                    lemma_index(area, xx, yy, x as int, y as int);
                }
            }
            y = y + 1;
        }
    }

    /// Add the four sides of `area` at weight `w`: top and bottom rows, then left and
    /// right columns; nothing for an empty area.
    pub fn add_box(&mut self, area: Rect, w: LineWeight)
        requires
            old(self).wf(),
            old(self).region().fits(),
            area.fits(),
        ensures
            final(self).wf(),
            final(self).region() == old(self).region(),
            forall|xx: int, yy: int|
                in_area(old(self).region(), xx, yy) ==> final(self).cell_at(xx, yy) == if area.width
                    == 0 || area.height == 0 {
                    old(self).cell_at(xx, yy)
                } else {
                    box_effect(old(self).region(), area, w, xx, yy, old(self).cell_at(xx, yy))
                },
    {
        if area.width == 0 || area.height == 0 {
            return;
        }
        let x0 = area.x;
        let x1 = area.x + area.width - 1;
        let y0 = area.y;
        let y1 = area.y + area.height - 1;
        self.add_h_line(x0, x1, y0, w);
        self.add_h_line(x0, x1, y1, w);
        self.add_v_line(y0, y1, x0, w);
        self.add_v_line(y0, y1, x1, w);
    }

    /// The cell at `(x, y)`, or `None` outside the area.
    pub fn get(&self, x: u16, y: u16) -> (r: Option<&EdgeCell>)
        requires
            self.wf(),
            self.region().fits(),
        ensures
            r == if in_area(self.region(), x as int, y as int) {
                Some(&self.cell_at(x as int, y as int))
            } else {
                None
            },
    {
        if x < self.area.x || x >= self.area.x + self.area.width || y < self.area.y || y
            >= self.area.y + self.area.height {
            return None;
        }
        let i = self.idx(x, y);
        Some(&self.cells[i])
    }
}

/// The effect of [`EdgeGrid::add_box`] for a non-empty box on cell `(x, y)`.
pub open spec fn box_effect(
    grid: Rect,
    area: Rect,
    w: LineWeight,
    x: int,
    y: int,
    c: EdgeCell,
) -> EdgeCell {
    let x0 = area.x;
    let x1 = (area.x + area.width - 1) as u16;
    let y0 = area.y;
    let y1 = (area.y + area.height - 1) as u16;
    v_line_effect(
        grid,
        y0,
        y1,
        x1,
        w,
        x,
        y,
        v_line_effect(
            grid,
            y0,
            y1,
            x0,
            w,
            x,
            y,
            h_line_effect(grid, x0, x1, y1, w, x, y, h_line_effect(grid, x0, x1, y0, w, x, y, c)),
        ),
    )
}

/// The stronger of `existing` and `new`, ordering `Light < Heavy < Double`.
fn stronger(existing: Option<LineWeight>, new: LineWeight) -> (r: LineWeight)
    ensures
        r == stronger_spec(existing, new),
{
    match (existing, new) {
        (Some(LineWeight::Double), _) | (_, LineWeight::Double) => LineWeight::Double,
        (Some(LineWeight::Heavy), _) | (_, LineWeight::Heavy) => LineWeight::Heavy,
        _ => LineWeight::Light,
    }
}

/// 2-bit code of an arm: None=0, Light=1, Heavy=2, Double=3.
pub open spec fn arm_code_spec(w: Option<LineWeight>) -> u8 {
    match w {
        None => 0,
        Some(LineWeight::Light) => 1,
        Some(LineWeight::Heavy) => 2,
        Some(LineWeight::Double) => 3,
    }
}

/// Glyph for a cell whose present arms are all Light (1) or Heavy (2), keyed by
/// the arm codes (up, down, left, right).
pub open spec fn lh_glyph(u: u8, d: u8, l: u8, r: u8) -> Option<char> {
    match (u, d, l, r) {
        (0, 0, 0, 1) => Some('╶'),
        (0, 0, 0, 2) => Some('╺'),
        (0, 0, 1, 0) => Some('╴'),
        (0, 0, 2, 0) => Some('╸'),
        (0, 1, 0, 0) => Some('╷'),
        (0, 2, 0, 0) => Some('╻'),
        (1, 0, 0, 0) => Some('╵'),
        (2, 0, 0, 0) => Some('╹'),
        (0, 0, 1, 1) => Some('─'),
        (0, 0, 1, 2) => Some('╼'),
        (0, 0, 2, 1) => Some('╾'),
        (0, 0, 2, 2) => Some('━'),
        (1, 1, 0, 0) => Some('│'),
        (1, 2, 0, 0) => Some('╽'),
        (2, 1, 0, 0) => Some('╿'),
        (2, 2, 0, 0) => Some('┃'),
        (0, 1, 0, 1) => Some('┌'),
        (0, 1, 0, 2) => Some('┍'),
        (0, 2, 0, 1) => Some('┎'),
        (0, 2, 0, 2) => Some('┏'),
        (0, 1, 1, 0) => Some('┐'),
        (0, 1, 2, 0) => Some('┑'),
        (0, 2, 1, 0) => Some('┒'),
        (0, 2, 2, 0) => Some('┓'),
        (1, 0, 0, 1) => Some('└'),
        (1, 0, 0, 2) => Some('┕'),
        (2, 0, 0, 1) => Some('┖'),
        (2, 0, 0, 2) => Some('┗'),
        (1, 0, 1, 0) => Some('┘'),
        (1, 0, 2, 0) => Some('┙'),
        (2, 0, 1, 0) => Some('┚'),
        (2, 0, 2, 0) => Some('┛'),
        (0, 1, 1, 1) => Some('┬'),
        (0, 1, 1, 2) => Some('┮'),
        (0, 1, 2, 1) => Some('┭'),
        (0, 1, 2, 2) => Some('┯'),
        (0, 2, 1, 1) => Some('┰'),
        (0, 2, 1, 2) => Some('┲'),
        (0, 2, 2, 1) => Some('┱'),
        (0, 2, 2, 2) => Some('┳'),
        (1, 0, 1, 1) => Some('┴'),
        (1, 0, 1, 2) => Some('┶'),
        (1, 0, 2, 1) => Some('┵'),
        (1, 0, 2, 2) => Some('┷'),
        (2, 0, 1, 1) => Some('┸'),
        (2, 0, 1, 2) => Some('┺'),
        (2, 0, 2, 1) => Some('┹'),
        (2, 0, 2, 2) => Some('┻'),
        (1, 1, 0, 1) => Some('├'),
        (1, 1, 0, 2) => Some('┝'),
        (1, 2, 0, 1) => Some('┟'),
        (1, 2, 0, 2) => Some('┢'),
        (2, 1, 0, 1) => Some('┞'),
        (2, 1, 0, 2) => Some('┡'),
        (2, 2, 0, 1) => Some('┠'),
        (2, 2, 0, 2) => Some('┣'),
        (1, 1, 1, 0) => Some('┤'),
        (1, 1, 2, 0) => Some('┥'),
        (1, 2, 1, 0) => Some('┧'),
        (1, 2, 2, 0) => Some('┪'),
        (2, 1, 1, 0) => Some('┦'),
        (2, 1, 2, 0) => Some('┩'),
        (2, 2, 1, 0) => Some('┨'),
        (2, 2, 2, 0) => Some('┫'),
        (1, 1, 1, 1) => Some('┼'),
        (1, 1, 1, 2) => Some('┾'),
        (1, 1, 2, 1) => Some('┽'),
        (1, 1, 2, 2) => Some('┿'),
        (1, 2, 1, 1) => Some('╁'),
        (1, 2, 1, 2) => Some('╆'),
        (1, 2, 2, 1) => Some('╅'),
        (1, 2, 2, 2) => Some('╈'),
        (2, 1, 1, 1) => Some('╀'),
        (2, 1, 1, 2) => Some('╄'),
        (2, 1, 2, 1) => Some('╃'),
        (2, 1, 2, 2) => Some('╇'),
        (2, 2, 1, 1) => Some('╂'),
        (2, 2, 1, 2) => Some('╊'),
        (2, 2, 2, 1) => Some('╉'),
        (2, 2, 2, 2) => Some('╋'),
        _ => None,
    }
}

/// Glyph for a cell with two or more Double arms (code 3) and no other arm.
pub open spec fn d_glyph(u: u8, d: u8, l: u8, r: u8) -> Option<char> {
    match (u, d, l, r) {
        (0, 0, 3, 3) => Some('═'),
        (3, 3, 0, 0) => Some('║'),
        (0, 3, 0, 3) => Some('╔'),
        (0, 3, 3, 0) => Some('╗'),
        (3, 0, 0, 3) => Some('╚'),
        (3, 0, 3, 0) => Some('╝'),
        (0, 3, 3, 3) => Some('╦'),
        (3, 0, 3, 3) => Some('╩'),
        (3, 3, 0, 3) => Some('╠'),
        (3, 3, 3, 0) => Some('╣'),
        (3, 3, 3, 3) => Some('╬'),
        _ => None,
    }
}

/// Double demoted to Heavy.
pub open spec fn demote(c: u8) -> u8 {
    if c == 3 {
        2
    } else {
        c
    }
}

pub open spec fn count_double(u: u8, d: u8, l: u8, r: u8) -> int {
    (if u == 3 {
        1int
    } else {
        0
    }) + (if d == 3 {
        1int
    } else {
        0
    }) + (if l == 3 {
        1int
    } else {
        0
    }) + (if r == 3 {
        1int
    } else {
        0
    })
}

pub open spec fn count_light_heavy(u: u8, d: u8, l: u8, r: u8) -> int {
    (if u == 1 || u == 2 {
        1int
    } else {
        0
    }) + (if d == 1 || d == 2 {
        1int
    } else {
        0
    }) + (if l == 1 || l == 2 {
        1int
    } else {
        0
    }) + (if r == 1 || r == 2 {
        1int
    } else {
        0
    })
}

/// The box-drawing glyph of a cell: none for a bare cell; the double glyph when two
/// or more arms are Double and none is Light or Heavy; otherwise the light/heavy glyph
/// with every Double arm demoted to Heavy.
pub open spec fn resolve_spec(cell: EdgeCell) -> Option<char> {
    let u = arm_code_spec(cell.up);
    let d = arm_code_spec(cell.down);
    let l = arm_code_spec(cell.left);
    let r = arm_code_spec(cell.right);
    if u == 0 && d == 0 && l == 0 && r == 0 {
        None
    } else if count_double(u, d, l, r) >= 2 && count_light_heavy(u, d, l, r) == 0 {
        d_glyph(u, d, l, r)
    } else {
        lh_glyph(demote(u), demote(d), demote(l), demote(r))
    }
}


/// The arms of a box-drawing glyph as (up, down, left, right) codes (0 none, 1 light,
/// 2 heavy, 3 double), as the glyph's Unicode name describes it; `(0, 0, 0, 0)` for
/// any other character.
pub open spec fn glyph_arms(c: char) -> (u8, u8, u8, u8) {
    match c {
        '─' => (0, 0, 1, 1),
        '━' => (0, 0, 2, 2),
        '│' => (1, 1, 0, 0),
        '┃' => (2, 2, 0, 0),
        '┌' => (0, 1, 0, 1),
        '┍' => (0, 1, 0, 2),
        '┎' => (0, 2, 0, 1),
        '┏' => (0, 2, 0, 2),
        '┐' => (0, 1, 1, 0),
        '┑' => (0, 1, 2, 0),
        '┒' => (0, 2, 1, 0),
        '┓' => (0, 2, 2, 0),
        '└' => (1, 0, 0, 1),
        '┕' => (1, 0, 0, 2),
        '┖' => (2, 0, 0, 1),
        '┗' => (2, 0, 0, 2),
        '┘' => (1, 0, 1, 0),
        '┙' => (1, 0, 2, 0),
        '┚' => (2, 0, 1, 0),
        '┛' => (2, 0, 2, 0),
        '├' => (1, 1, 0, 1),
        '┝' => (1, 1, 0, 2),
        '┞' => (2, 1, 0, 1),
        '┟' => (1, 2, 0, 1),
        '┠' => (2, 2, 0, 1),
        '┡' => (2, 1, 0, 2),
        '┢' => (1, 2, 0, 2),
        '┣' => (2, 2, 0, 2),
        '┤' => (1, 1, 1, 0),
        '┥' => (1, 1, 2, 0),
        '┦' => (2, 1, 1, 0),
        '┧' => (1, 2, 1, 0),
        '┨' => (2, 2, 1, 0),
        '┩' => (2, 1, 2, 0),
        '┪' => (1, 2, 2, 0),
        '┫' => (2, 2, 2, 0),
        '┬' => (0, 1, 1, 1),
        '┭' => (0, 1, 2, 1),
        '┮' => (0, 1, 1, 2),
        '┯' => (0, 1, 2, 2),
        '┰' => (0, 2, 1, 1),
        '┱' => (0, 2, 2, 1),
        '┲' => (0, 2, 1, 2),
        '┳' => (0, 2, 2, 2),
        '┴' => (1, 0, 1, 1),
        '┵' => (1, 0, 2, 1),
        '┶' => (1, 0, 1, 2),
        '┷' => (1, 0, 2, 2),
        '┸' => (2, 0, 1, 1),
        '┹' => (2, 0, 2, 1),
        '┺' => (2, 0, 1, 2),
        '┻' => (2, 0, 2, 2),
        '┼' => (1, 1, 1, 1),
        '┽' => (1, 1, 2, 1),
        '┾' => (1, 1, 1, 2),
        '┿' => (1, 1, 2, 2),
        '╀' => (2, 1, 1, 1),
        '╁' => (1, 2, 1, 1),
        '╂' => (2, 2, 1, 1),
        '╃' => (2, 1, 2, 1),
        '╄' => (2, 1, 1, 2),
        '╅' => (1, 2, 2, 1),
        '╆' => (1, 2, 1, 2),
        '╇' => (2, 1, 2, 2),
        '╈' => (1, 2, 2, 2),
        '╉' => (2, 2, 2, 1),
        '╊' => (2, 2, 1, 2),
        '╋' => (2, 2, 2, 2),
        '═' => (0, 0, 3, 3),
        '║' => (3, 3, 0, 0),
        '╔' => (0, 3, 0, 3),
        '╗' => (0, 3, 3, 0),
        '╚' => (3, 0, 0, 3),
        '╝' => (3, 0, 3, 0),
        '╠' => (3, 3, 0, 3),
        '╣' => (3, 3, 3, 0),
        '╦' => (0, 3, 3, 3),
        '╩' => (3, 0, 3, 3),
        '╬' => (3, 3, 3, 3),
        '╴' => (0, 0, 1, 0),
        '╵' => (1, 0, 0, 0),
        '╶' => (0, 0, 0, 1),
        '╷' => (0, 1, 0, 0),
        '╸' => (0, 0, 2, 0),
        '╹' => (2, 0, 0, 0),
        '╺' => (0, 0, 0, 2),
        '╻' => (0, 2, 0, 0),
        '╼' => (0, 0, 1, 2),
        '╽' => (1, 2, 0, 0),
        '╾' => (0, 0, 2, 1),
        '╿' => (2, 1, 0, 0),
        _ => (0, 0, 0, 0),
    }
}

/// The cell is drawn in the double style: at least two arms are Double and none is
/// Light or Heavy.
pub open spec fn double_style(cell: EdgeCell) -> bool {
    let arms = seq![cell.up, cell.down, cell.left, cell.right];
    &&& !arms.contains(Some(LineWeight::Light))
    &&& !arms.contains(Some(LineWeight::Heavy))
    &&& (cell.up == Some(LineWeight::Double)) as int + (cell.down == Some(LineWeight::Double)) as int
        + (cell.left == Some(LineWeight::Double)) as int + (cell.right == Some(LineWeight::Double)) as int
        >= 2
}

/// The arm code a side is drawn with: none, light, heavy, or double in the double
/// style (a Double arm among others is drawn heavy).
pub open spec fn shown_arm(w: Option<LineWeight>, double: bool) -> u8 {
    match w {
        None => 0,
        Some(LineWeight::Light) => 1,
        Some(LineWeight::Heavy) => 2,
        Some(LineWeight::Double) => if double {
            3
        } else {
            2
        },
    }
}

/// The glyph a cell resolves to has exactly the cell's arms: a side is drawn when and
/// only when the cell has an arm there, light arms light, heavy arms heavy, and Double
/// arms double in the double style and heavy otherwise.  Only a bare cell has no glyph.
pub proof fn lemma_resolve_arms(cell: EdgeCell)
    ensures
        cell != bare_cell() ==> {
            let dd = double_style(cell);
            &&& resolve_spec(cell) is Some
            &&& glyph_arms(resolve_spec(cell)->0) == (
                shown_arm(cell.up, dd),
                shown_arm(cell.down, dd),
                shown_arm(cell.left, dd),
                shown_arm(cell.right, dd),
            )
        },
{
    let arms = seq![cell.up, cell.down, cell.left, cell.right];
    assert(arms[0] == cell.up && arms[1] == cell.down && arms[2] == cell.left && arms[3] == cell.right);
    assert(arms.contains(Some(LineWeight::Light)) <==> (cell.up == Some(LineWeight::Light) || cell.down
        == Some(LineWeight::Light) || cell.left == Some(LineWeight::Light) || cell.right == Some(
        LineWeight::Light,
    )));
    assert(arms.contains(Some(LineWeight::Heavy)) <==> (cell.up == Some(LineWeight::Heavy) || cell.down
        == Some(LineWeight::Heavy) || cell.left == Some(LineWeight::Heavy) || cell.right == Some(
        LineWeight::Heavy,
    )));
}

/// 2-bit arm code.
fn arm_code(w: Option<LineWeight>) -> (c: u8)
    ensures
        c == arm_code_spec(w),
{
    match w {
        None => 0,
        Some(LineWeight::Light) => 1,
        Some(LineWeight::Heavy) => 2,
        Some(LineWeight::Double) => 3,
    }
}

/// The light/heavy glyph table.
fn lh_table(u: u8, d: u8, l: u8, r: u8) -> (g: Option<char>)
    ensures
        g == lh_glyph(u, d, l, r),
{
    match (u, d, l, r) {
        (0, 0, 0, 1) => Some('╶'),
        (0, 0, 0, 2) => Some('╺'),
        (0, 0, 1, 0) => Some('╴'),
        (0, 0, 2, 0) => Some('╸'),
        (0, 1, 0, 0) => Some('╷'),
        (0, 2, 0, 0) => Some('╻'),
        (1, 0, 0, 0) => Some('╵'),
        (2, 0, 0, 0) => Some('╹'),
        (0, 0, 1, 1) => Some('─'),
        (0, 0, 1, 2) => Some('╼'),
        (0, 0, 2, 1) => Some('╾'),
        (0, 0, 2, 2) => Some('━'),
        (1, 1, 0, 0) => Some('│'),
        (1, 2, 0, 0) => Some('╽'),
        (2, 1, 0, 0) => Some('╿'),
        (2, 2, 0, 0) => Some('┃'),
        (0, 1, 0, 1) => Some('┌'),
        (0, 1, 0, 2) => Some('┍'),
        (0, 2, 0, 1) => Some('┎'),
        (0, 2, 0, 2) => Some('┏'),
        (0, 1, 1, 0) => Some('┐'),
        (0, 1, 2, 0) => Some('┑'),
        (0, 2, 1, 0) => Some('┒'),
        (0, 2, 2, 0) => Some('┓'),
        (1, 0, 0, 1) => Some('└'),
        (1, 0, 0, 2) => Some('┕'),
        (2, 0, 0, 1) => Some('┖'),
        (2, 0, 0, 2) => Some('┗'),
        (1, 0, 1, 0) => Some('┘'),
        (1, 0, 2, 0) => Some('┙'),
        (2, 0, 1, 0) => Some('┚'),
        (2, 0, 2, 0) => Some('┛'),
        (0, 1, 1, 1) => Some('┬'),
        (0, 1, 1, 2) => Some('┮'),
        (0, 1, 2, 1) => Some('┭'),
        (0, 1, 2, 2) => Some('┯'),
        (0, 2, 1, 1) => Some('┰'),
        (0, 2, 1, 2) => Some('┲'),
        (0, 2, 2, 1) => Some('┱'),
        (0, 2, 2, 2) => Some('┳'),
        (1, 0, 1, 1) => Some('┴'),
        (1, 0, 1, 2) => Some('┶'),
        (1, 0, 2, 1) => Some('┵'),
        (1, 0, 2, 2) => Some('┷'),
        (2, 0, 1, 1) => Some('┸'),
        (2, 0, 1, 2) => Some('┺'),
        (2, 0, 2, 1) => Some('┹'),
        (2, 0, 2, 2) => Some('┻'),
        (1, 1, 0, 1) => Some('├'),
        (1, 1, 0, 2) => Some('┝'),
        (1, 2, 0, 1) => Some('┟'),
        (1, 2, 0, 2) => Some('┢'),
        (2, 1, 0, 1) => Some('┞'),
        (2, 1, 0, 2) => Some('┡'),
        (2, 2, 0, 1) => Some('┠'),
        (2, 2, 0, 2) => Some('┣'),
        (1, 1, 1, 0) => Some('┤'),
        (1, 1, 2, 0) => Some('┥'),
        (1, 2, 1, 0) => Some('┧'),
        (1, 2, 2, 0) => Some('┪'),
        (2, 1, 1, 0) => Some('┦'),
        (2, 1, 2, 0) => Some('┩'),
        (2, 2, 1, 0) => Some('┨'),
        (2, 2, 2, 0) => Some('┫'),
        (1, 1, 1, 1) => Some('┼'),
        (1, 1, 1, 2) => Some('┾'),
        (1, 1, 2, 1) => Some('┽'),
        (1, 1, 2, 2) => Some('┿'),
        (1, 2, 1, 1) => Some('╁'),
        (1, 2, 1, 2) => Some('╆'),
        (1, 2, 2, 1) => Some('╅'),
        (1, 2, 2, 2) => Some('╈'),
        (2, 1, 1, 1) => Some('╀'),
        (2, 1, 1, 2) => Some('╄'),
        (2, 1, 2, 1) => Some('╃'),
        (2, 1, 2, 2) => Some('╇'),
        (2, 2, 1, 1) => Some('╂'),
        (2, 2, 1, 2) => Some('╊'),
        (2, 2, 2, 1) => Some('╉'),
        (2, 2, 2, 2) => Some('╋'),
        _ => None,
    }
}

/// The pure-double glyph table.
fn d_table(u: u8, d: u8, l: u8, r: u8) -> (g: Option<char>)
    ensures
        g == d_glyph(u, d, l, r),
{
    match (u, d, l, r) {
        (0, 0, 3, 3) => Some('═'),
        (3, 3, 0, 0) => Some('║'),
        (0, 3, 0, 3) => Some('╔'),
        (0, 3, 3, 0) => Some('╗'),
        (3, 0, 0, 3) => Some('╚'),
        (3, 0, 3, 0) => Some('╝'),
        (0, 3, 3, 3) => Some('╦'),
        (3, 0, 3, 3) => Some('╩'),
        (3, 3, 0, 3) => Some('╠'),
        (3, 3, 3, 0) => Some('╣'),
        (3, 3, 3, 3) => Some('╬'),
        _ => None,
    }
}

/// Resolve one cell to its box-drawing glyph; `None` exactly when all four arms
/// are absent.
pub fn resolve(cell: &EdgeCell) -> (g: Option<char>)
    ensures
        g == resolve_spec(*cell),
        g.is_none() <==> *cell == bare_cell(),
{
    let u = arm_code(cell.up);
    let d = arm_code(cell.down);
    let l = arm_code(cell.left);
    let r = arm_code(cell.right);
    if u == 0 && d == 0 && l == 0 && r == 0 {
        return None;
    }
    let n_d: u8 = (if u == 3 {
        1u8
    } else {
        0
    }) + (if d == 3 {
        1u8
    } else {
        0
    }) + (if l == 3 {
        1u8
    } else {
        0
    }) + (if r == 3 {
        1u8
    } else {
        0
    });
    let n_lh: u8 = (if u == 1 || u == 2 {
        1u8
    } else {
        0
    }) + (if d == 1 || d == 2 {
        1u8
    } else {
        0
    }) + (if l == 1 || l == 2 {
        1u8
    } else {
        0
    }) + (if r == 1 || r == 2 {
        1u8
    } else {
        0
    });
    if n_d >= 2 && n_lh == 0 {
        return d_table(u, d, l, r);
    }
    let u = if u == 3 {
        2
    } else {
        u
    };
    let d = if d == 3 {
        2
    } else {
        d
    };
    let l = if l == 3 {
        2
    } else {
        l
    };
    let r = if r == 3 {
        2
    } else {
        r
    };
    lh_table(u, d, l, r)
}

/// Merging arms is order-independent: a cell reached by segments of weights `a`
/// and then `b` ends with the same arm as when reached by `b` and then `a`.
pub proof fn lemma_merge_commutes(e: Option<LineWeight>, a: LineWeight, b: LineWeight)
    ensures
        merged(merged(e, a), b) == merged(merged(e, b), a),
{
}

/// Merging is idempotent: adding the same segment twice changes nothing more.
pub proof fn lemma_merge_idempotent(e: Option<LineWeight>, a: LineWeight)
    ensures
        merged(merged(e, a), a) == merged(e, a),
{
}

/// The stronger weight wins: after merging, an arm is at least as strong as both
/// the weight it had and the weight added, and is one of the two.
pub proof fn lemma_merge_stronger(e: Option<LineWeight>, a: LineWeight)
    ensures
        weight_rank(stronger_spec(e, a)) >= weight_rank(a),
        e matches Some(x) ==> weight_rank(stronger_spec(e, a)) >= weight_rank(x),
        stronger_spec(e, a) == a || e == Some(stronger_spec(e, a)),
{
}

} // verus!

verus! {

/// Every arm present in `old` is present in `new`.
pub open spec fn arms_kept(old: EdgeCell, new: EdgeCell) -> bool {
    &&& (old.up is Some ==> new.up is Some)
    &&& (old.down is Some ==> new.down is Some)
    &&& (old.left is Some ==> new.left is Some)
    &&& (old.right is Some ==> new.right is Some)
}

/// Every cell of `new`'s region keeps the arms it had in `old`.
pub open spec fn grid_grows(old: EdgeGrid, new: EdgeGrid) -> bool {
    &&& new.wf()
    &&& new.region() == old.region()
    &&& forall|x: int, y: int|
        #![trigger new.cell_at(x, y)]
        in_area(old.region(), x, y) ==> arms_kept(old.cell_at(x, y), new.cell_at(x, y))
}

/// Adding a line or a box never removes an arm.
pub proof fn lemma_effects_keep_arms(area: Rect, a: Rect, x0: u16, x1: u16, row: u16, w: LineWeight, x: int, y: int, c: EdgeCell)
    ensures
        arms_kept(c, h_line_effect(area, x0, x1, row, w, x, y, c)),
        arms_kept(c, v_line_effect(area, x0, x1, row, w, x, y, c)),
        arms_kept(c, box_effect(area, a, w, x, y, c)),
{
}

/// Growth composes.
pub proof fn lemma_grid_grows_trans(a: EdgeGrid, b: EdgeGrid, c: EdgeGrid)
    requires
        grid_grows(a, b),
        grid_grows(b, c),
    ensures
        grid_grows(a, c),
{
    assert forall|x: int, y: int| #![trigger c.cell_at(x, y)] in_area(a.region(), x, y) implies arms_kept(a.cell_at(x, y), c.cell_at(x, y)) by {
        assert(arms_kept(a.cell_at(x, y), b.cell_at(x, y)));
        assert(arms_kept(b.cell_at(x, y), c.cell_at(x, y)));
    }
}

impl EdgeGrid {
    /// [`EdgeGrid::add_h_line`], seen as growth of the grid.
    pub(crate) fn grow_h_line(&mut self, x0: u16, x1: u16, y: u16, w: LineWeight)
        requires
            old(self).wf(),
            old(self).region().fits(),
        ensures
            grid_grows(*old(self), *final(self)),
            final(self).wf(),
            final(self).region() == old(self).region(),
            forall|xx: int, yy: int|
                in_area(old(self).region(), xx, yy) ==> final(self).cell_at(xx, yy) == h_line_effect(
                    old(self).region(),
                    x0,
                    x1,
                    y,
                    w,
                    xx,
                    yy,
                    old(self).cell_at(xx, yy),
                ),
    {
        let ghost g0 = *self;
        self.add_h_line(x0, x1, y, w);
        proof {
            assert forall|xx: int, yy: int| #![trigger self.cell_at(xx, yy)] in_area(g0.region(), xx, yy) implies arms_kept(g0.cell_at(xx, yy), self.cell_at(xx, yy)) by {
                lemma_effects_keep_arms(g0.region(), g0.region(), x0, x1, y, w, xx, yy, g0.cell_at(xx, yy));
            }
        }
    }

    /// [`EdgeGrid::add_v_line`], seen as growth of the grid.
    pub(crate) fn grow_v_line(&mut self, y0: u16, y1: u16, x: u16, w: LineWeight)
        requires
            old(self).wf(),
            old(self).region().fits(),
        ensures
            grid_grows(*old(self), *final(self)),
            final(self).wf(),
            final(self).region() == old(self).region(),
            forall|xx: int, yy: int|
                in_area(old(self).region(), xx, yy) ==> final(self).cell_at(xx, yy) == v_line_effect(
                    old(self).region(),
                    y0,
                    y1,
                    x,
                    w,
                    xx,
                    yy,
                    old(self).cell_at(xx, yy),
                ),
    {
        let ghost g0 = *self;
        self.add_v_line(y0, y1, x, w);
        proof {
            assert forall|xx: int, yy: int| #![trigger self.cell_at(xx, yy)] in_area(g0.region(), xx, yy) implies arms_kept(g0.cell_at(xx, yy), self.cell_at(xx, yy)) by {
                lemma_effects_keep_arms(g0.region(), g0.region(), y0, y1, x, w, xx, yy, g0.cell_at(xx, yy));
            }
        }
    }

    /// [`EdgeGrid::add_box`], seen as growth of the grid.
    pub(crate) fn grow_box(&mut self, area: Rect, w: LineWeight)
        requires
            old(self).wf(),
            old(self).region().fits(),
            area.fits(),
        ensures
            grid_grows(*old(self), *final(self)),
            final(self).wf(),
            final(self).region() == old(self).region(),
            forall|xx: int, yy: int|
                in_area(old(self).region(), xx, yy) ==> final(self).cell_at(xx, yy) == if area.width
                    == 0 || area.height == 0 {
                    old(self).cell_at(xx, yy)
                } else {
                    box_effect(old(self).region(), area, w, xx, yy, old(self).cell_at(xx, yy))
                },
    {
        let ghost g0 = *self;
        self.add_box(area, w);
        proof {
            assert forall|xx: int, yy: int| #![trigger self.cell_at(xx, yy)] in_area(g0.region(), xx, yy) implies arms_kept(g0.cell_at(xx, yy), self.cell_at(xx, yy)) by {
                lemma_effects_keep_arms(g0.region(), area, 0, 0, 0, w, xx, yy, g0.cell_at(xx, yy));
            }
        }
    }
}

} // verus!
