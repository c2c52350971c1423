use vstd::prelude::*;

use crate::geometry::{mirror_rects_in, mirror_x, sat_sub, Direction, Rect};
use crate::label::{BaseDirection, TextCtx};

verus! {

/// The three rects a form row resolves to: the label, the input field, and a trailing
/// status cell.
#[derive(Debug, Clone, Copy, PartialEq, Eq, Structural)]
pub struct FormRow {
    pub label: Rect,
    pub field: Rect,
    pub status: Rect,
}

/// A `label : [field] [status]` row template; `status_cols == 0` leaves the status cell
/// zero wide.
#[derive(Debug, Clone, Copy, PartialEq, Eq, Structural)]
pub struct FormLayout {
    /// Width of the label gutter.
    pub label_cols: u16,
    /// Spacer columns between the label and the field.
    pub gap: u16,
    /// Width of the trailing status gutter.
    pub status_cols: u16,
    /// Row height in cells; 0 counts as 1.
    pub row_height: u16,
}

/// A field's validation state.
#[derive(Debug, Clone, PartialEq, Eq)]
pub enum Validity {
    /// Valid.
    Valid,
    /// A caution, with its message.
    Warn(String),
    /// An error, with its message.
    Error(String),
    /// No marker.
    Unmarked,
}

/// The row height used: at least one.
pub open spec fn row_h(l: FormLayout) -> int {
    if l.row_height >= 1 {
        l.row_height as int
    } else {
        1
    }
}

/// The field's width: what the label, gap and status gutters leave of `width`.
pub open spec fn field_w(l: FormLayout, width: u16) -> u16 {
    sat_sub(sat_sub(sat_sub(width, l.label_cols) as u16, l.gap) as u16, l.status_cols) as u16
}

/// `r` with its `x` mirrored about the row `row`.
pub open spec fn mirrored(row: Rect, r: Rect) -> Rect {
    Rect { x: mirror_x(row, r), ..r }
}

/// Row `i` of the form laid out in `area`: label, gap, field and status left to right
/// from `area.x`, `row_h` high and `i` rows down; mirrored about the row under a
/// right-to-left base.
pub open spec fn row_spec(l: FormLayout, area: Rect, i: int, rtl: bool) -> FormRow {
    let rh = row_h(l);
    let y = area.y + i * rh;
    let fx = area.x + l.label_cols + l.gap;
    let fw = field_w(l, area.width);
    let label = Rect { x: area.x, y: y as u16, width: l.label_cols, height: rh as u16 };
    let field = Rect { x: fx as u16, y: y as u16, width: fw, height: rh as u16 };
    let status = Rect { x: (fx + fw) as u16, y: y as u16, width: l.status_cols, height: rh as u16 };
    if rtl {
        let row = Rect { x: area.x, y: y as u16, width: area.width, height: rh as u16 };
        FormRow { label: mirrored(row, label), field: mirrored(row, field), status: mirrored(row, status) }
    } else {
        FormRow { label, field, status }
    }
}

/// How many rows of the form fit: `n`, or as many as start inside `area`.
pub open spec fn rows_fitting(l: FormLayout, area: Rect, n: int) -> int {
    let fit = (area.height + row_h(l) - 1) / row_h(l);
    if n <= fit {
        n
    } else {
        fit
    }
}

impl FormLayout {
    /// Lay out `n` stacked rows in `area`, stopping at the first row that would start
    /// below it; under a right-to-left `ctx` each row's rects are mirrored (label on the
    /// right).  The field takes what the fixed gutters leave.
    pub fn rows(&self, area: Rect, n: usize, ctx: TextCtx) -> (out: Vec<FormRow>)
        requires
            area.fits(),
            area.x + self.label_cols + self.gap <= u16::MAX,
        ensures
            out@.len() == rows_fitting(*self, area, n as int),
            forall|i: int|
                0 <= i < out@.len() ==> #[trigger] out@[i] == row_spec(
                    *self,
                    area,
                    i,
                    ctx.base == BaseDirection::Rtl,
                ),
    {
        let mut out: Vec<FormRow> = Vec::new();
        let rh: u16 = if self.row_height >= 1 {
            self.row_height
        } else {
            1
        };
        let fw = area.width.saturating_sub(self.label_cols).saturating_sub(self.gap).saturating_sub(
            self.status_cols,
        );
        let rtl = match ctx.base {
            BaseDirection::Rtl => true,
            _ => false,
        };
        let bottom: u64 = area.y as u64 + area.height as u64;
        let ghost fit = (area.height + rh - 1) / (rh as int);
        let mut i: usize = 0;
        while i < n
            invariant
                area.fits(),
                area.x + self.label_cols + self.gap <= u16::MAX,
                rh as int == row_h(*self),
                fw == field_w(*self, area.width),
                rtl == (ctx.base == BaseDirection::Rtl),
                bottom == area.y + area.height,
                fit == (area.height + rh - 1) / (rh as int),
                i <= n,
                i <= fit,
                out@.len() == i,
                forall|k: int| 0 <= k < i ==> #[trigger] out@[k] == row_spec(*self, area, k, rtl),
            ensures
                out@.len() == rows_fitting(*self, area, n as int),
                forall|k: int| 0 <= k < out@.len() ==> #[trigger] out@[k] == row_spec(*self, area, k, rtl),
            decreases n - i,
        {
            proof {
                assert(fit <= area.height + rh) by (nonlinear_arith)
                    requires
                        rh >= 1,
                        fit == (area.height + rh - 1) / (rh as int),
                        area.height >= 0,
                ;
                assert(i * rh <= 131070 * 65535) by (nonlinear_arith)
                    requires
                        0 <= i <= 131070,
                        1 <= rh <= 65535,
                ;
            }
            let y64: u64 = area.y as u64 + (i as u64) * (rh as u64);
            proof {
                assert(i * rh >= area.height <==> i >= fit) by (nonlinear_arith)
                    requires
                        rh >= 1,
                        fit == (area.height + rh - 1) / (rh as int),
                        i >= 0,
                        area.height >= 0,
                ;
            }
            if y64 >= bottom {
                break;
            }
            let y = y64 as u16;
            let lx = area.x;
            let fx = lx + self.label_cols + self.gap;
            proof {
                assert(fx + fw <= u16::MAX) by {
                    if self.label_cols + self.gap <= area.width {
                    }
                }
            }
            let sx = fx + fw;
            let mut trio = [
                Rect::new(lx, y, self.label_cols, rh),
                Rect::new(fx, y, fw, rh),
                Rect::new(sx, y, self.status_cols, rh),
            ];
            if rtl {
                mirror_rects_in(Rect::new(area.x, y, area.width, rh), &mut trio);
            }
            out.push(FormRow { label: trio[0], field: trio[1], status: trio[2] });
            i = i + 1;
        }
        out
    }
}

/// Step a focused index over `n` fields with wraparound: Down and Right advance, Up
/// and Left retreat; `current` is kept when there are no fields.
pub fn focus_step(n: usize, current: usize, dir: Direction) -> (r: usize)
    requires
        n > 0 ==> match dir {
            Direction::Down | Direction::Right => current < usize::MAX,
            Direction::Up | Direction::Left => current + n <= usize::MAX,
        },
    ensures
        n == 0 ==> r == current,
        n > 0 ==> r == match dir {
            Direction::Down | Direction::Right => (current + 1) % (n as int),
            Direction::Up | Direction::Left => (current + n - 1) % (n as int),
        },
{
    if n == 0 {
        return current;
    }
    match dir {
        Direction::Down | Direction::Right => (current + 1) % n,
        Direction::Up | Direction::Left => (current + n - 1) % n,
    }
}

} // verus!
