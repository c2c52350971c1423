use vstd::prelude::*;

use crate::buffer::{append_char, blank, cell_index, Buffer, CellView};
use crate::geometry::Rect;

verus! {

/// The symbols of the first `n` cells of row `y`, continuation cells contributing
/// nothing.
pub open spec fn row_text(v: Seq<CellView>, area: Rect, y: int, n: int) -> Seq<char>
    decreases n,
{
    if n <= 0 {
        Seq::empty()
    } else {
        row_text(v, area, y, n - 1) + v[cell_index(area, area.x + n - 1, y)].0
    }
}

/// The first `rows` rows of the grid as text, one line per row, separated by newlines.
pub open spec fn screen_text(v: Seq<CellView>, area: Rect, rows: int) -> Seq<char>
    decreases rows,
{
    if rows <= 0 {
        Seq::empty()
    } else {
        let before = screen_text(v, area, rows - 1);
        let sep = if rows > 1 {
            seq!['\n']
        } else {
            Seq::empty()
        };
        before + sep + row_text(v, area, area.y + rows - 1, area.right_spec() - area.x)
    }
}

/// A headless surface that keeps what is drawn in an in-memory buffer.
pub struct TestBackend {
    buffer: Buffer,
}

impl TestBackend {
    /// The surface's buffer.
    pub closed spec fn buf(&self) -> Buffer {
        self.buffer
    }

    /// A `width × height` surface, every cell blank.
    pub fn new(width: u16, height: u16) -> (t: Self)
        ensures
            t.buf().wf(),
            t.buf().area == (Rect { x: 0, y: 0, width: width, height: height }),
            forall|i: int| 0 <= i < t.buf().view().len() ==> #[trigger] t.buf().view()[i] == blank(),
    {
        TestBackend { buffer: Buffer::empty(Rect::new(0, 0, width, height)) }
    }

    /// Read access to the current buffer.
    pub fn buffer(&self) -> (r: &Buffer)
        ensures
            *r == self.buf(),
    {
        &self.buffer
    }

    /// Mutable access to the current buffer, for drawing a frame.
    pub fn buffer_mut(&mut self) -> (r: &mut Buffer)
        ensures
            *r == old(self).buf(),
            final(self).buf() == *final(r),
    {
        &mut self.buffer
    }

    /// Resize the surface; the content is discarded.
    pub fn resize(&mut self, width: u16, height: u16)
        ensures
            final(self).buf().wf(),
            final(self).buf().area == (Rect { x: 0, y: 0, width: width, height: height }),
            forall|i: int|
                0 <= i < final(self).buf().view().len() ==> #[trigger] final(self).buf().view()[i]
                    == blank(),
    {
        self.buffer.resize(Rect::new(0, 0, width, height));
    }

    /// The buffer as plain text, one line per row; continuation cells contribute no
    /// character.
    pub fn render(&self) -> (r: String)
        requires
            self.buf().wf(),
        ensures
            r@ == screen_text(
                self.buf().view(),
                self.buf().area,
                self.buf().area.bottom_spec() - self.buf().area.y,
            ),
    {
        let area = self.buffer.area;
        let ghost v = self.buffer.view();
        let mut out = String::new();
        let mut row = area.y;
        while row < area.bottom()
            invariant
                self.buffer.wf(),
                area == self.buffer.area,
                v == self.buffer.view(),
                area.y <= row <= area.bottom_spec(),
                out@ == screen_text(v, area, row - area.y),
            decreases area.bottom_spec() - row,
        {
            if row > area.y {
                append_char(&mut out, '\n');
            }
            let ghost line_start = out@;
            let mut col = area.x;
            while col < area.right()
                invariant
                    self.buffer.wf(),
                    area == self.buffer.area,
                    v == self.buffer.view(),
                    area.y <= row < area.bottom_spec(),
                    area.x <= col <= area.right_spec(),
                    out@ == line_start + row_text(v, area, row as int, col - area.x),
                decreases area.right_spec() - col,
            {
                proof {
                    crate::buffer::lemma_cell_index_bound(area, col as int, row as int);
                }
                let cell = self.buffer.get(col, row);
                if !cell.is_continuation() {
                    out.append(cell.symbol.as_str());
                }
                proof {
                    assert(row_text(v, area, row as int, col + 1 - area.x) == row_text(
                        v,
                        area,
                        row as int,
                        col - area.x,
                    ) + v[cell_index(area, col as int, row as int)].0);
                    if cell.symbol@.len() == 0 {
                        assert(out@ =~= line_start + row_text(v, area, row as int, col + 1 - area.x));
                    }
                }
                col = col + 1;
            }
            row = row + 1;
        }
        out
    }
}

} // verus!
