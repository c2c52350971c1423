use vstd::prelude::*;

use crate::border::{deflate_spec, draw_box, draw_box_spec, put_strokes, BorderStyle, Borders};
use crate::buffer::{cell_index, space, Buffer, Cell, CellView};
use crate::geometry::Rect;
use crate::label::{label_fits, label_strokes, try_draw_label, Align, Label, Side};
use crate::style::Style;

verus! {

/// How to dress a panel: its frame, an optional interior clear, and optional title
/// and footer text drawn over the border in the border's style.
pub struct Panel<'a> {
    /// The frame style.
    pub border: BorderStyle,
    /// `None` leaves the interior as it is; `Some(style)` clears it to blanks in
    /// `style` first.
    pub fill: Option<Style>,
    /// Optional title, centred over the top border.
    pub title: Option<&'a str>,
    /// Optional footer hint, centred over the bottom border.
    pub footer: Option<&'a str>,
}

impl<'a> Panel<'a> {
    /// A panel with the given border, no fill, and no title or footer.
    pub fn new(border: BorderStyle) -> (p: Self)
        ensures
            p.border == border,
            p.fill is None,
            p.title is None,
            p.footer is None,
    {
        Panel { border, fill: None, title: None, footer: None }
    }

    /// Clear the interior to `style` before painting.
    pub fn fill(self, style: Style) -> (p: Self)
        ensures
            p.border == self.border,
            p.fill == Some(style),
            p.title == self.title,
            p.footer == self.footer,
    {
        Panel { fill: Some(style), ..self }
    }

    /// Set the centred top-border title.
    pub fn title(self, text: &'a str) -> (p: Self)
        ensures
            p.border == self.border,
            p.fill == self.fill,
            p.title == Some(text),
            p.footer == self.footer,
    {
        Panel { title: Some(text), ..self }
    }

    /// Set the centred bottom-border footer hint.
    pub fn footer(self, text: &'a str) -> (p: Self)
        ensures
            p.border == self.border,
            p.fill == self.fill,
            p.title == self.title,
            p.footer == Some(text),
    {
        Panel { footer: Some(text), ..self }
    }
}

/// `after` is `before` with every cell of `barea` that lies in `rect` replaced by `c`.
pub open spec fn filled(before: Seq<CellView>, after: Seq<CellView>, barea: Rect, rect: Rect, c: CellView) -> bool {
    &&& after.len() == before.len()
    &&& forall|x: int, y: int|
        barea.contains_spec(x, y) ==> #[trigger] after[cell_index(barea, x, y)] == if barea.intersection_spec(
            rect,
        ).contains_spec(x, y) {
            c
        } else {
            before[cell_index(barea, x, y)]
        }
}

/// The cells after a centred label with `text` is drawn on `side` of `area`, when it
/// fits its 16-bit bounds; unchanged otherwise or without text.
pub open spec fn edge_label(v: Seq<CellView>, barea: Rect, area: Rect, text: Option<&str>, side: Side, style: Style) -> Seq<CellView> {
    match text {
        Some(t) => if label_fits(area, t@, side, 0) {
            put_strokes(v, barea, label_strokes(area, t@, side, Align::Center, 0), style)
        } else {
            v
        },
        None => v,
    }
}

/// Draw `panel`'s chrome into `area` and return the interior: clear the interior to
/// the fill style when there is one, draw the four-sided frame, then the title over
/// the top border and the footer over the bottom one, centred.  The interior is
/// `area` shrunk by one cell on every side, empty for an area under 3×3.  A title or
/// footer too long for 16-bit arithmetic is left out.
pub fn draw_panel(buf: &mut Buffer, area: Rect, panel: &Panel) -> (interior: Rect)
    requires
        old(buf).wf(),
    ensures
        final(buf).wf(),
        final(buf).area == old(buf).area,
        interior == deflate_spec(area),
        exists|v1: Seq<CellView>|
            #![trigger draw_box_spec(v1, old(buf).area, area, Borders { bits: 15 }, panel.border)]
            (match panel.fill {
                Some(st) => filled(old(buf).view(), v1, old(buf).area, interior, (space(), st)),
                None => v1 == old(buf).view(),
            }) && final(buf).view() == edge_label(
                edge_label(
                    draw_box_spec(v1, old(buf).area, area, Borders { bits: 15 }, panel.border),
                    old(buf).area,
                    area,
                    panel.title,
                    Side::Top,
                    panel.border.style,
                ),
                old(buf).area,
                area,
                panel.footer,
                Side::Bottom,
                panel.border.style,
            ),
{
    let interior = Rect::new(
        area.x.saturating_add(1),
        area.y.saturating_add(1),
        area.width.saturating_sub(2),
        area.height.saturating_sub(2),
    );
    let ghost v0 = buf.view();
    let ghost barea = buf.area;
    if let Some(style) = panel.fill {
        proof {
            reveal_strlit(" ");
        }
        buf.fill(interior, Cell::new(" ", style));
    }
    let ghost v1 = buf.view();
    proof {
        if let Some(st) = panel.fill {
            assert(" "@ =~= space());
            assert forall|x: int, y: int| barea.contains_spec(x, y) implies #[trigger] v1[cell_index(barea, x, y)]
                == if barea.intersection_spec(interior).contains_spec(x, y) {
                (space(), st)
            } else {
                v0[cell_index(barea, x, y)]
            } by {
                assert(buf.cell(x, y) == v1[cell_index(barea, x, y)]);
            }
        }
    }
    draw_box(buf, area, Borders::all(), &panel.border);
    if let Some(title) = panel.title {
        let _ = try_draw_label(
            buf,
            area,
            &Label { text: title.to_owned(), side: Side::Top, align: Align::Center, offset: 0 },
            &panel.border.style,
        );
    }
    if let Some(footer) = panel.footer {
        let _ = try_draw_label(
            buf,
            area,
            &Label { text: footer.to_owned(), side: Side::Bottom, align: Align::Center, offset: 0 },
            &panel.border.style,
        );
    }
    interior
}

} // verus!
