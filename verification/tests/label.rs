use mullion::border::{draw_box, render_shared, BorderStyle, Borders, CornerStyle, LineWeight};
use mullion::buffer::Buffer;
use mullion::geometry::Rect;
use mullion::label::{draw_label, label_period, Align, Label, Side};
use mullion::layout::{Constraint, Node, Orientation, Size};
use mullion::style::Style;

// ── Helpers ───────────────────────────────────────────────────────────────

fn light_box_style() -> BorderStyle {
    BorderStyle {
        weight:  LineWeight::Light,
        corners: CornerStyle::Square,
        style:   Style::default(),
    }
}

/// Draw a light square box around `rect` in `buf`.
fn frame(buf: &mut Buffer, rect: Rect) {
    draw_box(buf, rect, Borders::all(), &light_box_style());
}

fn label(text: &str, side: Side, align: Align, offset: u16) -> Label {
    Label { text: text.into(), side, align, offset }
}

// ── Horizontal fit + alignment ────────────────────────────────────────────

#[test]
fn h_label_fit_start() {
    // Rect 8 wide: run = x=1..6 (6 cells).  "Hi" (2 cols) → x=1,2.
    let rect = Rect::new(0, 0, 8, 3);
    let mut buf = Buffer::empty(rect);
    frame(&mut buf, rect);
    draw_label(&mut buf, rect, &label("Hi", Side::Top, Align::Start, 0), &Style::default());

    assert_eq!(buf.get(0, 0).symbol, "┌", "left corner untouched");
    assert_eq!(buf.get(1, 0).symbol, "H");
    assert_eq!(buf.get(2, 0).symbol, "i");
    assert_eq!(buf.get(3, 0).symbol, "─", "border glyph preserved after text");
    assert_eq!(buf.get(7, 0).symbol, "┐", "right corner untouched");
}

#[test]
fn h_label_fit_center() {
    // Rect 10 wide: run = 8 cells.  "Hi" (2 cols), center → offset = (8-2)/2 = 3
    // → x=4, x=5.
    let rect = Rect::new(0, 0, 10, 3);
    let mut buf = Buffer::empty(rect);
    frame(&mut buf, rect);
    draw_label(&mut buf, rect, &label("Hi", Side::Top, Align::Center, 0), &Style::default());

    assert_eq!(buf.get(0, 0).symbol, "┌");
    assert_eq!(buf.get(1, 0).symbol, "─"); // before label
    assert_eq!(buf.get(4, 0).symbol, "H");
    assert_eq!(buf.get(5, 0).symbol, "i");
    assert_eq!(buf.get(6, 0).symbol, "─"); // after label
    assert_eq!(buf.get(9, 0).symbol, "┐");
}

#[test]
fn h_label_fit_end() {
    // Bottom edge, End align. Rect 8×3: run_len=6. "Hi" → x=5,6 on y=2.
    let rect = Rect::new(0, 0, 8, 3);
    let mut buf = Buffer::empty(rect);
    frame(&mut buf, rect);
    draw_label(&mut buf, rect, &label("Hi", Side::Bottom, Align::End, 0), &Style::default());

    assert_eq!(buf.get(0, 2).symbol, "└");
    assert_eq!(buf.get(1, 2).symbol, "─");
    assert_eq!(buf.get(5, 2).symbol, "H");
    assert_eq!(buf.get(6, 2).symbol, "i");
    assert_eq!(buf.get(7, 2).symbol, "┘");
}

// ── Horizontal marquee ────────────────────────────────────────────────────

#[test]
fn h_label_marquee_windows() {
    // "ABCDE" (5 cols) on a run of 3 → marquee, period = 5+3 = 8.
    // Virtual: A B C D E _ _ _   (indices 0-7, _ = gap space)
    let rect = Rect::new(0, 0, 5, 3); // run_len = 3
    let do_draw = |offset: u16| -> [String; 3] {
        let mut buf = Buffer::empty(rect);
        frame(&mut buf, rect);
        draw_label(&mut buf, rect, &label("ABCDE", Side::Top, Align::Start, offset), &Style::default());
        [
            buf.get(1, 0).symbol.clone(),
            buf.get(2, 0).symbol.clone(),
            buf.get(3, 0).symbol.clone(),
        ]
    };

    assert_eq!(do_draw(0), ["A", "B", "C"], "offset 0: first three chars");
    assert_eq!(do_draw(1), ["B", "C", "D"], "offset 1: slide by one");
    assert_eq!(do_draw(4), ["E", " ", " "], "offset 4: last char + gap");
    assert_eq!(do_draw(5), [" ", " ", " "], "offset 5: all gap");
    // offset=8 wraps to 0: same as offset 0
    assert_eq!(do_draw(8), ["A", "B", "C"], "offset 8 wraps to 0");
}

#[test]
fn h_label_marquee_wrap_boundary() {
    // "ABCDE" period=8, run=3. At offset=6 the window is [6,9) mod 8.
    // Virtual slots 6,7,0 → ' ',' ','A'.
    let rect = Rect::new(0, 0, 5, 3);
    let mut buf = Buffer::empty(rect);
    frame(&mut buf, rect);
    draw_label(&mut buf, rect, &label("ABCDE", Side::Top, Align::Start, 6), &Style::default());

    assert_eq!(buf.get(1, 0).symbol, " ");
    assert_eq!(buf.get(2, 0).symbol, " ");
    assert_eq!(buf.get(3, 0).symbol, "A", "wraps from gap back to text start");
}

// ── label_period ─────────────────────────────────────────────────────────

#[test]
fn label_period_values() {
    // Fits → None.
    assert_eq!(label_period("Hi",    5, Side::Top),  None);   // 2 ≤ 5
    assert_eq!(label_period("Hello", 5, Side::Top),  None);   // 5 ≤ 5
    // Overflows → Some(cols + 3).
    assert_eq!(label_period("Hello!", 5, Side::Top),  Some(9)); // 6+3
    assert_eq!(label_period("ABCDE",  3, Side::Top),  Some(8)); // 5+3
    // Vertical: counts only narrow graphemes.
    assert_eq!(label_period("A\u{4e16}B", 3, Side::Left), None);    // 2 narrow ≤ 3
    assert_eq!(label_period("ABCD",        3, Side::Left), Some(7)); // 4+3
}

// ── Vertical upright stack ────────────────────────────────────────────────

#[test]
fn v_label_upright_stack() {
    // "ABC" on Left edge of a 3×5 rect: run = rows 1..3 (3 rows).
    // Start align: A@(0,1), B@(0,2), C@(0,3).  Corners and row 4 unchanged.
    let rect = Rect::new(0, 0, 3, 5);
    let mut buf = Buffer::empty(rect);
    frame(&mut buf, rect);
    draw_label(&mut buf, rect, &label("ABC", Side::Left, Align::Start, 0), &Style::default());

    assert_eq!(buf.get(0, 0).symbol, "┌", "top-left corner untouched");
    assert_eq!(buf.get(0, 1).symbol, "A", "upright A on row 1");
    assert_eq!(buf.get(0, 2).symbol, "B", "upright B on row 2");
    assert_eq!(buf.get(0, 3).symbol, "C", "upright C on row 3");
    assert_eq!(buf.get(0, 4).symbol, "└", "bottom-left corner untouched");
}

#[test]
fn v_label_fit_center() {
    // "AB" on Right edge of a 3×6 rect: run_len=4, text_count=2.
    // Center: (4-2)/2 = 1 → rows 2,3 of the run (run starts at row 1).
    let rect = Rect::new(0, 0, 3, 6);
    let mut buf = Buffer::empty(rect);
    frame(&mut buf, rect);
    draw_label(&mut buf, rect, &label("AB", Side::Right, Align::Center, 0), &Style::default());

    let rx = rect.width - 1; // right column = 2
    assert_eq!(buf.get(rx, 0).symbol, "┐");
    assert_eq!(buf.get(rx, 1).symbol, "│"); // border preserved before label
    assert_eq!(buf.get(rx, 2).symbol, "A");
    assert_eq!(buf.get(rx, 3).symbol, "B");
    assert_eq!(buf.get(rx, 4).symbol, "│"); // border preserved after label
    assert_eq!(buf.get(rx, 5).symbol, "┘");
}

#[test]
fn v_label_fit_end() {
    // "AB" on Left edge, End align, 3×6 rect: run_len=4.
    // End: (4-2) = 2 offset → rows 3,4.
    let rect = Rect::new(0, 0, 3, 6);
    let mut buf = Buffer::empty(rect);
    frame(&mut buf, rect);
    draw_label(&mut buf, rect, &label("AB", Side::Left, Align::End, 0), &Style::default());

    assert_eq!(buf.get(0, 1).symbol, "│"); // border before label
    assert_eq!(buf.get(0, 2).symbol, "│"); // border before label
    assert_eq!(buf.get(0, 3).symbol, "A");
    assert_eq!(buf.get(0, 4).symbol, "B");
    assert_eq!(buf.get(0, 5).symbol, "└");
}

// ── Vertical marquee ──────────────────────────────────────────────────────

#[test]
fn v_label_marquee() {
    // "ABCDE" (5 narrow chars) on Left, run_len=3 → marquee, period=8.
    // Virtual: A B C D E _ _ _  (rows 0-7, _ = blank)
    let rect = Rect::new(0, 0, 3, 5); // run_len = 3
    let do_draw = |offset: u16| -> [String; 3] {
        let mut buf = Buffer::empty(rect);
        frame(&mut buf, rect);
        draw_label(&mut buf, rect, &label("ABCDE", Side::Left, Align::Start, offset), &Style::default());
        [
            buf.get(0, 1).symbol.clone(),
            buf.get(0, 2).symbol.clone(),
            buf.get(0, 3).symbol.clone(),
        ]
    };

    assert_eq!(do_draw(0), ["A", "B", "C"]);
    assert_eq!(do_draw(2), ["C", "D", "E"]);
    assert_eq!(do_draw(5), [" ", " ", " "], "all gap");
    assert_eq!(do_draw(6), [" ", " ", "A"], "wraps: slots 6,7,0");
    assert_eq!(do_draw(8), ["A", "B", "C"], "period=8 wraps to 0");
}

// ── Wide-grapheme handling ────────────────────────────────────────────────

#[test]
fn wide_grapheme_h_right_edge_blanked() {
    // "A世" is 3 display cols.  run_len=2 → marquee (period=3+3=6).
    // At offset=0: window [0,2).  A(1) fits; 世(2) straddles right → blank.
    let rect = Rect::new(0, 0, 4, 3); // run_len = 2
    let mut buf = Buffer::empty(rect);
    frame(&mut buf, rect);
    draw_label(
        &mut buf, rect,
        &label("A\u{4e16}", Side::Top, Align::Start, 0),
        &Style::default(),
    );

    assert_eq!(buf.get(1, 0).symbol, "A");
    assert_eq!(buf.get(2, 0).symbol, " ", "right half of 世 blanked, not rendered");
    assert_eq!(buf.get(0, 0).symbol, "┌");
    assert_eq!(buf.get(3, 0).symbol, "┐");
}

#[test]
fn wide_grapheme_h_left_edge_blanked() {
    // "A世B" = 4 cols, run_len=3 → marquee (period=7).
    // At offset=2: window [2,5).  世 occupies cols 1-2; col 2 is the right
    // half → blank it.  Then B and a gap space fill the rest.
    let rect = Rect::new(0, 0, 5, 3); // run_len = 3
    let mut buf = Buffer::empty(rect);
    frame(&mut buf, rect);
    draw_label(
        &mut buf, rect,
        &label("A\u{4e16}B", Side::Top, Align::Start, 2),
        &Style::default(),
    );

    assert_eq!(buf.get(1, 0).symbol, " ", "right half of 世 at left edge blanked");
    assert_eq!(buf.get(2, 0).symbol, "B");
    assert_eq!(buf.get(3, 0).symbol, " ", "gap space");
}

#[test]
fn wide_grapheme_v_skipped() {
    // "A世B": 世 is width-2, skipped on vertical label → A, B on rows 1,2.
    // "AB" fits in run_len=3, Start align.
    let rect = Rect::new(0, 0, 3, 5);
    let mut buf = Buffer::empty(rect);
    frame(&mut buf, rect);
    draw_label(
        &mut buf, rect,
        &label("A\u{4e16}B", Side::Left, Align::Start, 0),
        &Style::default(),
    );

    assert_eq!(buf.get(0, 0).symbol, "┌");
    assert_eq!(buf.get(0, 1).symbol, "A", "A drawn at row 1");
    assert_eq!(buf.get(0, 2).symbol, "B", "B drawn at row 2 — 世 consumed no row");
    assert_eq!(buf.get(0, 3).symbol, "│", "border preserved where no text");
    assert_eq!(buf.get(0, 4).symbol, "└");
}

// ── Degenerate inputs ─────────────────────────────────────────────────────

#[test]
fn degenerate_rect_too_small_no_panic() {
    // Width/height < 3 → run is empty → no-op; must not panic.
    let tiny = Rect::new(0, 0, 2, 2);
    let mut buf = Buffer::empty(tiny);
    draw_label(&mut buf, tiny, &label("Hello", Side::Top,  Align::Start, 0), &Style::default());
    draw_label(&mut buf, tiny, &label("Hello", Side::Left, Align::Start, 0), &Style::default());
    // Buffer untouched (all spaces).
    assert_eq!(buf.get(0, 0).symbol, " ");
}

#[test]
fn degenerate_empty_text_no_op() {
    let rect = Rect::new(0, 0, 10, 3);
    let mut buf = Buffer::empty(rect);
    frame(&mut buf, rect);
    let snapshot: Vec<String> = (0..10).map(|x| buf.get(x, 0).symbol.clone()).collect();
    draw_label(&mut buf, rect, &label("", Side::Top, Align::Start, 0), &Style::default());
    let after: Vec<String> = (0..10).map(|x| buf.get(x, 0).symbol.clone()).collect();
    assert_eq!(snapshot, after, "empty text must not modify the buffer");
}

#[test]
fn degenerate_large_offset_no_panic() {
    // offset=99999 → wraps via modulo; must not panic or index out of bounds.
    let rect = Rect::new(0, 0, 5, 3);
    let mut buf = Buffer::empty(rect);
    frame(&mut buf, rect);
    draw_label(
        &mut buf, rect,
        &label("ABCDE", Side::Top, Align::Start, 9999),
        &Style::default(),
    );
    // 9999 % 8 = 7 → window starts at slot 7 (last gap space).
    // Slots 7, 0, 1 → ' ', 'A', 'B'.
    assert_eq!(buf.get(1, 0).symbol, " ");
    assert_eq!(buf.get(2, 0).symbol, "A");
    assert_eq!(buf.get(3, 0).symbol, "B");
}

// ── Composition: junctions and corners survive a label pass ───────────────

#[test]
fn composition_shared_border_junction_intact() {
    // 2×2 shared-border grid (4 tiles) in a 13×7 buffer.
    // Inner area: 11×5.  H-split divider at x=6, V-split divider at y=3.
    // ┼ junction at (6, 3).
    //
    // Draw a Top label on the outer rect of tile 0 (top-left).
    // The label runs on row 0, x=1..5 — far from the ┼ — so the junction
    // must be unchanged, proving draw_label never touches interior cells.
    let area = Rect::new(0, 0, 13, 7);
    let mut buf = Buffer::empty(area);

    let mut root = Node::Split {
        orientation: Orientation::Vertical,
        children: vec![
            (Constraint::new(Size::Fill(1)), Node::Split {
                orientation: Orientation::Horizontal,
                children: vec![
                    (Constraint::new(Size::Fill(1)), Node::Tile(0)),
                    (Constraint::new(Size::Fill(1)), Node::Tile(1)),
                ],
            }),
            (Constraint::new(Size::Fill(1)), Node::Split {
                orientation: Orientation::Horizontal,
                children: vec![
                    (Constraint::new(Size::Fill(1)), Node::Tile(2)),
                    (Constraint::new(Size::Fill(1)), Node::Tile(3)),
                ],
            }),
        ],
    };
    render_shared(&mut buf, &mut root, area, &light_box_style(), &[]);

    // Verify the ┼ is where expected before the label pass.
    assert_eq!(buf.get(6, 3).symbol, "┼", "┼ must be present after render_shared");

    // Tile 0 occupies the top-left; its outer box in shared-border mode
    // runs from (0,0) to (6,3) inclusive → Rect::new(0, 0, 7, 4).
    let tile0_rect = Rect::new(0, 0, 7, 4);
    draw_label(
        &mut buf, tile0_rect,
        &label("Tile-0", Side::Top, Align::Center, 0),
        &Style::default(),
    );

    // Junction and corners must be unchanged.
    assert_eq!(buf.get(6, 3).symbol, "┼", "┼ untouched by label");
    assert_eq!(buf.get(0, 0).symbol, "┌", "top-left outer corner untouched");
    assert_eq!(buf.get(6, 0).symbol, "┬", "top ┬ junction untouched");
    assert_eq!(buf.get(0, 3).symbol, "├", "left ├ junction untouched");

    // The run cells at row 0, x=1..5 must have been written by the label.
    // "Tile-0" = 6 cols, run_len = 5 → marquee, period=9.
    // offset=0 → 'T','i','l','e','-' at x=1..5.
    assert_eq!(buf.get(1, 0).symbol, "T");
    assert_eq!(buf.get(2, 0).symbol, "i");
    assert_eq!(buf.get(3, 0).symbol, "l");
    assert_eq!(buf.get(4, 0).symbol, "e");
    assert_eq!(buf.get(5, 0).symbol, "-");
}
