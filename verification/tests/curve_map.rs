use mullion::border::{BorderStyle, CornerStyle, LineWeight};
use mullion::buffer::Buffer;
use mullion::curve_map::{cell_glyph, draw_region_outline, fit_dims, render};
use mullion::geometry::Rect;
use mullion::spacefill::Gilbert;
use mullion::style::{Color, Style};

fn light_rounded() -> BorderStyle {
    BorderStyle { weight: LineWeight::Light, corners: CornerStyle::Rounded, style: Style::default() }
}

fn sym(buf: &Buffer, x: u16, y: u16) -> String {
    buf.get(x, y).symbol.clone()
}

#[test]
fn fit_dims_examples() {
    // A power-of-two count fills to one item per cell when the area allows.
    assert_eq!(fit_dims(Rect::new(0, 0, 40, 20), 16), (4, 4));
    // Wider-than-tall areas still pick the squarest among the finest grids.
    assert_eq!(fit_dims(Rect::new(0, 0, 64, 16), 256), (16, 16));
    // Tiny counts / degenerate areas collapse to a single cell.
    assert_eq!(fit_dims(Rect::new(0, 0, 40, 20), 1), (1, 1));
    assert_eq!(fit_dims(Rect::new(0, 0, 40, 20), 6), (1, 1)); // 6 = 2·3, only 2 divides — uneven
    assert_eq!(fit_dims(Rect::new(0, 0, 1, 20), 256), (1, 1)); // one column of cells
}

#[test]
fn render_paints_every_cell_and_the_glyphs_form_a_path() {
    let area = Rect::new(0, 0, 16, 8);
    let (w, h) = fit_dims(area, 64);
    let g = Gilbert::new(w, h);
    let mut buf = Buffer::empty(area);
    render(&mut buf, area, &g, |_| (Color::Rgb(200, 200, 200), Color::Rgb(10, 10, 10)));

    // Every cell position carries a curve glyph (never blank), over the painted bg.
    for d in 0..g.len() {
        let (gx, gy) = g.d_to_xy(d);
        let (bx, by) = (area.x + (gx as u16) * 2, area.y + gy as u16);
        let cell = buf.get(bx, by);
        assert!(
            matches!(cell.symbol.as_str(), "─" | "│" | "╭" | "╮" | "╰" | "╯" | "·"),
            "cell glyph {:?} at {bx},{by} is not a curve stroke",
            cell.symbol
        );
        assert_eq!(cell.style.bg, Color::Rgb(10, 10, 10), "background not painted at {bx},{by}");
    }

    // The path is connected: consecutive cells are 4-adjacent (the curve never jumps),
    // so each cell's glyph genuinely joins its neighbours.
    for d in 0..g.len().saturating_sub(1) {
        let here = g.d_to_xy(d);
        let next = g.d_to_xy(d + 1);
        assert_eq!(here.0.abs_diff(next.0) + here.1.abs_diff(next.1), 1, "curve jumped at d={d}");
    }
    // The curve's two ends are single strokes, never the lone-cell dot.
    assert_ne!(cell_glyph(&g, 0), '·');
    assert_ne!(cell_glyph(&g, g.len() - 1), '·');
}

#[test]
fn lone_cell_is_a_dot() {
    let g = Gilbert::new(1, 1);
    assert_eq!(cell_glyph(&g, 0), '·');
}

#[test]
fn one_cell_region_is_a_tiny_rounded_box() {
    let area = Rect::new(0, 0, 8, 8);
    let mut buf = Buffer::empty(area);
    draw_region_outline(&mut buf, area, |x, y| (x, y) == (3, 3), &light_rounded());
    // A clean 3×3 box on the ring around (3,3); the region cell itself untouched.
    assert_eq!(sym(&buf, 2, 2), "╭");
    assert_eq!(sym(&buf, 3, 2), "─");
    assert_eq!(sym(&buf, 4, 2), "╮");
    assert_eq!(sym(&buf, 2, 3), "│");
    assert_eq!(sym(&buf, 3, 3), " "); // region cell blank (untouched)
    assert_eq!(sym(&buf, 4, 3), "│");
    assert_eq!(sym(&buf, 2, 4), "╰");
    assert_eq!(sym(&buf, 3, 4), "─");
    assert_eq!(sym(&buf, 4, 4), "╯");
}

#[test]
fn rectangle_region_is_a_rounded_box_just_outside() {
    let area = Rect::new(0, 0, 12, 10);
    let mut buf = Buffer::empty(area);
    // Region cells x∈4..=6, y∈4..=5 → outline ring at x∈3..=7, y∈3..=6.
    let inside = |x: u16, y: u16| (4..=6).contains(&x) && (4..=5).contains(&y);
    draw_region_outline(&mut buf, area, inside, &light_rounded());
    assert_eq!(sym(&buf, 3, 3), "╭");
    assert_eq!(sym(&buf, 7, 3), "╮");
    assert_eq!(sym(&buf, 3, 6), "╰");
    assert_eq!(sym(&buf, 7, 6), "╯");
    assert_eq!(sym(&buf, 4, 3), "─"); // a top-edge run
    assert_eq!(sym(&buf, 3, 4), "│"); // a left-edge run
    assert_eq!(sym(&buf, 5, 5), " "); // region interior untouched (blank)
}

#[test]
fn l_shaped_region_is_a_single_closed_loop() {
    let area = Rect::new(0, 0, 18, 18);
    let mut buf = Buffer::empty(area);
    // A fat L: a 6×6 block (x,y ∈ 5..=10) minus its top-right 3×3 (x ∈ 8..=10, y ∈ 5..=7).
    let inside = |x: u16, y: u16| {
        let block = (5..=10).contains(&x) && (5..=10).contains(&y);
        let notch = (8..=10).contains(&x) && (5..=7).contains(&y);
        block && !notch
    };
    draw_region_outline(&mut buf, area, inside, &light_rounded());
    // A single closed loop: every drawn glyph is a 2-arm stroke (straight or rounded
    // corner) — no ├┤┬┴┼ junction and no dangling stub anywhere on the outline.
    let mut drawn = 0;
    for y in 0..18 {
        for x in 0..18 {
            let s = sym(&buf, x, y);
            if s.is_empty() || s == " " {
                continue; // a blank (untouched) cell
            }
            drawn += 1;
            assert!(matches!(s.as_str(), "─" | "│" | "╭" | "╮" | "╰" | "╯"), "junction/stub {s:?} at {x},{y}");
        }
    }
    assert!(drawn > 12, "expected a sizeable single loop, got {drawn} cells");
}


#[test]
fn fit_dims_prefers_squarest_then_wider() {
    // 32 cells fit as 8 x 4 (wider wins over 4 x 8 at equal squareness).
    assert_eq!(fit_dims(Rect::new(0, 0, 40, 20), 32), (8, 4));
    // A one-row area has no power of two >= 2 of rows: a single cell.
    assert_eq!(fit_dims(Rect::new(0, 0, 40, 1), 64), (1, 1));
}

#[test]
fn square_curve_cells_join_their_neighbours() {
    let g = Gilbert::new(2, 2);
    assert!(matches!(cell_glyph(&g, 0), '─' | '│'));
    assert!(matches!(cell_glyph(&g, 1), '╭' | '╮' | '╰' | '╯'));
}
