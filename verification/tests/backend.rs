use mullion::backend::sgr::{plan_frame, style_delta, CellPlan};
use mullion::buffer::Cell;
use mullion::capabilities::Capabilities;
use mullion::style::{Color, ColorDepth, Modifier, Style};

fn cell(symbol: &str, style: Style) -> Cell {
    Cell { symbol: symbol.to_string(), style }
}

fn plain(symbol: &str) -> Cell {
    cell(symbol, Style::default())
}

fn plan_one(c: &Cell, depth: ColorDepth, unicode: bool) -> CellPlan {
    let changes = [(0u16, 0u16, c)];
    let (mut plans, _) = plan_frame(&changes, None, depth, unicode);
    assert_eq!(plans.len(), 1);
    plans.remove(0)
}

fn is_rgb(c: Option<Color>) -> bool {
    matches!(c, Some(Color::Rgb(..)))
}

#[test]
fn adjacent_cells_share_one_move() {
    let (a, b) = (plain("X"), plain("Y"));
    let changes = [(0u16, 0u16, &a), (1u16, 0u16, &b)];
    let (plans, _) = plan_frame(&changes, None, ColorDepth::TrueColor, true);
    assert!(plans[0].move_to, "first cell needs a move");
    assert!(!plans[1].move_to, "adjacent cell must not re-emit a move");
}

#[test]
fn gap_between_cells_emits_a_move() {
    let (a, b) = (plain("X"), plain("Y"));
    let changes = [(0u16, 0u16, &a), (5u16, 0u16, &b)];
    let (plans, _) = plan_frame(&changes, None, ColorDepth::TrueColor, true);
    assert!(plans[0].move_to);
    assert!(plans[1].move_to, "non-adjacent cell needs its own move");
}

#[test]
fn wide_glyph_advances_the_cursor_by_its_width() {
    let (a, b) = (plain("世"), plain("Y"));
    let changes = [(0u16, 0u16, &a), (2u16, 0u16, &b)];
    let (plans, _) = plan_frame(&changes, None, ColorDepth::TrueColor, true);
    assert!(!plans[1].move_to, "a wide glyph leaves the cursor two columns on");
}

#[test]
fn color_depth_truecolor_emits_rgb_sequence() {
    let c = cell(
        "X",
        Style { fg: Color::Rgb(200, 100, 50), bg: Color::Reset, mods: Modifier::empty() },
    );
    let p = plan_one(&c, ColorDepth::TrueColor, true);
    let d = p.delta.expect("an unknown terminal style needs a style change");
    assert_eq!(d.fg, Some(Color::Rgb(200, 100, 50)), "TrueColor must keep the RGB foreground");
}

#[test]
fn color_depth_palette16_omits_rgb_sequence() {
    let c = cell(
        "X",
        Style { fg: Color::Rgb(200, 100, 50), bg: Color::Reset, mods: Modifier::empty() },
    );
    let p = plan_one(&c, ColorDepth::Palette16, true);
    let d = p.delta.expect("an unknown terminal style needs a style change");
    assert!(!is_rgb(d.fg), "Palette16 must not emit a truecolor foreground");
    assert!(!is_rgb(d.bg), "Palette16 must not emit a truecolor background");
}

#[test]
fn unicode_true_emits_box_char_unchanged() {
    let p = plan_one(&plain("─"), ColorDepth::TrueColor, true);
    assert_eq!(p.text, "─", "unicode=true must emit the glyph as-is");
}

#[test]
fn unicode_false_maps_horizontal_box_char_to_dash() {
    let p = plan_one(&plain("─"), ColorDepth::TrueColor, false);
    assert!(!p.text.contains('─'), "unicode=false must replace the glyph");
    assert!(p.text.contains('-'), "unicode=false must emit '-' for a horizontal line");
}

#[test]
fn unicode_false_maps_corner_to_plus() {
    let p = plan_one(&plain("┌"), ColorDepth::TrueColor, false);
    assert!(p.text.contains('+'), "unicode=false must emit '+' for a corner");
}

#[test]
fn unicode_false_maps_vertical_to_bar_and_keeps_plain_text() {
    let p = plan_one(&plain("│"), ColorDepth::TrueColor, false);
    assert_eq!(p.text, "|");
    let q = plan_one(&plain("a"), ColorDepth::TrueColor, false);
    assert_eq!(q.text, "a");
}

#[test]
fn apply_capabilities_combines_color_and_unicode() {
    let caps = Capabilities { color: ColorDepth::Palette16, unicode: false, synchronized_output: true };
    let c = cell("─", Style { fg: Color::Rgb(255, 0, 0), bg: Color::Reset, mods: Modifier::empty() });
    let p = plan_one(&c, caps.color, caps.unicode);
    let d = p.delta.expect("an unknown terminal style needs a style change");
    assert!(!is_rgb(d.fg), "Palette16 must not emit a truecolor foreground");
    assert!(!p.text.contains('─'), "unicode=false must replace the glyph");
    assert!(p.text.contains('-'), "unicode=false must emit '-'");
}

#[test]
fn emit_style_colour_only_change_skips_reset() {
    let from = Style { fg: Color::Red, bg: Color::Reset, mods: Modifier::bold() };
    let to = Style { fg: Color::Blue, bg: Color::Reset, mods: Modifier::bold() };
    let d = style_delta(Some(from), to);
    assert!(!d.reset, "same modifiers and a colour change must not reset");
    assert_eq!(d.fg, Some(Color::Blue), "the colour change must still be emitted");
    assert_eq!(d.bg, None);
}

#[test]
fn emit_style_removing_a_modifier_resets() {
    let from = Style { fg: Color::Red, bg: Color::Reset, mods: Modifier::bold() };
    let to = Style { fg: Color::Red, bg: Color::Reset, mods: Modifier::empty() };
    let d = style_delta(Some(from), to);
    assert!(d.reset, "removing a modifier must emit a reset");
    assert_eq!(d.fg, Some(Color::Red));
}

#[test]
fn unchanged_style_needs_no_delta() {
    let (a, b) = (plain("X"), plain("Y"));
    let changes = [(0u16, 0u16, &a), (1u16, 0u16, &b)];
    let (plans, last) = plan_frame(&changes, None, ColorDepth::TrueColor, true);
    assert!(plans[0].delta.is_some());
    assert!(plans[1].delta.is_none(), "the terminal already shows the style");
    assert_eq!(last, Some(Style::default()));
}
