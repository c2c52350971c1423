use mullion::backend::sgr::{box_to_ascii, plan_frame, style_delta};
use mullion::buffer::Cell;
use mullion::geometry::Rect;
use mullion::record::VecRecordSource;
use mullion::style::{Color, ColorDepth, Modifier, Style};

#[test]
fn downsample_truecolor_keeps_rgb() {
    assert_eq!(Color::Rgb(200, 100, 50).downsample(ColorDepth::TrueColor), Color::Rgb(200, 100, 50));
}

#[test]
fn downsample_256_picks_cube_and_grey_entries() {
    assert_eq!(Color::Rgb(255, 0, 0).downsample(ColorDepth::Palette256), Color::Indexed(196));
    assert_eq!(Color::Rgb(128, 128, 128).downsample(ColorDepth::Palette256), Color::Indexed(244));
    assert_eq!(Color::Indexed(5).downsample(ColorDepth::Palette256), Color::Indexed(5));
    assert_eq!(Color::Red.downsample(ColorDepth::Palette256), Color::Red);
}

#[test]
fn downsample_16_picks_named_colours() {
    assert_eq!(Color::Rgb(255, 0, 0).downsample(ColorDepth::Palette16), Color::LightRed);
    assert_eq!(Color::Rgb(0, 0, 0).downsample(ColorDepth::Palette16), Color::Black);
    assert_eq!(Color::Indexed(196).downsample(ColorDepth::Palette16), Color::LightRed);
    assert_eq!(Color::Indexed(244).downsample(ColorDepth::Palette16), Color::DarkGray);
}

#[test]
fn style_delta_colour_change_keeps_attributes() {
    let from = Style { fg: Color::Red, bg: Color::Reset, mods: Modifier::bold() };
    let to = Style { fg: Color::Blue, bg: Color::Reset, mods: Modifier::bold() };
    let d = style_delta(Some(from), to);
    assert!(!d.reset);
    assert_eq!(d.fg, Some(Color::Blue));
    assert_eq!(d.bg, None);
    assert!(d.mods.is_empty());
}

#[test]
fn style_delta_dropping_an_attribute_resets() {
    let from = Style { fg: Color::Red, bg: Color::Reset, mods: Modifier::bold() };
    let to = Style { fg: Color::Red, bg: Color::Reset, mods: Modifier::empty() };
    let d = style_delta(Some(from), to);
    assert!(d.reset);
    assert_eq!(d.fg, Some(Color::Red));
    assert_eq!(d.bg, Some(Color::Reset));
}

#[test]
fn style_delta_from_unknown_state_resets() {
    let to = Style { fg: Color::Green, bg: Color::Black, mods: Modifier::italic() };
    let d = style_delta(None, to);
    assert!(d.reset);
    assert_eq!(d.mods, Modifier::italic());
}

#[test]
fn box_glyphs_map_to_ascii() {
    assert_eq!(box_to_ascii('─'), '-');
    assert_eq!(box_to_ascii('║'), '|');
    assert_eq!(box_to_ascii('┌'), '+');
    assert_eq!(box_to_ascii('╬'), '+');
    assert_eq!(box_to_ascii('a'), 'a');
}

#[test]
fn border_arc_walks_clockwise() {
    let r = Rect::new(0, 0, 6, 4);
    assert_eq!(r.border_arc(0, 0), Some((0, 16)));
    assert_eq!(r.border_arc(5, 0), Some((5, 16)));
    assert_eq!(r.border_arc(5, 2), Some((7, 16)));
    assert_eq!(r.border_arc(3, 3), Some((10, 16)));
    assert_eq!(r.border_arc(0, 2), Some((14, 16)));
    assert_eq!(r.border_arc(2, 1), None);
    assert_eq!(Rect::new(0, 0, 1, 4).border_arc(0, 0), None);
}

#[test]
fn rows_before_counts_smaller_keys() {
    let s = VecRecordSource::new(vec![(30u64, "c"), (10, "a"), (20, "b")]);
    assert_eq!(s.rows_before(20), 1);
    assert_eq!(s.rows_before(5), 0);
    assert_eq!(s.rows_before(31), 3);
}

#[test]
fn plan_frame_adjacent_cells_share_one_move() {
    let a = Cell::new("X", Style::default());
    let b = Cell::new("Y", Style::default());
    let changes = [(0u16, 0u16, &a), (1u16, 0u16, &b)];
    let (plans, last) = plan_frame(&changes, None, ColorDepth::TrueColor, true);
    assert!(plans[0].move_to);
    assert!(!plans[1].move_to);
    assert!(plans[0].delta.is_some());
    assert!(plans[1].delta.is_none());
    assert_eq!(plans[1].text, "Y");
    assert_eq!(last, Some(Style::default()));
}

#[test]
fn plan_frame_gap_and_wide_glyph_moves() {
    let wide = Cell::new("世", Style::default());
    let next = Cell::new("a", Style::default());
    let far = Cell::new("b", Style::default());
    let changes = [(0u16, 0u16, &wide), (2u16, 0u16, &next), (5u16, 0u16, &far)];
    let (plans, _) = plan_frame(&changes, Some(Style::default()), ColorDepth::TrueColor, true);
    assert!(!plans[1].move_to);
    assert!(plans[2].move_to);
    assert!(plans[0].delta.is_none());
}

#[test]
fn plan_frame_downsamples_and_maps_box_glyphs() {
    let c = Cell::new("─", Style { fg: Color::Rgb(255, 0, 0), bg: Color::Reset, mods: Modifier::empty() });
    let changes = [(0u16, 0u16, &c)];
    let (plans, last) = plan_frame(&changes, None, ColorDepth::Palette16, false);
    assert_eq!(plans[0].text, "-");
    let d = plans[0].delta.unwrap();
    assert!(d.reset);
    assert_eq!(d.fg, Some(Color::LightRed));
    assert_eq!(last.unwrap().fg, Color::LightRed);
}
