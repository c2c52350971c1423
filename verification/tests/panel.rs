use mullion::backend::TestBackend;
use mullion::border::{BorderStyle, CornerStyle, LineWeight};
use mullion::geometry::Rect;
use mullion::panel::{draw_panel, Panel};
use mullion::style::{Color, Style};

fn rounded(style: Style) -> BorderStyle {
    BorderStyle { weight: LineWeight::Light, corners: CornerStyle::Rounded, style }
}

#[test]
fn draws_frame_title_footer_and_returns_interior() {
    let area = Rect::new(0, 0, 12, 5);
    let mut backend = TestBackend::new(12, 5);
    let panel = Panel::new(rounded(Style::default()))
        .fill(Style::default().bg(Color::Blue))
        .title("Edit")
        .footer("OK");
    let interior = draw_panel(backend.buffer_mut(), area, &panel);
    let buf = backend.buffer();

    // Rounded outer corners.
    assert_eq!(buf.get(0, 0).symbol, "╭");
    assert_eq!(buf.get(11, 0).symbol, "╮");
    assert_eq!(buf.get(0, 4).symbol, "╰");
    assert_eq!(buf.get(11, 4).symbol, "╯");

    // Interior is the area deflated by one cell on every side.
    assert_eq!(interior, Rect::new(1, 1, 10, 3));

    // Title centred on the top border: run is x=1..11 (10 cells), "Edit" (4) →
    // start at 1 + (10-4)/2 = 4.
    assert_eq!(buf.get(4, 0).symbol, "E");
    assert_eq!(buf.get(7, 0).symbol, "t");
    // Footer centred on the bottom border: "OK" (2) → 1 + (10-2)/2 = 5.
    assert_eq!(buf.get(5, 4).symbol, "O");
    assert_eq!(buf.get(6, 4).symbol, "K");

    // Interior cleared to the fill background.
    assert_eq!(buf.get(3, 2).symbol, " ");
    assert_eq!(buf.get(3, 2).style.bg, Color::Blue);
    // The border itself is not part of the fill region.
    assert_eq!(buf.get(0, 2).symbol, "│");
}

#[test]
fn no_fill_leaves_interior_contents() {
    let area = Rect::new(0, 0, 6, 4);
    let mut backend = TestBackend::new(6, 4);
    let buf = backend.buffer_mut();
    buf.set_string(1, 1, "x", Style::default());
    let panel = Panel::new(rounded(Style::default()));
    draw_panel(buf, area, &panel);
    // With fill = None the pre-existing 'x' survives under the frame.
    assert_eq!(backend.buffer().get(1, 1).symbol, "x");
}

#[test]
fn tiny_area_is_a_noop_sized_interior() {
    let area = Rect::new(0, 0, 1, 1);
    let mut backend = TestBackend::new(4, 4);
    let panel = Panel::new(rounded(Style::default())).title("nope");
    let interior = draw_panel(backend.buffer_mut(), area, &panel);
    assert!(interior.is_empty(), "1×1 area yields a zero-sized interior");
}

#[test]
fn panel_title_too_long_for_the_run_scrolls_from_its_start() {
    // A title longer than the 4-cell run becomes a marquee at offset 0.
    let area = Rect::new(0, 0, 6, 3);
    let mut buf = mullion::buffer::Buffer::empty(area);
    let panel = Panel::new(rounded(Style::default())).title("Settings");
    let interior = draw_panel(&mut buf, area, &panel);
    assert_eq!(interior, Rect::new(1, 1, 4, 1));
    assert_eq!(buf.get(1, 0).symbol, "S");
    assert_eq!(buf.get(4, 0).symbol, "t");
    assert_eq!(buf.get(5, 0).symbol, "╮");
}
