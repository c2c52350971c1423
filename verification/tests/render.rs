use mullion::border::{draw_box, BorderStyle, Borders, CornerStyle, LineWeight};
use mullion::buffer::Buffer;
use mullion::geometry::Rect;
use mullion::layout::{Node, Orientation, TileId};
use mullion::render::render_carousel;
use mullion::style::Style;

/// Shared draw_child: draw a full box border around each leaf's rect.
fn box_draw_child(buf: &mut Buffer, _id: TileId, rect: Rect) {
    let style = BorderStyle {
        weight: LineWeight::Light,
        corners: CornerStyle::Square,
        style: Style::default(),
    };
    draw_box(buf, rect, Borders::all(), &style);
}

/// 3 children × 5 rows each; `Vertical` carousel.
fn vert_carousel(scroll: u16) -> Node {
    Node::Carousel {
        id: 0,
        orientation: Orientation::Vertical,
        scroll,
        children: (0u64..3).map(|i| (5u16, Node::Tile(i))).collect(),
    }
}

#[test]
fn render_carousel_scroll0_top_is_border() {
    // At scroll=0 the viewport's first row must be the first child's top border.
    let viewport = Rect::new(0, 0, 10, 7);
    let mut carousel = vert_carousel(0);
    let mut buf = Buffer::empty(viewport);
    render_carousel(&mut buf, &mut carousel, viewport, &mut box_draw_child);
    // Column 0 of row 0 is the top-left corner of child 0's box.
    assert_eq!(buf.get(0, 0).symbol, "┌",
        "at scroll=0 the top border must be visible");
}

#[test]
fn render_carousel_scroll2_top_border_cut() {
    // At scroll=2 the first child's top 2 rows are scrolled past —
    // the viewport's first row shows the child's interior, not its border.
    //
    // A 10×5 box with ALL borders has:
    //   row 0: ┌──────────┐  (top border)
    //   row 1: │          │  (interior)
    //   row 2: │          │  (interior)
    //   ...
    //   row 4: └──────────┘  (bottom border)
    //
    // At scroll=2, viewport row 0 = child row 2 = left-border cell │.
    let viewport = Rect::new(0, 0, 10, 7);
    let mut carousel = vert_carousel(2);
    let mut buf = Buffer::empty(viewport);
    render_carousel(&mut buf, &mut carousel, viewport, &mut box_draw_child);
    let top_left = buf.get(0, 0).symbol.clone();
    assert_ne!(top_left, "┌", "at scroll=2 the top border must be cut");
    assert_eq!(top_left, "│", "row 2 of the first child is an interior row");
}

#[test]
fn render_carousel_bottom_partial_child_cut() {
    // viewport height=7; 3 children × 5 rows = 15 total.
    // At scroll=0: content [0,7). Child 0 [0,5) fully visible; child 1 [5,10)
    // partially visible (rows 0-1 only → top border + one interior row).
    // The viewport's last row (row 6) must show child 1's interior, not its
    // bottom border (which is at row 4 of child 1 — off screen).
    let viewport = Rect::new(0, 0, 10, 7);
    let mut carousel = vert_carousel(0);
    let mut buf = Buffer::empty(viewport);
    render_carousel(&mut buf, &mut carousel, viewport, &mut box_draw_child);
    // Row 5 = child 1 row 0 = top border (┌).
    assert_eq!(buf.get(0, 5).symbol, "┌");
    // Row 6 = child 1 row 1 = interior left border (│), not bottom border.
    assert_eq!(buf.get(0, 6).symbol, "│",
        "partial bottom child must be cut, not show its bottom border");
}

#[test]
fn render_carousel_scroll_past_end_clamped() {
    // total=15, viewport_h=7, max_scroll=8. scroll=9999 → clamped to 8.
    // At scroll=8: content [8,15). All 7 rows must be covered (no blank gap).
    let viewport = Rect::new(0, 0, 10, 7);
    let mut carousel = vert_carousel(9999);
    let mut buf = Buffer::empty(viewport);
    render_carousel(&mut buf, &mut carousel, viewport, &mut box_draw_child);
    // Every row in the viewport must be non-default (a border or interior cell).
    for row in viewport.y..viewport.bottom() {
        let sym = &buf.get(0, row).symbol;
        assert_ne!(sym, " ",
            "row {row} must not be blank after clamping");
    }
    // scroll field must have been clamped.
    if let Node::Carousel { scroll, .. } = &carousel {
        assert_eq!(*scroll, 8, "scroll must be clamped to max_scroll=8");
    }
}

#[test]
fn render_carousel_empty_no_panic() {
    let mut carousel = Node::Carousel {
        id: 0,
        orientation: Orientation::Vertical,
        scroll: 0,
        children: vec![],
    };
    let viewport = Rect::new(0, 0, 10, 5);
    let mut buf = Buffer::empty(viewport);
    render_carousel(&mut buf, &mut carousel, viewport, &mut box_draw_child);
    // Buffer untouched.
    assert_eq!(buf.get(0, 0).symbol, " ");
}

#[test]
fn render_carousel_non_carousel_node_is_noop() {
    let mut node = Node::Tile(42);
    let viewport = Rect::new(0, 0, 5, 5);
    let mut buf = Buffer::empty(viewport);
    render_carousel(&mut buf, &mut node, viewport, &mut box_draw_child);
    assert_eq!(buf.get(0, 0).symbol, " ");
}
