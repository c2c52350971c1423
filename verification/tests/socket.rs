use mullion::border::{draw_box, BorderStyle, Borders, CornerStyle, LineWeight};
use mullion::buffer::Buffer;
use mullion::geometry::Rect;
use mullion::label::Side;
use mullion::socket::{bookends, draw_socket, Flow, Socket};
use mullion::style::Style;

#[test]
fn gap_on_each_side_is_interior() {
    let tile = Rect::new(2, 3, 10, 6);
    // Top: offset 4, length 2 → cells (6,3) and (7,3) on the top row.
    let top = Socket::new(Side::Top, 4, Flow::In, 0).with_length(2);
    assert_eq!(top.rect(tile), Some(Rect::new(6, 3, 2, 1)));
    // Bottom row is tile.bottom()-1 = 3+6-1 = 8.
    let bot = Socket::new(Side::Bottom, 4, Flow::Out, 0);
    assert_eq!(bot.rect(tile), Some(Rect::new(6, 8, 1, 1)));
    // Left column is tile.x = 2; right is tile.right()-1 = 11.
    let lft = Socket::new(Side::Left, 2, Flow::In, 0);
    assert_eq!(lft.rect(tile), Some(Rect::new(2, 5, 1, 1)));
    let rgt = Socket::new(Side::Right, 2, Flow::Out, 0);
    assert_eq!(rgt.rect(tile), Some(Rect::new(11, 5, 1, 1)));
}

#[test]
fn corners_are_never_opened() {
    let tile = Rect::new(0, 0, 8, 4);
    // A unit socket sitting exactly on the corner (offset 0) has no interior
    // overlap, so it yields nothing (faithful to make_gap: the interval is
    // intersected with the interior, not shifted onto it).
    assert_eq!(Socket::new(Side::Top, 0, Flow::In, 0).rect(tile), None);
    // A longer corner socket keeps only its interior portion: [0,3) → [1,3).
    let across = Socket::new(Side::Top, 0, Flow::In, 0).with_length(3);
    assert_eq!(across.rect(tile), Some(Rect::new(1, 0, 2, 1)));
    // A socket whose length would reach the far corner is clamped short of it.
    let long = Socket::new(Side::Top, 1, Flow::In, 0).with_length(99);
    let r = long.rect(tile).unwrap();
    assert!(r.right() < tile.right(), "gap must not reach the corner");
}

#[test]
fn too_small_or_offscreen_yields_none() {
    // Edge length 2 has no interior.
    assert_eq!(Socket::new(Side::Top, 1, Flow::In, 0).rect(Rect::new(0, 0, 2, 2)), None);
    // Offset at/past the far corner collapses.
    assert_eq!(Socket::new(Side::Top, 9, Flow::In, 0).rect(Rect::new(0, 0, 8, 4)), None);
}

#[test]
fn anchor_is_gap_centre() {
    let tile = Rect::new(0, 0, 12, 4);
    let s = Socket::new(Side::Top, 3, Flow::In, 0).with_length(4); // cells x=3..7
    assert_eq!(s.anchor(tile), Some((3 + 3 / 2, 0))); // middle of [3,7) → x=4
}

#[test]
fn pack_places_non_overlapping_sockets() {
    let sockets = Socket::pack(Side::Left, 3, 12);
    assert_eq!(sockets.len(), 3);
    let tile = Rect::new(0, 0, 6, 12);
    let rects: Vec<Rect> = sockets.iter().map(|s| s.rect(tile).unwrap()).collect();
    // Distinct, ascending rows, all interior.
    for w in rects.windows(2) {
        assert!(w[0].y < w[1].y, "sockets must be ordered and distinct");
    }
    for r in &rects {
        assert!(r.y > tile.y && r.bottom() < tile.bottom());
    }
}

#[test]
fn pack_truncates_to_interior() {
    // Edge length 5 → interior is 3 cells; asking for 10 yields 3.
    assert_eq!(Socket::pack(Side::Top, 10, 5).len(), 3);
    assert!(Socket::pack(Side::Top, 5, 2).is_empty());
}

/// Socket positions stay correct (and clear of corners) at a different size.
#[test]
fn sockets_track_a_larger_tile() {
    let tile = Rect::new(3, 2, 20, 10);
    // Two packed inputs on the left, two outputs on the right.
    let ins = Socket::pack(Side::Left, 2, tile.height);
    let outs = Socket::pack(Side::Right, 2, tile.height);
    for s in ins.iter().chain(outs.iter()) {
        let r = s.rect(tile).unwrap();
        // On the correct column, and never on a corner row.
        let col = if s.side == Side::Left { tile.x } else { tile.right() - 1 };
        assert_eq!(r.x, col);
        assert!(r.y > tile.y && r.bottom() < tile.bottom());
    }
}

#[test]
fn bookends_per_orientation() {
    // Horizontal edges are capped left/right; vertical edges above/below.
    assert_eq!(bookends(Side::Top), ("┤", "├"));
    assert_eq!(bookends(Side::Bottom), ("┤", "├"));
    assert_eq!(bookends(Side::Left), ("┴", "┬"));
    assert_eq!(bookends(Side::Right), ("┴", "┬"));
}


/// Lock the glyph positions of sockets on all four sides of a box.
#[test]
fn four_sided_socket_snapshot() {
    let tile = Rect::new(0, 0, 13, 7);
    // (side, offset, connected)
    let sockets = [
        (Side::Top, 5u16, false),
        (Side::Bottom, 5, true),
        (Side::Left, 3, true),
        (Side::Right, 3, false),
    ];

    let mut buf = Buffer::empty(tile);
    draw_box(&mut buf, tile, Borders::all(), &BorderStyle {
        weight: LineWeight::Light,
        corners: CornerStyle::Rounded,
        style: Style::default(),
    });
    for &(side, offset, connected) in &sockets {
        let s = Socket::new(side, offset, Flow::In, 0);
        draw_socket(&mut buf, tile, &s, connected, Style::default());
    }
    let rows: Vec<String> = (0..7)
        .map(|y| (0..13).map(|x| buf.get(x, y).symbol.clone()).collect::<String>())
        .collect();

    // Bookended gaps: ┤○ ├ / ┴●┬, circle floating in the opening.
    assert_eq!(
        rows.join("\n"),
        "╭───┤○ ├────╮\n\
         │           │\n\
         ┴           ┴\n\
         ●           ○\n\
         ┬           ┬\n\
         │           │\n\
         ╰───┤● ├────╯"
    );
}

#[test]
fn gap_interior_holds_over_many_sizes() {
    for s in [Side::Top, Side::Bottom, Side::Left, Side::Right] {
        for offset in 0u16..12 {
            for length in 1u16..12 {
                for w in 1u16..14 {
                    for h in 1u16..14 {
                        let tile = Rect::new(5, 7, w, h);
                        let socket = Socket::new(s, offset, Flow::In, 0).with_length(length);
                        if let Some(r) = socket.rect(tile) {
                            let edge_len = Socket::edge_len(s, tile);
                            let (lo, hi) = match s {
                                Side::Top | Side::Bottom => (r.x - tile.x, r.right() - tile.x),
                                Side::Left | Side::Right => (r.y - tile.y, r.bottom() - tile.y),
                            };
                            assert!(lo >= 1 && hi < edge_len && hi > lo);
                        }
                    }
                }
            }
        }
    }
}

#[test]
fn packed_sockets_never_overlap_at_any_count() {
    for s in [Side::Top, Side::Left] {
        for count in 0usize..20 {
            for edge in 1u16..20 {
                let tile = match s {
                    Side::Top | Side::Bottom => Rect::new(0, 0, edge, 6),
                    Side::Left | Side::Right => Rect::new(0, 0, 6, edge),
                };
                let rects: Vec<Rect> =
                    Socket::pack(s, count, edge).iter().filter_map(|sk| sk.rect(tile)).collect();
                for i in 0..rects.len() {
                    for j in (i + 1)..rects.len() {
                        assert!(rects[i].intersection(rects[j]).is_empty());
                    }
                }
            }
        }
    }
}

#[test]
fn anchor_and_attach_step_outward() {
    let tile = Rect::new(2, 2, 10, 6);
    let top = Socket::new(Side::Top, 3, Flow::Out, 7);
    assert_eq!(top.anchor(tile), Some((5, 2)));
    assert_eq!(top.attach(tile), Some((5, 1)));
    let right = Socket::new(Side::Right, 2, Flow::In, 0);
    assert_eq!(right.attach(tile), Some((12, 4)));
    // At the coordinate origin the outward cell falls off the space.
    let at_origin = Socket::new(Side::Top, 1, Flow::In, 0);
    assert_eq!(at_origin.attach(Rect::new(0, 0, 5, 5)), None);
}
