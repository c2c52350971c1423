use mullion::geometry::Rect;
use mullion::layout::{min_size, partition, region_of, solve, Constraint, Node, Orientation, Size, Axis};


// ── Hand-written example tests ────────────────────────────────────────

#[test]
fn single_tile_gets_full_area() {
    let area = Rect::new(0, 0, 80, 24);
    let mut node = Node::Tile(1);
    let tiles = solve(&mut node, area);
    assert_eq!(tiles, vec![(1, area)]);
}

#[test]
fn two_equal_fill_horizontal() {
    let area = Rect::new(0, 0, 80, 24);
    let mut node = Node::Split {
        orientation: Orientation::Horizontal,
        children: vec![
            (Constraint::new(Size::Fill(1)), Node::Tile(1)),
            (Constraint::new(Size::Fill(1)), Node::Tile(2)),
        ],
    };
    let tiles = solve(&mut node, area);
    // Last Fill child absorbs remainder (80 is even, so both get 40).
    assert_eq!(tiles[0].1.width, 40);
    assert_eq!(tiles[1].1.width, 40);
    // x positions tile correctly.
    assert_eq!(tiles[0].1.x, 0);
    assert_eq!(tiles[1].1.x, 40);
}

#[test]
fn fixed_percent_fill_partition() {
    // 80 cols: Fixed(10) + Percent(25) + Fill(1)
    // Fixed = 10, Percent = 80*25/100 = 20, Fill = 80-10-20 = 50
    let area = Rect::new(0, 0, 80, 24);
    let mut node = Node::Split {
        orientation: Orientation::Horizontal,
        children: vec![
            (Constraint::new(Size::Fixed(10)), Node::Tile(1)),
            (Constraint::new(Size::Percent(25)), Node::Tile(2)),
            (Constraint::new(Size::Fill(1)), Node::Tile(3)),
        ],
    };
    let tiles = solve(&mut node, area);
    assert_eq!(tiles[0].1.width, 10);
    assert_eq!(tiles[1].1.width, 20);
    assert_eq!(tiles[2].1.width, 50);
    // Widths sum to total.
    let sum: u16 = tiles.iter().map(|(_, r)| r.width).sum();
    assert_eq!(sum, 80);
}

#[test]
fn vertical_split_stacks_rows() {
    let area = Rect::new(0, 0, 80, 24);
    let mut node = Node::Split {
        orientation: Orientation::Vertical,
        children: vec![
            (Constraint::new(Size::Fixed(3)), Node::Tile(1)),
            (Constraint::new(Size::Fill(1)), Node::Tile(2)),
        ],
    };
    let tiles = solve(&mut node, area);
    assert_eq!(tiles[0].1.y, 0);
    assert_eq!(tiles[0].1.height, 3);
    assert_eq!(tiles[1].1.y, 3);
    assert_eq!(tiles[1].1.height, 21);
}

#[test]
fn nested_split() {
    // Outer: H split into left=40 and right=40.
    // Right: V split into top=12 and bottom=12.
    let area = Rect::new(0, 0, 80, 24);
    let mut node = Node::Split {
        orientation: Orientation::Horizontal,
        children: vec![
            (Constraint::new(Size::Fill(1)), Node::Tile(1)),
            (Constraint::new(Size::Fill(1)), Node::Split {
                orientation: Orientation::Vertical,
                children: vec![
                    (Constraint::new(Size::Fill(1)), Node::Tile(2)),
                    (Constraint::new(Size::Fill(1)), Node::Tile(3)),
                ],
            }),
        ],
    };
    let tiles = solve(&mut node, area);
    assert_eq!(tiles.len(), 3);
    // Left panel
    assert_eq!(tiles[0].1, Rect::new(0, 0, 40, 24));
    // Top-right panel
    assert_eq!(tiles[1].1, Rect::new(40, 0, 40, 12));
    // Bottom-right panel
    assert_eq!(tiles[2].1, Rect::new(40, 12, 40, 12));
}

#[test]
fn min_max_clamps_respected() {
    // Percent(50) of 80 = 40, but max=30 → clamped to 30.
    // Fill(1) gets the remaining 50.
    let area = Rect::new(0, 0, 80, 24);
    let mut node = Node::Split {
        orientation: Orientation::Horizontal,
        children: vec![
            (Constraint { size: Size::Percent(50), min: 0, max: 30 }, Node::Tile(1)),
            (Constraint::new(Size::Fill(1)), Node::Tile(2)),
        ],
    };
    let tiles = solve(&mut node, area);
    assert_eq!(tiles[0].1.width, 30);
    assert_eq!(tiles[1].1.width, 50);
}

#[test]
fn odd_width_remainder_goes_to_last_fill() {
    // 81 cols split between two Fill(1): first gets 40, last gets 41.
    let area = Rect::new(0, 0, 81, 24);
    let mut node = Node::Split {
        orientation: Orientation::Horizontal,
        children: vec![
            (Constraint::new(Size::Fill(1)), Node::Tile(1)),
            (Constraint::new(Size::Fill(1)), Node::Tile(2)),
        ],
    };
    let tiles = solve(&mut node, area);
    let sum: u16 = tiles.iter().map(|(_, r)| r.width).sum();
    assert_eq!(sum, 81, "widths must sum to total");
}

#[test]
fn adaptive_picks_horizontal_for_wide_area() {
    let area = Rect::new(0, 0, 200, 24);
    let mut node = Node::Split {
        orientation: Orientation::Adaptive { margin_pct: 10, last: None },
        children: vec![
            (Constraint::new(Size::Fill(1)), Node::Tile(1)),
            (Constraint::new(Size::Fill(1)), Node::Tile(2)),
        ],
    };
    let tiles = solve(&mut node, area);
    // Horizontal split → tiles are side by side → same y, same height.
    assert_eq!(tiles[0].1.y, tiles[1].1.y);
    assert_eq!(tiles[0].1.height, tiles[1].1.height);
}

#[test]
fn adaptive_picks_vertical_for_tall_area() {
    let area = Rect::new(0, 0, 20, 200);
    let mut node = Node::Split {
        orientation: Orientation::Adaptive { margin_pct: 10, last: None },
        children: vec![
            (Constraint::new(Size::Fill(1)), Node::Tile(1)),
            (Constraint::new(Size::Fill(1)), Node::Tile(2)),
        ],
    };
    let tiles = solve(&mut node, area);
    // Vertical split → tiles are stacked → same x, same width.
    assert_eq!(tiles[0].1.x, tiles[1].1.x);
    assert_eq!(tiles[0].1.width, tiles[1].1.width);
}

#[test]
fn min_size_tile() {
    assert_eq!(min_size(&Node::Tile(0)), (1, 1));
}

#[test]
fn min_size_horizontal_split() {
    let node = Node::Split {
        orientation: Orientation::Horizontal,
        children: vec![
            (Constraint::new(Size::Fill(1)), Node::Tile(1)),
            (Constraint::new(Size::Fill(1)), Node::Tile(2)),
        ],
    };
    // Two tiles → min width = 1+1 = 2, min height = max(1,1) = 1.
    assert_eq!(min_size(&node), (2, 1));
}

#[test]
fn min_size_vertical_split() {
    let node = Node::Split {
        orientation: Orientation::Vertical,
        children: vec![
            (Constraint::new(Size::Fill(1)), Node::Tile(1)),
            (Constraint::new(Size::Fill(1)), Node::Tile(2)),
            (Constraint::new(Size::Fill(1)), Node::Tile(3)),
        ],
    };
    // Three tiles → min height = 3, min width = 1.
    assert_eq!(min_size(&node), (1, 3));
}

#[test]
fn empty_split_returns_nothing() {
    let area = Rect::new(0, 0, 80, 24);
    let mut node = Node::Split {
        orientation: Orientation::Horizontal,
        children: vec![],
    };
    let tiles = solve(&mut node, area);
    assert!(tiles.is_empty());
}

#[test]
fn zero_area_does_not_panic() {
    let area = Rect::new(0, 0, 0, 0);
    let mut node = Node::Split {
        orientation: Orientation::Horizontal,
        children: vec![
            (Constraint::new(Size::Fill(1)), Node::Tile(1)),
            (Constraint::new(Size::Fill(1)), Node::Tile(2)),
        ],
    };
    let tiles = solve(&mut node, area);
    // Must not panic; tiles exist but are zero-sized.
    assert_eq!(tiles.len(), 2);
    for (_, r) in &tiles {
        assert_eq!(r.width, 0);
    }
}

// ── Carousel tests ────────────────────────────────────────────────────

fn carousel_10x3(scroll: u16) -> Node {
    Node::Carousel {
        id: 99,
        orientation: Orientation::Horizontal,
        scroll,
        children: (0u64..10).map(|i| (3u16, Node::Tile(i))).collect(),
    }
}

#[test]
fn carousel_virtualization_only_visible_tiles() {
    // 10 tiles × 3 cells each = 30 total; viewport = 10 cells.
    // At scroll=0: tiles 0,1,2 fully in [0,10); tile 3 clips at [9,10).
    let area = Rect::new(0, 0, 10, 5);
    let tiles = solve(&mut carousel_10x3(0), area);
    assert_eq!(tiles.len(), 4, "only 4 tiles intersect [0,10)");
    assert_eq!(tiles[0], (0, Rect::new(0, 0, 3, 5)));
    assert_eq!(tiles[1], (1, Rect::new(3, 0, 3, 5)));
    assert_eq!(tiles[2], (2, Rect::new(6, 0, 3, 5)));
    // Tile 3 occupies [9,12) but only [9,10) is visible → clipped to 1 cell.
    assert_eq!(tiles[3], (3, Rect::new(9, 0, 1, 5)));
}

#[test]
fn carousel_clipped_tile_at_edge() {
    let area = Rect::new(0, 0, 10, 5);
    let tiles = solve(&mut carousel_10x3(0), area);
    // The straddling tile at the right edge is 1 cell wide (10-9=1).
    let edge = tiles.last().unwrap();
    assert_eq!(edge.1.width, 1);
    assert_eq!(edge.1.right(), area.right());
}

#[test]
fn carousel_visible_rects_contiguous_and_in_order() {
    let area = Rect::new(0, 0, 10, 5);
    let tiles = solve(&mut carousel_10x3(0), area);
    for w in tiles.windows(2) {
        assert_eq!(w[0].1.right(), w[1].1.x, "rects must be contiguous");
    }
    // All rects within the viewport.
    for (_, r) in &tiles {
        assert!(r.x >= area.x && r.right() <= area.right());
    }
}

#[test]
fn carousel_scroll_shows_later_tiles() {
    // scroll=6: first child screen pos = 0-6=-6
    // tiles 0→[-6,-3), 1→[-3,0) both invisible.
    // tile 2→[0,3), 3→[3,6), 4→[6,9) fully visible; tile 5→[9,12) clipped.
    let area = Rect::new(0, 0, 10, 5);
    let tiles = solve(&mut carousel_10x3(6), area);
    assert_eq!(tiles.len(), 4);
    assert_eq!(tiles[0].0, 2);
    assert_eq!(tiles[1].0, 3);
    assert_eq!(tiles[2].0, 4);
    assert_eq!(tiles[3].0, 5);
}

#[test]
fn carousel_scroll_clamped_to_max() {
    // total=30, viewport=10, max_scroll=20.  scroll=9999 → clamped to 20.
    let area = Rect::new(0, 0, 10, 5);
    let mut node = carousel_10x3(9999);
    let tiles = solve(&mut node, area);
    if let Node::Carousel { scroll, .. } = &node {
        assert_eq!(*scroll, 20, "scroll must be clamped to max_scroll=20");
    }
    // The last visible tile must end exactly at the viewport's right edge.
    let last_right = tiles.last().unwrap().1.right();
    assert_eq!(last_right, area.right(), "content must be flush at the end");
}

#[test]
fn carousel_vertical_scroll() {
    // Vertical carousel: 5 tiles × 4 rows each; viewport height=10.
    let area = Rect::new(0, 0, 20, 10);
    let mut node = Node::Carousel {
        id: 0,
        orientation: Orientation::Vertical,
        scroll: 4,
        children: (0u64..5).map(|i| (4u16, Node::Tile(i))).collect(),
    };
    let tiles = solve(&mut node, area);
    // scroll=4: tile 0→[-4,0) invisible; tile 1→[0,4); tile 2→[4,8); tile 3→[8,12) clips.
    assert_eq!(tiles[0].0, 1);
    assert_eq!(tiles[0].1, Rect::new(0, 0, 20, 4));
    // tile 3 clips to [8,10) → height=2
    assert_eq!(tiles.last().unwrap().0, 3);
    assert_eq!(tiles.last().unwrap().1.height, 2);
}

#[test]
fn carousel_adaptive_horizontal_for_wide() {
    let area = Rect::new(0, 0, 100, 10);
    let mut node = Node::Carousel {
        id: 0,
        orientation: Orientation::Adaptive { margin_pct: 0, last: None },
        scroll: 0,
        children: vec![(50u16, Node::Tile(0)), (50u16, Node::Tile(1))],
    };
    let tiles = solve(&mut node, area);
    // Wide area → Horizontal → tiles side by side (same y and height).
    assert_eq!(tiles.len(), 2);
    assert_eq!(tiles[0].1.y, tiles[1].1.y);
    assert_eq!(tiles[0].1.height, tiles[1].1.height);
}

#[test]
fn carousel_adaptive_vertical_for_tall() {
    let area = Rect::new(0, 0, 10, 100);
    let mut node = Node::Carousel {
        id: 0,
        orientation: Orientation::Adaptive { margin_pct: 0, last: None },
        scroll: 0,
        children: vec![(50u16, Node::Tile(0)), (50u16, Node::Tile(1))],
    };
    let tiles = solve(&mut node, area);
    // Tall area → Vertical → tiles stacked (same x and width).
    assert_eq!(tiles.len(), 2);
    assert_eq!(tiles[0].1.x, tiles[1].1.x);
    assert_eq!(tiles[0].1.width, tiles[1].1.width);
}

#[test]
fn carousel_min_size_horizontal() {
    let node = Node::Carousel {
        id: 0,
        orientation: Orientation::Horizontal,
        scroll: 0,
        // Children with min heights of 3 and 5.
        children: vec![
            (10, Node::Tile(0)), // min_size=(1,1)
            (10, Node::Split {
                orientation: Orientation::Vertical,
                children: vec![
                    (Constraint::new(Size::Fill(1)), Node::Tile(1)),
                    (Constraint::new(Size::Fill(1)), Node::Tile(2)),
                    (Constraint::new(Size::Fill(1)), Node::Tile(3)),
                ],
            }),
        ],
    };
    // Horizontal carousel: main=0, cross(height)=max(1,3)=3.
    assert_eq!(min_size(&node), (0, 3));
}

#[test]
fn carousel_min_size_vertical() {
    let node = Node::Carousel {
        id: 0,
        orientation: Orientation::Vertical,
        scroll: 0,
        children: vec![
            (10, Node::Tile(0)),
            (10, Node::Split {
                orientation: Orientation::Horizontal,
                children: vec![
                    (Constraint::new(Size::Fill(1)), Node::Tile(1)),
                    (Constraint::new(Size::Fill(1)), Node::Tile(2)),
                ],
            }),
        ],
    };
    // Vertical carousel: main=0, cross(width)=max(1,2)=2.
    assert_eq!(min_size(&node), (2, 0));
}
// ── region_of ─────────────────────────────────────────────────────────

#[test]
fn region_of_tile_matches_solve() {
    // A simple 2-tile horizontal split in a 40×10 area.
    // solve gives each tile 20 columns.
    let area = Rect::new(0, 0, 40, 10);
    let mut root = Node::Split {
        orientation: Orientation::Horizontal,
        children: vec![
            (Constraint::new(Size::Fill(1)), Node::Tile(1)),
            (Constraint::new(Size::Fill(1)), Node::Tile(2)),
        ],
    };
    let rects = solve(&mut root, area);
    let r1 = rects.iter().find(|&&(id, _)| id == 1).map(|&(_, r)| r).unwrap();
    let r2 = rects.iter().find(|&&(id, _)| id == 2).map(|&(_, r)| r).unwrap();

    let mut root2 = root.clone();
    assert_eq!(region_of(&mut root2, area, 1), Some(r1));

    let mut root3 = root.clone();
    assert_eq!(region_of(&mut root3, area, 2), Some(r2));
}

#[test]
fn region_of_missing_id_returns_none() {
    let area = Rect::new(0, 0, 40, 10);
    let mut root = Node::Tile(1);
    assert_eq!(region_of(&mut root, area, 999), None);
}

#[test]
fn region_of_carousel_returns_its_viewport_rect() {
    // Carousel occupies the right half of a horizontal split.
    let area = Rect::new(0, 0, 40, 10);
    let mut root = Node::Split {
        orientation: Orientation::Horizontal,
        children: vec![
            (Constraint::new(Size::Fill(1)), Node::Tile(1)),
            (Constraint::new(Size::Fill(1)), Node::Carousel {
                id: 42,
                orientation: Orientation::Vertical,
                scroll: 0,
                children: vec![(5, Node::Tile(10)), (5, Node::Tile(11))],
            }),
        ],
    };
    // The carousel occupies columns 20–39 (right half of a 40-wide area).
    let expected = Rect::new(20, 0, 20, 10);
    assert_eq!(region_of(&mut root, area, 42), Some(expected));
}

#[test]
fn region_of_tile_inside_carousel_matches_visible_clipped_rect() {
    // Vertical carousel 10 rows tall, two children of 6 rows each, scroll=0.
    // Child 0 (id=1): rows 0–5 (clamped to viewport 0–9 → rows 0–5, height 6).
    // Child 1 (id=2): rows 6–11 (clamped to viewport 0–9 → rows 6–9, height 4).
    let area = Rect::new(0, 0, 20, 10);
    let mut root = Node::Carousel {
        id: 99,
        orientation: Orientation::Vertical,
        scroll: 0,
        children: vec![(6, Node::Tile(1)), (6, Node::Tile(2))],
    };
    let rects = solve(&mut root, area);
    let r1 = rects.iter().find(|&&(id,_)| id==1).map(|&(_,r)| r).unwrap();
    let r2 = rects.iter().find(|&&(id,_)| id==2).map(|&(_,r)| r).unwrap();

    let mut root2 = root.clone();
    assert_eq!(region_of(&mut root2, area, 1), Some(r1));

    let mut root3 = root.clone();
    assert_eq!(region_of(&mut root3, area, 2), Some(r2));
}

#[test]
fn region_of_scrolled_out_tile_returns_none() {
    // Carousel with scroll past child 0 so child 0 is invisible.
    // Two children of 6 rows each in a 6-row viewport.
    // scroll=6 → child 1 fills the viewport, child 0 is scrolled off.
    let area = Rect::new(0, 0, 20, 6);
    let mut root = Node::Carousel {
        id: 99,
        orientation: Orientation::Vertical,
        scroll: 6,
        children: vec![(6, Node::Tile(1)), (6, Node::Tile(2))],
    };
    // Child 0 (id=1) is fully scrolled off screen.
    assert_eq!(region_of(&mut root, area, 1), None);
    // Child 1 (id=2) is visible.
    assert!(region_of(&mut root, area, 2).is_some());
}

#[test]
fn zero_weight_fill_waits_for_weighted_siblings() {
    let children = vec![
        (Constraint::new(Size::Fill(0)), Node::Tile(1)),
        (Constraint::new(Size::Fill(2)), Node::Tile(2)),
        (Constraint::new(Size::Fill(0)), Node::Tile(3)),
    ];
    // Weighted sibling has room: the weight-0 fills stay at their seed.
    assert_eq!(partition(&children, 11), vec![0, 11, 0]);
    // Weighted sibling capped: the remainder falls to the weight-0 fills, last first.
    let capped = vec![
        (Constraint::new(Size::Fill(0)), Node::Tile(1)),
        (Constraint::new(Size::Fill(2)).with_max(4), Node::Tile(2)),
        (Constraint::new(Size::Fill(0)).with_max(3), Node::Tile(3)),
    ];
    assert_eq!(partition(&capped, 11), vec![4, 4, 3]);
}

#[test]
fn split_past_the_coordinate_edge_saturates_positions() {
    // The area runs past column 65535: the second child's start saturates there.
    let area = Rect::new(65530, 0, 20, 5);
    let mut node = Node::Split {
        orientation: Orientation::Horizontal,
        children: vec![
            (Constraint::new(Size::Fill(1)), Node::Tile(1)),
            (Constraint::new(Size::Fill(1)), Node::Tile(2)),
        ],
    };
    let tiles = solve(&mut node, area);
    assert_eq!(tiles, vec![(1, Rect::new(65530, 0, 10, 5)), (2, Rect::new(65535, 0, 10, 5))]);
    assert_eq!(region_of(&mut node, area, 2), Some(Rect::new(65535, 0, 10, 5)));
    assert_eq!(region_of(&mut node, area, 3), None);
}
