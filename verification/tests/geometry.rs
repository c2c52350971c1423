use mullion::geometry::{mirror_rects_in, visible_window, Rect};


#[test]
fn mirror_rects_flips_x_and_preserves_width() {
    let area = Rect::new(0, 0, 30, 1);
    // Three 10-wide columns at x=0,10,20.
    let mut rects = [Rect::new(0, 0, 10, 1), Rect::new(10, 0, 10, 1), Rect::new(20, 0, 10, 1)];
    mirror_rects_in(area, &mut rects);
    assert_eq!(rects[0].x, 20); // leftmost → rightmost
    assert_eq!(rects[1].x, 10); // centre stays
    assert_eq!(rects[2].x, 0);  // rightmost → leftmost
    assert!(rects.iter().all(|r| r.width == 10));
    // Non-zero area origin is respected.
    let area2 = Rect::new(5, 0, 20, 1);
    let mut r = [Rect::new(5, 0, 6, 1)];
    mirror_rects_in(area2, &mut r);
    assert_eq!(r[0].x, 5 + 20 - 6); // flush-left → flush-right
}

#[test]
fn area() {
    assert_eq!(Rect::new(0, 0, 10, 5).area(), 50);
    assert_eq!(Rect::new(0, 0, 0, 5).area(), 0);
}

#[test]
fn contains() {
    let r = Rect::new(2, 3, 4, 5);
    assert!(r.contains(2, 3));
    assert!(r.contains(5, 7));
    assert!(!r.contains(6, 7)); // x == right()
    assert!(!r.contains(5, 8)); // y == bottom()
    assert!(!r.contains(1, 3));
}

#[test]
fn intersection_overlap() {
    let a = Rect::new(0, 0, 10, 10);
    let b = Rect::new(5, 5, 10, 10);
    assert_eq!(a.intersection(b), Rect::new(5, 5, 5, 5));
}

#[test]
fn intersection_no_overlap() {
    let a = Rect::new(0, 0, 5, 5);
    let b = Rect::new(10, 10, 5, 5);
    assert!(a.intersection(b).is_empty());
}

#[test]
fn intersection_adjacent() {
    let a = Rect::new(0, 0, 5, 5);
    let b = Rect::new(5, 0, 5, 5);
    assert!(a.intersection(b).is_empty());
}

#[test]
fn border_cells_walk_clockwise_without_repeats() {
    // 4×3 box → 2·(4+3) − 4 = 10 ring cells, clockwise from the top-left.
    let r = Rect::new(0, 0, 4, 3);
    let cells: Vec<_> = r.border_cells();
    assert_eq!(
        cells,
        vec![
            (0, 0), (1, 0), (2, 0), (3, 0), // top → right
            (3, 1), (3, 2),                 // right edge down
            (2, 2), (1, 2), (0, 2),         // bottom ← left
            (0, 1),                         // left edge up
        ]
    );
    // Count matches border_len, and every cell is distinct.
    assert_eq!(cells.len() as u32, r.border_len());
    let mut uniq = cells.clone();
    uniq.sort();
    uniq.dedup();
    assert_eq!(uniq.len(), cells.len());
}

#[test]
fn border_cells_degenerate_is_straight_run() {
    // A single row/column has no corners: yield its cells, count == border_len.
    let row = Rect::new(2, 5, 4, 1);
    assert_eq!(row.border_cells(), vec![(2, 5), (3, 5), (4, 5), (5, 5)]);
    assert_eq!(row.border_cells().len() as u32, row.border_len());
    let col = Rect::new(2, 5, 1, 3);
    assert_eq!(col.border_cells(), vec![(2, 5), (2, 6), (2, 7)]);
    // Empty rect yields nothing.
    assert_eq!(Rect::new(0, 0, 0, 4).border_cells().len(), 0);
}

#[test]
fn visible_window_keeps_cursor_in_view() {
    let mut off = 0;
    // Cursor within the first window — no scroll.
    assert_eq!(visible_window(3, &mut off, 100, 10), 0..10);
    assert_eq!(off, 0);
    // Cursor past the window bottom — slide so cursor is the last visible slot.
    assert_eq!(visible_window(12, &mut off, 100, 10), 3..13);
    assert_eq!(off, 3);
    // Cursor above the window top — slide up to the cursor.
    assert_eq!(visible_window(1, &mut off, 100, 10), 1..11);
    assert_eq!(off, 1);
}

#[test]
fn visible_window_clamps_to_end_and_degenerates() {
    let mut off = 90;
    // Few items, large stale offset → clamp so no blank tail.
    assert_eq!(visible_window(2, &mut off, 5, 10), 0..5);
    assert_eq!(off, 0);
    // Zero viewport or empty length → empty range, offset reset.
    let mut o2 = 7;
    assert_eq!(visible_window(0, &mut o2, 10, 0), 0..0);
    assert_eq!(o2, 0);
    assert_eq!(visible_window(0, &mut o2, 0, 5), 0..0);
}
