use mullion::float::{free_cells_in_window, free_intervals_in_rows, FloatChild, FloatLayer, FloatRect};
use mullion::geometry::Rect;


// ── FloatLayer::solve ─────────────────────────────────────────────────

#[test]
fn solve_translates_to_absolute() {
    // Parent offset to (10, 5); a float at parent-local (2, 1) lands at
    // absolute (12, 6).
    let parent = Rect::new(10, 5, 20, 10);
    let layer = FloatLayer::new().with_child(FloatChild::new(1, FloatRect::new(2, 1, 4, 3)));
    let rects = layer.solve(parent);
    assert_eq!(rects, vec![(1, Rect::new(12, 6, 4, 3))]);
}

#[test]
fn solve_clips_to_parent() {
    // A float that pokes past the parent's right/bottom edge is clipped.
    let parent = Rect::new(0, 0, 10, 10);
    let layer = FloatLayer::new().with_child(FloatChild::new(7, FloatRect::new(8, 8, 5, 5)));
    let rects = layer.solve(parent);
    // [8,13)×[8,13) ∩ [0,10)×[0,10) = [8,10)×[8,10) → 2×2.
    assert_eq!(rects, vec![(7, Rect::new(8, 8, 2, 2))]);
}

#[test]
fn solve_offscreen_float_is_empty() {
    let parent = Rect::new(0, 0, 10, 10);
    let layer = FloatLayer::new().with_child(FloatChild::new(1, FloatRect::new(20, 20, 4, 4)));
    let rects = layer.solve(parent);
    assert!(rects[0].1.is_empty());
}

// ── free_intervals_in_rows ────────────────────────────────────────────

#[test]
fn empty_children_yield_one_full_interval_per_row() {
    let parent = Rect::new(0, 0, 10, 3);
    let intervals = free_intervals_in_rows(parent, &[], 0, 0..3);
    assert_eq!(intervals.len(), 3);
    for (i, iv) in intervals.iter().enumerate() {
        assert_eq!(iv.row, i as u16);
        assert_eq!((iv.start, iv.end), (0, 10));
    }
}

#[test]
fn single_float_splits_row_into_two_slots() {
    let parent = Rect::new(0, 0, 10, 1);
    let child = Rect::new(3, 0, 4, 1); // blocks columns [3, 7)
    let intervals = free_intervals_in_rows(parent, &[child], 0, 0..1);
    assert_eq!(intervals.len(), 2);
    assert_eq!((intervals[0].start, intervals[0].end), (0, 3));
    assert_eq!((intervals[1].start, intervals[1].end), (7, 10));
}

#[test]
fn float_against_left_edge_yields_only_right_slot() {
    let parent = Rect::new(0, 0, 10, 1);
    let child = Rect::new(0, 0, 4, 1); // flush with the left edge
    let intervals = free_intervals_in_rows(parent, &[child], 0, 0..1);
    assert_eq!(intervals.len(), 1);
    assert_eq!((intervals[0].start, intervals[0].end), (4, 10));
}

#[test]
fn gutter_widens_the_obstacle() {
    let parent = Rect::new(0, 0, 12, 1);
    let child = Rect::new(5, 0, 2, 1); // blocks [5, 7)
    // gutter=1 grows the obstacle to [4, 8).
    let intervals = free_intervals_in_rows(parent, &[child], 1, 0..1);
    assert_eq!(intervals.len(), 2);
    assert_eq!((intervals[0].start, intervals[0].end), (0, 4));
    assert_eq!((intervals[1].start, intervals[1].end), (8, 12));
}

#[test]
fn overlapping_floats_merge() {
    let parent = Rect::new(0, 0, 10, 1);
    // Two overlapping obstacles [2,5) and [4,7) cover [2,7) together.
    let a = Rect::new(2, 0, 3, 1);
    let b = Rect::new(4, 0, 3, 1);
    let intervals = free_intervals_in_rows(parent, &[a, b], 0, 0..1);
    assert_eq!(intervals.len(), 2);
    assert_eq!((intervals[0].start, intervals[0].end), (0, 2));
    assert_eq!((intervals[1].start, intervals[1].end), (7, 10));
}

#[test]
fn fully_blocked_row_yields_nothing() {
    let parent = Rect::new(0, 0, 6, 1);
    let child = Rect::new(0, 0, 6, 1); // covers the whole row
    let intervals = free_intervals_in_rows(parent, &[child], 0, 0..1);
    assert!(intervals.is_empty());
}

#[test]
fn rows_outside_parent_are_skipped() {
    let parent = Rect::new(0, 5, 4, 2); // rows 5 and 6 only
    // Ask about rows 0..10; only 5 and 6 should appear.
    let intervals = free_intervals_in_rows(parent, &[], 0, 0..10);
    let got_rows: Vec<u16> = intervals.iter().map(|iv| iv.row).collect();
    assert_eq!(got_rows, vec![5, 6]);
}

#[test]
fn float_blocks_only_its_own_rows() {
    let parent = Rect::new(0, 0, 8, 3);
    let child = Rect::new(2, 1, 3, 1); // only row 1 is blocked
    let intervals = free_intervals_in_rows(parent, &[child], 0, 0..3);
    // Row 0: full; row 1: split; row 2: full.
    let row0: Vec<_> = intervals.iter().filter(|iv| iv.row == 0).collect();
    let row1: Vec<_> = intervals.iter().filter(|iv| iv.row == 1).collect();
    assert_eq!(row0.len(), 1);
    assert_eq!(row1.len(), 2);
}

// ── free_cells_in_window ──────────────────────────────────────────────

#[test]
fn cells_empty_children_fill_window() {
    let parent = Rect::new(0, 0, 4, 2);
    let cells = free_cells_in_window(parent, &[], 0, parent);
    assert_eq!(cells.len(), 8); // 4×2 all free
    assert!(cells.contains(&(0, 0)));
    assert!(cells.contains(&(3, 1)));
}

#[test]
fn cells_exclude_floats() {
    let parent = Rect::new(0, 0, 4, 2);
    let child = Rect::new(1, 0, 2, 2); // blocks columns 1 and 2
    let cells = free_cells_in_window(parent, &[child], 0, parent);
    // Only columns 0 and 3 survive, across both rows.
    assert_eq!(cells.len(), 4);
    for (x, _) in &cells {
        assert!(*x == 0 || *x == 3);
    }
}

#[test]
fn cells_clipped_to_window() {
    let parent = Rect::new(0, 0, 10, 10);
    // Window is a 2×2 patch; only those four cells may be reported.
    let window = Rect::new(4, 4, 2, 2);
    let cells = free_cells_in_window(parent, &[], 0, window);
    assert_eq!(cells.len(), 4);
    for (x, y) in &cells {
        assert!((4..6).contains(x) && (4..6).contains(y));
    }
}

