use mullion::geometry::Rect;
use mullion::runaround::slots_in;

#[test]
fn obstacle_splits_row_into_two_slots() {
    // A tile occupying columns [4, 8) on rows 0..2 splits those rows.
    let parent = Rect::new(0, 0, 12, 3);
    let tile = Rect::new(4, 0, 4, 2);
    let slots = slots_in(parent, &[tile], 0, 0..3);
    // Rows 0 and 1: left [0,4) and right [8,12); row 2: full [0,12).
    let row0: Vec<_> = slots.iter().filter(|s| s.row == 0).collect();
    assert_eq!(row0.len(), 2);
    assert_eq!((row0[0].col, row0[0].width), (0, 4)); // left of tile
    assert_eq!((row0[1].col, row0[1].width), (8, 4)); // right of tile
    let row2: Vec<_> = slots.iter().filter(|s| s.row == 2).collect();
    assert_eq!(row2.len(), 1);
    assert_eq!(row2[0].width, 12);
}

#[test]
fn no_obstacle_gives_one_full_slot_per_row() {
    let parent = Rect::new(0, 0, 10, 4);
    let slots = slots_in(parent, &[], 0, 0..4);
    assert!(slots.iter().all(|s| s.col == 0 && s.width == 10));
    let rows: Vec<u16> = slots.iter().map(|s| s.row).collect();
    assert_eq!(rows, vec![0, 1, 2, 3]);
}

#[test]
fn gutter_widens_the_hole_and_rows_are_bounded() {
    let parent = Rect::new(0, 0, 12, 5);
    let tile = Rect::new(4, 1, 4, 1);
    // Gutter 1 grows the tile to columns [3, 9) on rows 0..3.
    let slots = slots_in(parent, &[tile], 1, 1..2);
    assert_eq!(slots.len(), 2);
    assert_eq!((slots[0].row, slots[0].col, slots[0].width), (1, 0, 3));
    assert_eq!((slots[1].row, slots[1].col, slots[1].width), (1, 9, 3));
}
