use mullion::form::{focus_step, FormLayout};
use mullion::geometry::Direction;
use mullion::geometry::Rect;
use mullion::label::TextCtx;

#[test]
fn rows_lay_out_label_field_status() {
    let layout = FormLayout { label_cols: 10, gap: 1, status_cols: 3, row_height: 1 };
    let rows = layout.rows(Rect::new(0, 0, 40, 5), 2, TextCtx::ltr());
    assert_eq!(rows.len(), 2);
    assert_eq!(rows[0].label, Rect::new(0, 0, 10, 1));
    assert_eq!(rows[0].field, Rect::new(11, 0, 40 - 10 - 1 - 3, 1)); // 26 wide
    assert_eq!(rows[0].status, Rect::new(37, 0, 3, 1));
    assert_eq!(rows[1].label.y, 1); // second row one down
}

#[test]
fn rows_mirror_under_rtl() {
    let layout = FormLayout { label_cols: 10, gap: 1, status_cols: 3, row_height: 1 };
    let ltr = layout.rows(Rect::new(0, 0, 40, 1), 1, TextCtx::ltr())[0];
    let rtl = layout.rows(Rect::new(0, 0, 40, 1), 1, TextCtx::rtl())[0];
    // Label moves to the right edge; status to the left.
    assert_eq!(rtl.label.x, 40 - 10);
    assert_eq!(rtl.status.x, 0);
    assert_eq!(rtl.label.width, ltr.label.width);
}

#[test]
fn focus_step_wraps() {
    assert_eq!(focus_step(3, 0, Direction::Down), 1);
    assert_eq!(focus_step(3, 2, Direction::Down), 0); // wrap forward
    assert_eq!(focus_step(3, 0, Direction::Up), 2); // wrap back
    assert_eq!(focus_step(0, 5, Direction::Down), 5); // empty: unchanged
}

#[test]
fn rows_stop_at_the_area_bottom_and_use_tall_rows() {
    let layout = FormLayout { label_cols: 4, gap: 0, status_cols: 0, row_height: 2 };
    // Height 5 with 2-high rows: rows start at y = 0, 2, 4 only.
    let rows = layout.rows(Rect::new(0, 0, 10, 5), 10, TextCtx::ltr());
    assert_eq!(rows.len(), 3);
    assert_eq!(rows[2].label, Rect::new(0, 4, 4, 2));
    assert_eq!(rows[2].field, Rect::new(4, 4, 6, 2));
    assert_eq!(rows[2].status, Rect::new(10, 4, 0, 2));
    // A zero row height counts as one.
    let flat = FormLayout { row_height: 0, ..layout };
    assert_eq!(flat.rows(Rect::new(0, 0, 10, 3), 9, TextCtx::ltr()).len(), 3);
}
