use mullion::buffer::Buffer;
use mullion::geometry::Rect;
use mullion::style::Style;


fn buf(w: u16, h: u16) -> Buffer {
    Buffer::empty(Rect::new(0, 0, w, h))
}

#[test]
fn set_string_clips_at_right_edge() {
    let mut b = buf(4, 1);
    b.set_string(0, 0, "Hello", Style::default());
    assert_eq!(b.get(0, 0).symbol, "H");
    assert_eq!(b.get(3, 0).symbol, "l");
}

#[test]
fn wide_graphemes_write_continuation_cells() {
    let mut b = buf(6, 1);
    b.set_string(0, 0, "世界", Style::default());
    // col 0: '世', col 1: continuation, col 2: '界', col 3: continuation
    assert_eq!(b.get(0, 0).symbol, "世");
    assert!(b.get(1, 0).is_continuation(), "col 1 should be continuation");
    assert_eq!(b.get(2, 0).symbol, "界");
    assert!(b.get(3, 0).is_continuation(), "col 3 should be continuation");
}

#[test]
fn overwrite_first_half_of_wide_grapheme_blanks_second() {
    let mut b = buf(4, 1);
    b.set_string(0, 0, "世", Style::default());
    assert!(b.get(1, 0).is_continuation());
    // Now overwrite col 0 with a narrow char.
    b.set_grapheme(0, 0, "A", Style::default());
    assert_eq!(b.get(0, 0).symbol, "A");
    // col 1 must no longer be a continuation.
    assert_eq!(b.get(1, 0).symbol, " ", "continuation should have been blanked");
}

#[test]
fn overwrite_second_half_of_wide_grapheme_blanks_first() {
    let mut b = buf(4, 1);
    b.set_string(0, 0, "世", Style::default());
    // Overwrite the continuation at col 1.
    b.set_grapheme(1, 0, "B", Style::default());
    assert_eq!(b.get(1, 0).symbol, "B");
    // col 0 must have been blanked.
    assert_eq!(b.get(0, 0).symbol, " ", "wide cell should have been blanked");
}

#[test]
fn combining_mark_stays_in_one_cell() {
    let mut b = buf(4, 1);
    // "e\u{0301}" = é as base + combining acute
    b.set_string(0, 0, "e\u{0301}", Style::default());
    // grapheme segmentation should keep them together as one cluster
    let sym = &b.get(0, 0).symbol;
    assert!(sym.contains('e') && sym.contains('\u{0301}'),
        "combining mark should be in same cell, got: {sym:?}");
    assert_eq!(b.get(1, 0).symbol, " ", "col 1 should be untouched");
}

#[test]
fn diff_equal_buffers_empty() {
    let a = buf(4, 2);
    let b = buf(4, 2);
    assert!(a.diff(&b).is_empty());
}

#[test]
fn diff_single_change() {
    let mut a = buf(4, 2);
    let b = buf(4, 2);
    a.get_mut(2, 1).symbol = "X".into();
    let d = a.diff(&b);
    assert_eq!(d.len(), 1);
    assert_eq!((d[0].0, d[0].1), (2, 1));
}

#[test]
fn diff_continuation_cells_not_emitted() {
    let mut a = buf(4, 1);
    let b = buf(4, 1);
    a.set_string(0, 0, "世", Style::default());
    let d = a.diff(&b);
    // Only the wide cell itself (col 0) should appear, not the continuation (col 1).
    assert_eq!(d.len(), 1);
    assert_eq!(d[0].0, 0);
}

#[test]
fn resize_then_write_does_not_panic() {
    let mut b = buf(10, 10);
    b.resize(Rect::new(0, 0, 5, 5));
    b.set_string(0, 0, "Hi", Style::default());
    b.resize(Rect::new(0, 0, 20, 20));
    b.set_string(0, 0, "Hello world!", Style::default());
}
