use mullion::buffer::Buffer;
use mullion::edit::{line_edit, render_field, FieldRender};
use mullion::geometry::Rect;
use mullion::style::{Color, Style};
use mullion::input::KeyCode;

fn edit(text: &str, cursor: usize, key: KeyCode) -> (String, usize, bool) {
    let mut t = text.to_string();
    let mut c = cursor;
    let changed = line_edit(&mut t, &mut c, key);
    (t, c, changed)
}

#[test]
fn insert_advances_by_char_bytes() {
    assert_eq!(edit("ac", 1, KeyCode::Char('b')), ("abc".into(), 2, true));
    // A 2-byte char advances the cursor by 2 bytes.
    assert_eq!(edit("", 0, KeyCode::Char('ä')), ("ä".into(), 2, true));
}

#[test]
fn backspace_and_delete_are_grapheme_aware() {
    // Backspace removes the whole 3-byte CJK grapheme before the cursor.
    assert_eq!(edit("a世b", 4, KeyCode::Backspace), ("ab".into(), 1, true));
    // Delete removes the grapheme at the cursor.
    assert_eq!(edit("a世b", 1, KeyCode::Delete), ("ab".into(), 1, true));
    // At the edges: no-ops returning false.
    assert_eq!(edit("ab", 0, KeyCode::Backspace), ("ab".into(), 0, false));
    assert_eq!(edit("ab", 2, KeyCode::Delete), ("ab".into(), 2, false));
}

#[test]
fn motion_steps_by_grapheme_and_signals_edges() {
    // Right over a wide grapheme lands on the next boundary (byte 4).
    assert_eq!(edit("a世b", 1, KeyCode::Right).1, 4);
    // Left from there steps back to byte 1.
    assert_eq!(edit("a世b", 4, KeyCode::Left).1, 1);
    // Home/End jump; arrows at the edges return false so a form can re-route them.
    assert_eq!(edit("abc", 3, KeyCode::Home), ("abc".into(), 0, true));
    assert_eq!(edit("abc", 0, KeyCode::End), ("abc".into(), 3, true));
    assert!(!edit("abc", 0, KeyCode::Left).2);
    assert!(!edit("abc", 3, KeyCode::Right).2);
    // Unhandled keys are ignored.
    assert!(!edit("abc", 1, KeyCode::Tab).2);
}

#[test]
fn combining_cluster_moves_and_deletes_as_one() {
    // "e" + combining acute is one cluster of 3 bytes.
    let text = "xe\u{301}y";
    assert_eq!(edit(text, 1, KeyCode::Right).1, 4);
    assert_eq!(edit(text, 4, KeyCode::Left).1, 1);
    assert_eq!(edit(text, 4, KeyCode::Backspace), ("xy".into(), 1, true));
    assert_eq!(edit(text, 1, KeyCode::Delete), ("xy".into(), 1, true));
}

#[test]
fn stale_cursor_is_clamped_and_floored() {
    // Past the end: clamped to the end, so End reports no change.
    assert_eq!(edit("abc", 99, KeyCode::End), ("abc".into(), 3, false));
    // Inside a cluster (between 'e' and the combining mark): floored to its start.
    assert_eq!(edit("xe\u{301}y", 2, KeyCode::Tab), ("xe\u{301}y".into(), 1, false));
}

fn render(text: &str, cursor: usize, scroll: &mut usize, w: u16, opts: &FieldRender) -> (Vec<String>, usize) {
    let mut buf = Buffer::empty(Rect::new(0, 0, w, 1));
    render_field(&mut buf, Rect::new(0, 0, w, 1), text, cursor, scroll, opts);
    let row = (0..w).map(|x| buf.get(x, 0).symbol.clone()).collect();
    let cursor_x = (0..w).find(|&x| buf.get(x, 0).style.bg == Color::Cyan);
    (row, cursor_x.map(usize::from).unwrap_or(usize::MAX))
}

fn opts(mask: Option<char>) -> FieldRender {
    FieldRender { style: Style::default(), cursor_style: Style::default().bg(Color::Cyan), mask }
}

#[test]
fn masks_password_and_styles_cursor() {
    let mut scroll = 0;
    let (row, cx) = render("hunter", 2, &mut scroll, 8, &opts(Some('•')));
    assert_eq!(&row[0..6], &["•", "•", "•", "•", "•", "•"]);
    assert_eq!(cx, 2, "cursor cell at column 2");
}

#[test]
fn scrolls_to_keep_cursor_visible() {
    // 12 chars in a 5-wide field, cursor at the end → window shows the tail.
    let mut scroll = 0;
    let text = "abcdefghijkl"; // 12 cols
    let (row, cx) = render(text, text.len(), &mut scroll, 5, &opts(None));
    // Cursor rests one past the last char; window is the last 5 columns [8,13).
    assert_eq!(scroll, 8);
    assert_eq!(&row[0..4], &["i", "j", "k", "l"]);
    assert_eq!(cx, 4, "cursor blank cell at the right edge");
}

#[test]
fn empty_field_draws_cursor_at_origin() {
    let mut scroll = 0;
    let (_row, cx) = render("", 0, &mut scroll, 6, &opts(None));
    assert_eq!(cx, 0);
    assert_eq!(scroll, 0);
}

#[test]
fn wide_grapheme_cut_by_left_edge_is_dropped() {
    // "a世b" takes columns 0, 1-2, 3; a 2-wide window kept at offset 2 cuts the
    // wide glyph, which is left blank rather than half drawn; the cursor is on 'b'.
    let mut scroll = 2;
    let (row, cx) = render("a世b", 4, &mut scroll, 2, &opts(None));
    assert_eq!(scroll, 2);
    assert_eq!(row, vec![" ".to_string(), "b".to_string()]);
    assert_eq!(cx, 1);
}
