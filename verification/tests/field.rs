use mullion::buffer::Buffer;
use mullion::field::{braille_bit, Field};
use mullion::geometry::Rect;
use mullion::style::Style;

#[test]
fn rect_maps_logical_to_screen() {
    let f = Field::rect(Rect::new(2, 3, 4, 2));
    assert_eq!((f.width(), f.height()), (4, 2));
    assert_eq!(f.cells().len(), 8);
    assert_eq!(f.cell(0, 0), Some((2, 3)));
    assert_eq!(f.cell(3, 1), Some((5, 4)));
    assert_eq!(f.cell(4, 0), None); // out of range
    assert_eq!(f.cell(0, 2), None);
}

#[test]
fn strip_walks_the_path() {
    let f = Field::strip(vec![(1, 1), (2, 1), (3, 2), (3, 3)]);
    assert_eq!((f.width(), f.height()), (4, 1));
    assert_eq!(f.cell(0, 0), Some((1, 1)));
    assert_eq!(f.cell(2, 0), Some((3, 2)));
    assert_eq!(f.cell(3, 0), Some((3, 3)));
    assert_eq!(f.cell(0, 1), None);
}

#[test]
fn braille_bits_pack_to_full_and_empty() {
    // All eight dots set → U+28FF (⣿); none → U+2800 (⠀).
    let mut mask = 0u8;
    for sy in 0..4 {
        for sx in 0..2 {
            mask |= braille_bit(sx, sy);
        }
    }
    assert_eq!(mask, 0xFF);
    assert_eq!(char::from_u32(0x2800 + 0xFF).unwrap(), '⣿');
    assert_eq!(char::from_u32(0x2800).unwrap(), '⠀');
}

#[test]
fn perimeter_traces_clockwise_corners_without_repeats() {
    // 4×3 box → border-cell count 2·(4+3) − 4 = 10, clockwise from the top-left.
    let f = Field::perimeter(Rect::new(0, 0, 4, 3));
    assert_eq!(f.width(), 10);
    assert_eq!(f.height(), 1);
    assert_eq!(
        f.cells(),
        &[
            (0, 0), (1, 0), (2, 0), (3, 0), // top → right
            (3, 1), (3, 2), // right edge down
            (2, 2), (1, 2), (0, 2), // bottom ← left
            (0, 1), // left edge up, back toward start
        ]
    );
    // Distinct cells (the loop is open — start not repeated).
    let mut uniq = f.cells().to_vec();
    uniq.sort();
    uniq.dedup();
    assert_eq!(uniq.len(), f.cells().len());
}

#[test]
fn perimeter_degenerate_row_and_column_are_straight_runs() {
    let row = Field::perimeter(Rect::new(2, 5, 4, 1));
    assert_eq!(row.cells(), &[(2, 5), (3, 5), (4, 5), (5, 5)]);
    let col = Field::perimeter(Rect::new(2, 5, 1, 3));
    assert_eq!(col.cells(), &[(2, 5), (2, 6), (2, 7)]);
}


#[test]
fn paint_hits_every_cell_in_logical_order() {
    let f = Field::rect(Rect::new(0, 0, 2, 2));
    let mut seen = Vec::new();
    let mut buf = Buffer::empty(Rect::new(0, 0, 2, 2));
    f.paint(&mut buf, |c, r| {
        seen.push((c, r));
        Some(("x".to_string(), Style::default()))
    });
    assert_eq!(seen, vec![(0, 0), (1, 0), (0, 1), (1, 1)]);
    assert_eq!(buf.get(1, 1).symbol, "x");
}

#[test]
fn paint_none_leaves_cells_and_strip_maps_the_path() {
    let f = Field::strip(vec![(3, 0), (0, 1)]);
    let mut buf = Buffer::empty(Rect::new(0, 0, 4, 2));
    f.paint(&mut buf, |c, _r| if c == 0 { Some(("a".to_string(), Style::default())) } else { None });
    assert_eq!(buf.get(3, 0).symbol, "a");
    assert_eq!(buf.get(0, 1).symbol, " ");
}
