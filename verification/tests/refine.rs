use mullion::geometry::Rect;
use mullion::refine::layout_terms;

#[test]
fn layout_terms_count_overlap_alignment_and_bbox() {
    let rects = vec![
        Rect::new(0, 0, 4, 4),
        Rect::new(2, 2, 4, 4),
        Rect::new(10, 0, 2, 2),
        Rect::new(10, 8, 3, 1),
    ];
    let t = layout_terms(&rects);
    // Only the first two overlap.
    assert_eq!(t.overlap, 1);
    // Columns 0, 2, 10 and rows 0, 2, 8.
    assert_eq!(t.alignment, 6);
    assert_eq!(t.bbox, Some((0, 0, 13, 9)));
}

#[test]
fn layout_terms_of_no_nodes() {
    let t = layout_terms(&Vec::new());
    assert_eq!(t.overlap, 0);
    assert_eq!(t.alignment, 0);
    assert_eq!(t.bbox, None);
}

#[test]
fn layout_terms_touching_rects_do_not_overlap() {
    let rects = vec![Rect::new(0, 0, 4, 4), Rect::new(4, 0, 4, 4), Rect::new(0, 4, 4, 4)];
    let t = layout_terms(&rects);
    assert_eq!(t.overlap, 0);
    assert_eq!(t.alignment, 4);
    assert_eq!(t.bbox, Some((0, 0, 8, 8)));
}
