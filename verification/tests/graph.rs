use mullion::float::FloatRect;
use mullion::geometry::Rect;
use mullion::graph::GraphCanvas;


fn canvas() -> GraphCanvas {
    let mut c = GraphCanvas::new(40, 20).with_grid(4);
    c.add(1, FloatRect::new(2, 2, 8, 4));
    c.add(2, FloatRect::new(20, 10, 10, 5));
    c
}

#[test]
fn add_place_remove() {
    let mut c = canvas();
    assert_eq!(c.place(1), Some(FloatRect::new(2, 2, 8, 4)));
    assert_eq!(c.nodes().len(), 2);
    // Re-adding an id moves it rather than duplicating.
    c.add(1, FloatRect::new(5, 5, 8, 4));
    assert_eq!(c.nodes().len(), 2);
    assert_eq!(c.place(1), Some(FloatRect::new(5, 5, 8, 4)));
    assert!(c.remove(2));
    assert!(!c.remove(2));
    assert_eq!(c.nodes().len(), 1);
}

#[test]
fn move_clamps_into_canvas() {
    let mut c = canvas();
    // Way past the right/bottom edge → clamped so the node still fits.
    c.move_to(1, 999, 999);
    let p = c.place(1).unwrap();
    assert_eq!(p, FloatRect::new(40 - 8, 20 - 4, 8, 4));
}

#[test]
fn nudge_then_inverse_returns() {
    let mut c = canvas();
    let before = c.place(1).unwrap();
    c.nudge(1, 3, -1);
    c.nudge(1, -3, 1);
    assert_eq!(c.place(1).unwrap(), before);
}

#[test]
fn resize_reclamps_nodes() {
    let mut c = canvas(); // 40×20, node 2 at (20,10,10,5)
    c.resize(22, 12); // node 2 (right edge 30) no longer fits → clamped
    let p = c.place(2).unwrap();
    assert!(p.x + p.width <= 22 && p.y + p.height <= 12);
    assert_eq!(p, FloatRect::new(22 - 10, 12 - 5, 10, 5));
}

#[test]
fn snap_aligns_to_grid() {
    let mut c = canvas(); // grid 4
    c.move_to(1, 6, 9); // → snaps to (8, 8)? 6→8 (nearest 4), 9→8
    c.snap_to_grid(1);
    let p = c.place(1).unwrap();
    assert_eq!(p.x % 4, 0);
    assert_eq!(p.y % 4, 0);
    assert_eq!((p.x, p.y), (8, 8));
}

#[test]
fn solve_and_hit_test() {
    let c = canvas();
    let window = Rect::new(100, 50, 40, 20); // canvas shown at (100,50)
    let rects = c.solve(window);
    // Node 1 (canvas-local 2,2) → absolute (102, 52).
    let r1 = rects.iter().find(|(id, _)| *id == 1).unwrap().1;
    assert_eq!(r1, Rect::new(102, 52, 8, 4));
    // The existing tile_at hit-tests the same shape.
    assert_eq!(tile_at(&rects, 103, 53), Some(1));
    assert_eq!(tile_at(&rects, 0, 0), None);
}

/// Hit-test helper: the first tile whose rect contains `(x, y)`.
fn tile_at(rects: &[(u64, Rect)], x: u16, y: u16) -> Option<u64> {
    rects.iter().find(|(_, r)| r.contains(x, y)).map(|(id, _)| *id)
}
