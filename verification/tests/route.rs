use std::collections::HashSet;

use mullion::border::LineWeight;
use mullion::buffer::Buffer;
use mullion::float::free_cells_in_window;
use mullion::geometry::{Direction, Rect};
use mullion::label::Side;
use mullion::route::{cell_key, render, route, route_all, Connector, RouteRequest};
use mullion::socket::{Flow, Socket};
use mullion::style::{Color, Style};

/// Free cells of a `w×h` canvas with the given node rects removed (gutter 0).
fn free_grid(w: u16, h: u16, nodes: &[Rect]) -> HashSet<u32> {
    let canvas = Rect::new(0, 0, w, h);
    free_cells_in_window(canvas, nodes, 0, canvas).into_iter().map(cell_key).collect()
}

fn is_orthogonal(path: &[(u16, u16)]) -> bool {
    path.windows(2).all(|s| {
        let (a, b) = (s[0], s[1]);
        a.0.abs_diff(b.0) + a.1.abs_diff(b.1) == 1
    })
}

fn edge(a: (u16, u16), b: (u16, u16)) -> (u16, u16, u8) {
    if a.1 == b.1 {
        (a.0.min(b.0), a.1, 0)
    } else {
        (a.0, a.1.min(b.1), 1)
    }
}

fn edges_of(path: &[(u16, u16)]) -> HashSet<(u16, u16, u8)> {
    path.windows(2).map(|w| edge(w[0], w[1])).collect()
}

#[test]
fn straight_shot_has_no_bends() {
    let free = free_grid(20, 5, &[]);
    let path = route(&free, (1, 2), (15, 2), 4).unwrap();
    assert_eq!(path.first(), Some(&(1, 2)));
    assert_eq!(path.last(), Some(&(15, 2)));
    assert!(is_orthogonal(&path));
    // A clear horizontal shot: one row throughout, zero turns.
    assert!(path.iter().all(|c| c.1 == 2), "should stay on row 2");
    assert_eq!(path.len(), 15, "straight Manhattan length");
}

#[test]
fn routes_around_an_obstacle() {
    // A node spanning the middle forces a detour.
    let node = Rect::new(6, 0, 4, 4); // blocks cols 6..10 on rows 0..4
    let free = free_grid(16, 6, &[node]);
    let path = route(&free, (2, 1), (13, 1), 4).unwrap();
    assert!(is_orthogonal(&path));
    // The path never enters the node.
    assert!(path.iter().all(|&(x, y)| !node.contains(x, y)));
    assert_eq!(path.first(), Some(&(2, 1)));
    assert_eq!(path.last(), Some(&(13, 1)));
}

#[test]
fn unreachable_returns_none() {
    // A full-height wall splits the canvas in two.
    let wall = Rect::new(5, 0, 1, 6);
    let free = free_grid(10, 6, &[wall]);
    assert_eq!(route(&free, (2, 2), (8, 2), 4), None);
}

#[test]
fn endpoints_coincide_with_socket_attach_cells() {
    // Two nodes; wire an output of one to an input of the other.
    let a = Rect::new(2, 2, 8, 5);
    let b = Rect::new(20, 6, 8, 5);
    let free = free_grid(40, 16, &[a, b]);
    let out = Socket::new(Side::Right, 2, Flow::Out, 0);
    let inp = Socket::new(Side::Left, 2, Flow::In, 0);
    let start = out.attach(a).unwrap();
    let goal = inp.attach(b).unwrap();
    let path = route(&free, start, goal, 4).unwrap();
    assert_eq!(path.first(), Some(&start));
    assert_eq!(path.last(), Some(&goal));
    assert!(is_orthogonal(&path));
}

#[test]
fn parallel_wires_nudge_onto_separate_tracks() {
    // A horizontal corridor exactly two rows tall (rows 2,3) between two walls.
    let walls = [Rect::new(4, 0, 4, 2), Rect::new(4, 4, 4, 1)];
    let free = free_grid(12, 5, &walls);
    let reqs = [
        RouteRequest::new((1, 2), (10, 2), Direction::Left, Direction::Right),
        RouteRequest::new((1, 3), (10, 3), Direction::Left, Direction::Right),
    ];
    let cons: Vec<_> = route_all(&free, &reqs, 4, 2).into_iter().flatten().collect();
    assert_eq!(cons.len(), 2, "both fit in a 2-row gutter");
    // No shared edge (the nudging invariant)…
    assert!(edges_of(&cons[0].path).is_disjoint(&edges_of(&cons[1].path)));
    // …and in a sufficient gutter, no shared cell at all.
    let first: HashSet<_> = cons[0].path.iter().copied().collect();
    assert!(cons[1].path.iter().all(|c| !first.contains(c)));
}

#[test]
fn one_cell_corridor_holds_one_wire() {
    // The only crossing of cols 4..8 is row 2 (a 1-cell corridor).
    let walls = [Rect::new(4, 0, 4, 2), Rect::new(4, 3, 4, 2)];
    let free = free_grid(12, 5, &walls);
    let reqs = [
        RouteRequest::new((1, 2), (10, 2), Direction::Left, Direction::Right),
        RouteRequest::new((1, 1), (10, 1), Direction::Left, Direction::Right),
    ];
    let out = route_all(&free, &reqs, 4, 0);
    assert!(out[0].is_some(), "first wire takes the corridor");
    assert!(out[1].is_none(), "second has no track left — fails gracefully");
}

#[test]
fn crossing_resolves_to_plus_and_keeps_net_colour() {
    let free = free_grid(11, 7, &[]);
    let h = Connector::route(&free, (1, 3), (9, 3), 4, Direction::Left, Direction::Right).unwrap();
    let v = Connector::route(&free, (5, 1), (5, 5), 4, Direction::Up, Direction::Down).unwrap();
    let area = Rect::new(0, 0, 11, 7);
    let mut buf = Buffer::empty(area);
    let styles = [Style::default().fg(Color::Red), Style::default().fg(Color::Blue)];
    render(&mut buf, area, (0, 0), &[h, v], &styles, &[], LineWeight::Light);
    // A horizontal wire crossing a vertical one resolves deterministically to ┼…
    assert_eq!(buf.get(5, 3).symbol, "┼");
    // …and the crossing keeps the later net's colour (blue).
    assert_eq!(buf.get(5, 3).style.fg, Color::Blue);
    // Each net keeps its own colour away from the crossing.
    assert_eq!(buf.get(2, 3).style.fg, Color::Red);
    assert_eq!(buf.get(5, 2).style.fg, Color::Blue);
}

#[test]
fn start_equal_goal_and_blocked_ends() {
    let free = free_grid(5, 5, &[Rect::new(2, 2, 1, 1)]);
    assert_eq!(route(&free, (1, 1), (1, 1), 0), Some(vec![(1, 1)]));
    assert_eq!(route(&free, (2, 2), (0, 0), 0), None);
    assert_eq!(route(&free, (0, 0), (2, 2), 0), None);
}

fn turns(path: &[(u16, u16)]) -> usize {
    path.windows(3)
        .filter(|w| {
            let d1 = (w[1].0 as i32 - w[0].0 as i32, w[1].1 as i32 - w[0].1 as i32);
            let d2 = (w[2].0 as i32 - w[1].0 as i32, w[2].1 as i32 - w[1].1 as i32);
            d1 != d2
        })
        .count()
}

#[test]
fn a_diagonal_trip_takes_the_cheapest_path() {
    // Open field: the cheapest path from (0, 0) to (3, 2) takes 5 steps and turns once.
    let free = free_grid(6, 6, &[]);
    let path = route(&free, (0, 0), (3, 2), 10).unwrap();
    assert_eq!(path.first(), Some(&(0, 0)));
    assert_eq!(path.last(), Some(&(3, 2)));
    assert!(is_orthogonal(&path));
    assert_eq!(path.len(), 6);
    assert_eq!(turns(&path), 1);
}

#[test]
fn a_walled_off_goal_has_no_route() {
    // A wall of nodes across the whole canvas separates the two ends.
    let free = free_grid(10, 6, &[Rect::new(4, 0, 1, 6)]);
    assert_eq!(route(&free, (1, 2), (8, 2), 0), None);
    let out = route_all(&free, &[RouteRequest::new((1, 2), (8, 2), Direction::Left, Direction::Right)], 0, 0);
    assert_eq!(out.len(), 1);
    assert!(out[0].is_none());
}
