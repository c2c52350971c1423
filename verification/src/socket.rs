use vstd::prelude::*;

use crate::border::{put_strokes, stroke, BorderGap, Stroke};
use crate::buffer::{Buffer, CellView};
use crate::geometry::{sat_add, Direction, Rect};
use crate::label::Side;
use crate::style::Style;

verus! {

/// A socket's connector direction.
#[derive(Debug, Clone, Copy, PartialEq, Eq, Structural, Hash)]
pub enum Flow {
    /// Flow into the tile.
    In,
    /// Flow out of the tile.
    Out,
    /// Flow both ways.
    Bidirectional,
}

impl Default for Flow {
    fn default() -> (f: Self)
        ensures
            f == Flow::In,
    {
        Flow::In
    }
}

/// A semantic gap on one edge of a tile's border, where a connector attaches;
/// `offset` and `length` are measured in cells along `side`.
#[derive(Debug, Clone, Copy, PartialEq, Eq, Structural, Hash)]
pub struct Socket {
    /// The edge of the tile the socket sits on.
    pub side: Side,
    /// Edge-local start cell (0 is the corner).
    pub offset: u16,
    /// Gap length in cells.
    pub length: u16,
    /// Connector direction.
    pub flow: Flow,
    /// Caller-assigned type tag.
    pub kind: u16,
}

/// The length of `side` of `tile`: its width for the top and bottom, its height for
/// the left and right.
pub open spec fn edge_len_spec(side: Side, tile: Rect) -> u16 {
    match side {
        Side::Top | Side::Bottom => tile.width,
        Side::Left | Side::Right => tile.height,
    }
}

/// The far edge of `tile` on `side` is a row or column of the coordinate space: the
/// bottom row of a tile reaching below row 0, the right column of one reaching past
/// column 0.
pub open spec fn edge_ok(side: Side, tile: Rect) -> bool {
    &&& (side is Bottom ==> tile.y + tile.height >= 1)
    &&& (side is Right ==> tile.x + tile.width >= 1)
}

/// The edge-local interval `[start, end)` a socket opens on `tile`: its own interval
/// cut to the edge interior `[1, len - 1)`; `None` when the edge is under 3 cells or
/// nothing of the socket is left.
pub open spec fn gap_interval(s: Socket, tile: Rect) -> Option<(int, int)> {
    let len = edge_len_spec(s.side, tile) as int;
    let start: int = if s.offset >= 1 {
        s.offset as int
    } else {
        1
    };
    let reach = sat_add(s.offset, s.length) as int;
    let end: int = if reach <= len - 1 {
        reach
    } else {
        len - 1
    };
    if len < 3 || end <= start {
        None
    } else {
        Some((start, end))
    }
}

/// The absolute rect of a socket's gap on `tile`: its interval laid along the top or
/// bottom row, or down the left or right column.
pub open spec fn gap_rect(s: Socket, tile: Rect) -> Option<Rect> {
    match gap_interval(s, tile) {
        None => None,
        Some((st, en)) => Some(
            match s.side {
                Side::Top => Rect { x: sat_add(tile.x, st as u16), y: tile.y, width: (en - st) as u16, height: 1 },
                Side::Bottom => Rect {
                    x: sat_add(tile.x, st as u16),
                    y: (tile.bottom_spec() - 1) as u16,
                    width: (en - st) as u16,
                    height: 1,
                },
                Side::Left => Rect { x: tile.x, y: sat_add(tile.y, st as u16), width: 1, height: (en - st) as u16 },
                Side::Right => Rect {
                    x: (tile.right_spec() - 1) as u16,
                    y: sat_add(tile.y, st as u16),
                    width: 1,
                    height: (en - st) as u16,
                },
            },
        ),
    }
}

/// The middle cell of a socket's gap, rounding toward its start.
pub open spec fn anchor_spec(s: Socket, tile: Rect) -> Option<(u16, u16)> {
    match gap_rect(s, tile) {
        None => None,
        Some(r) => Some(((r.x + (if r.width >= 1 { r.width - 1 } else { 0 }) / 2) as u16, (r.y + (if r.height >= 1 { r.height - 1 } else { 0 }) / 2) as u16)),
    }
}

/// The direction a socket on `side` faces, away from the tile.
pub open spec fn outward_spec(side: Side) -> Direction {
    match side {
        Side::Top => Direction::Up,
        Side::Bottom => Direction::Down,
        Side::Left => Direction::Left,
        Side::Right => Direction::Right,
    }
}

/// The unit sockets that [`Socket::pack`] places: `min(count, len - 2)` of them, the
/// `k`-th at offset `1 + k * (len - 2) / n`; none for an edge under 3 cells.
pub open spec fn pack_spec(side: Side, count: nat, edge_len: int) -> Seq<Socket> {
    let interior = edge_len - 2;
    let n: int = if count <= interior {
        count as int
    } else {
        interior
    };
    if edge_len < 3 || count == 0 {
        Seq::empty()
    } else {
        Seq::new(
            n as nat,
            |k: int| Socket { side, offset: (1 + (k * interior) / n) as u16, length: 1, flow: Flow::In, kind: 0 },
        )
    }
}

impl Socket {
    /// A unit-length socket.
    pub fn new(side: Side, offset: u16, flow: Flow, kind: u16) -> (s: Self)
        ensures
            s == (Socket { side, offset, length: 1, flow, kind }),
    {
        Socket { side, offset, length: 1, flow, kind }
    }

    /// The same socket with gap length `length`, at least 1.
    pub fn with_length(self, length: u16) -> (s: Self)
        ensures
            s == (Socket { length: if length >= 1 { length } else { 1 }, ..self }),
    {
        Socket {
            length: if length >= 1 {
                length
            } else {
                1
            },
            ..self
        }
    }

    /// The length of `side` of `tile`.
    pub fn edge_len(side: Side, tile: Rect) -> (r: u16)
        ensures
            r == edge_len_spec(side, tile),
    {
        match side {
            Side::Top | Side::Bottom => tile.width,
            Side::Left | Side::Right => tile.height,
        }
    }

    /// This socket's gap on `tile`, kept off both corners; `None` when it does not fit.
    pub fn gap(&self, tile: Rect) -> (r: Option<BorderGap>)
        requires
            edge_ok(self.side, tile),
        ensures
            r is None <==> gap_rect(*self, tile) is None,
            r matches Some(g) ==> gap_rect(*self, tile) == Some(g.rect),
    {
        let edge_len = Self::edge_len(self.side, tile);
        if edge_len < 3 {
            return None;
        }
        let start = if self.offset >= 1 {
            self.offset
        } else {
            1
        };
        let reach = self.offset.saturating_add(self.length);
        let end = if reach <= edge_len - 1 {
            reach
        } else {
            edge_len - 1
        };
        if end <= start {
            return None;
        }
        let span = end - start;
        let rect = match self.side {
            Side::Top => Rect::new(tile.x.saturating_add(start), tile.y, span, 1),
            Side::Bottom => Rect::new(tile.x.saturating_add(start), tile.bottom() - 1, span, 1),
            Side::Left => Rect::new(tile.x, tile.y.saturating_add(start), 1, span),
            Side::Right => Rect::new(tile.right() - 1, tile.y.saturating_add(start), 1, span),
        };
        Some(BorderGap::new(rect))
    }

    /// The rect of this socket's gap on `tile`, or `None` when it does not fit.
    pub fn rect(&self, tile: Rect) -> (r: Option<Rect>)
        requires
            edge_ok(self.side, tile),
        ensures
            r == gap_rect(*self, tile),
    {
        match self.gap(tile) {
            Some(g) => Some(g.rect),
            None => None,
        }
    }

    /// The middle cell of the gap, where a connector attaches; `None` when the socket
    /// does not fit.
    pub fn anchor(&self, tile: Rect) -> (r: Option<(u16, u16)>)
        requires
            tile.fits(),
            edge_ok(self.side, tile),
        ensures
            r == anchor_spec(*self, tile),
    {
        let r = match self.rect(tile) {
            Some(r) => r,
            None => return None,
        };
        let x = r.x + r.width.saturating_sub(1) / 2;
        let y = r.y + r.height.saturating_sub(1) / 2;
        Some((x, y))
    }

    /// Place `count` unit sockets evenly along `side` of an edge `edge_len` cells long:
    /// at most one per interior cell, in increasing order, never on a corner.
    pub fn pack(side: Side, count: usize, edge_len: u16) -> (out: Vec<Socket>)
        ensures
            out@ == pack_spec(side, count as nat, edge_len as int),
    {
        let mut out: Vec<Socket> = Vec::new();
        if edge_len < 3 || count == 0 {
            proof {
                assert(out@ =~= pack_spec(side, count as nat, edge_len as int));
            }
            return out;
        }
        let interior = (edge_len - 2) as usize;
        let n = if count <= interior {
            count
        } else {
            interior
        };
        let ghost want = pack_spec(side, count as nat, edge_len as int);
        let mut k: usize = 0;
        while k < n
            invariant
                n >= 1,
                n <= interior,
                interior == edge_len - 2,
                edge_len >= 3,
                count >= 1,
                n == if count <= interior {
                    count as int
                } else {
                    interior as int
                },
                want == pack_spec(side, count as nat, edge_len as int),
                want.len() == n,
                k <= n,
                out@.len() == k,
                forall|j: int| 0 <= j < k ==> #[trigger] out@[j] == want[j],
            decreases n - k,
        {
            proof {
                assert(k * interior <= n * interior) by (nonlinear_arith)
                    requires
                        k <= n,
                        interior >= 0,
                ;
                assert(n * interior <= 65535 * 65535) by (nonlinear_arith)
                    requires
                        n <= 65535,
                        interior <= 65535,
                ;
                assert((k * interior) / (n as int) < interior) by (nonlinear_arith)
                    requires
                        k < n,
                        n >= 1,
                        interior >= 0,
                        n <= interior,
                ;
            }
            let offset = 1 + (k * interior) / n;
            out.push(Socket::new(side, offset as u16, Flow::In, 0));
            k = k + 1;
        }
        proof {
            assert(out@ =~= want);
        }
        out
    }

    /// The direction this socket faces, away from the tile.
    pub fn outward(&self) -> (d: Direction)
        ensures
            d == outward_spec(self.side),
    {
        match self.side {
            Side::Top => Direction::Up,
            Side::Bottom => Direction::Down,
            Side::Left => Direction::Left,
            Side::Right => Direction::Right,
        }
    }

    /// The cell just outside the socket, one step outward from its anchor: where a
    /// connector ends.  `None` when the socket does not fit or that cell would fall
    /// off the coordinate space.
    pub fn attach(&self, tile: Rect) -> (r: Option<(u16, u16)>)
        requires
            tile.fits(),
            edge_ok(self.side, tile),
        ensures
            r == match anchor_spec(*self, tile) {
                None => None,
                Some((ax, ay)) => {
                    let (dx, dy) = match outward_spec(self.side) {
                        Direction::Up => (0int, -1int),
                        Direction::Down => (0int, 1int),
                        Direction::Left => (-1int, 0int),
                        Direction::Right => (1int, 0int),
                    };
                    if 0 <= ax + dx <= u16::MAX && 0 <= ay + dy <= u16::MAX {
                        Some(((ax + dx) as u16, (ay + dy) as u16))
                    } else {
                        None
                    }
                },
            },
    {
        let (ax, ay) = match self.anchor(tile) {
            Some(a) => a,
            None => return None,
        };
        let (dx, dy) = self.outward().delta();
        let x = ax as i32 + dx;
        let y = ay as i32 + dy;
        if x < 0 || x > 0xffff || y < 0 || y > 0xffff {
            return None;
        }
        Some((x as u16, y as u16))
    }
}

/// A socket's gap, when there is one, lies in the interior of its edge: it starts at
/// least one cell in, ends before the far corner, and is not empty.
pub proof fn lemma_gap_within_interior(s: Socket, tile: Rect)
    requires
        tile.fits(),
    ensures
        gap_rect(s, tile) matches Some(r) ==> {
            let len = edge_len_spec(s.side, tile) as int;
            let (lo, hi) = match s.side {
                Side::Top | Side::Bottom => (r.x - tile.x, r.x + r.width - tile.x),
                Side::Left | Side::Right => (r.y - tile.y, r.y + r.height - tile.y),
            };
            1 <= lo < hi < len
        },
{
}

/// Packed sockets on one edge never overlap: their gaps on any tile come in strictly
/// increasing order along the edge, each ending before the next begins.
pub proof fn lemma_packed_disjoint(side: Side, count: nat, tile: Rect, i: int, j: int)
    requires
        tile.fits(),
        0 <= i < j < pack_spec(side, count, edge_len_spec(side, tile) as int).len(),
    ensures
        ({
            let p = pack_spec(side, count, edge_len_spec(side, tile) as int);
            &&& gap_rect(p[i], tile) is Some
            &&& gap_rect(p[j], tile) is Some
            &&& match side {
                Side::Top | Side::Bottom => gap_rect(p[i], tile)->0.x + gap_rect(p[i], tile)->0.width
                    <= gap_rect(p[j], tile)->0.x,
                Side::Left | Side::Right => gap_rect(p[i], tile)->0.y + gap_rect(p[i], tile)->0.height
                    <= gap_rect(p[j], tile)->0.y,
            }
        }),
{
    let len = edge_len_spec(side, tile) as int;
    let interior = len - 2;
    let n: int = if count <= interior {
        count as int
    } else {
        interior
    };
    assert(len >= 3 && count != 0);
    assert((i * interior) / n + 1 <= (j * interior) / n) by (nonlinear_arith)
        requires
            0 <= i < j,
            1 <= n <= interior,
    {
        assert(j * interior >= i * interior + n) by (nonlinear_arith)
            requires
                0 <= i < j,
                1 <= n <= interior,
        ;
        vstd::arithmetic::div_mod::lemma_div_is_ordered(i * interior + n, j * interior, n);
        vstd::arithmetic::div_mod::lemma_div_plus_one(i * interior, n);
    }
    assert((j * interior) / n < interior) by (nonlinear_arith)
        requires
            0 <= j < n,
            1 <= n <= interior,
    ;
    assert(0 <= (i * interior) / n) by (nonlinear_arith)
        requires
            0 <= i,
            1 <= n <= interior,
    ;
}

/// The two bookend caps that flank a socket's opening: `┤` and `├` along a
/// horizontal edge, `┴` and `┬` along a vertical one.
pub fn bookends(side: Side) -> (r: (&'static str, &'static str))
    ensures
        r == match side {
            Side::Top | Side::Bottom => ("┤", "├"),
            Side::Left | Side::Right => ("┴", "┬"),
        },
{
    match side {
        Side::Top | Side::Bottom => ("┤", "├"),
        Side::Left | Side::Right => ("┴", "┬"),
    }
}

/// The glyphs [`draw_socket`] writes: along a horizontal edge the left cap, the
/// circle, a space and the right cap from the cell before the anchor; along a vertical
/// edge the upper cap, the circle and the lower cap from the cell above it.  None when
/// the socket does not fit or its caps would not stay clear of the corners.
pub open spec fn socket_strokes(tile: Rect, s: Socket, connected: bool) -> Seq<Stroke> {
    let circle = if connected {
        "●"@
    } else {
        "○"@
    };
    match anchor_spec(s, tile) {
        None => Seq::empty(),
        Some((ax, ay)) => match s.side {
            Side::Top | Side::Bottom => if ax < tile.x + 2 || ax + 2 > tile.right_spec() - 2 {
                Seq::empty()
            } else {
                seq![(ax - 1, ay as int, "┤"@), (ax as int, ay as int, circle), (ax + 1, ay as int, " "@), (ax + 2, ay as int, "├"@)]
            },
            Side::Left | Side::Right => if ay < tile.y + 2 || ay + 1 > tile.bottom_spec() - 2 {
                Seq::empty()
            } else {
                seq![(ax as int, ay - 1, "┴"@), (ax as int, ay as int, circle), (ax as int, ay + 1, "┬"@)]
            },
        },
    }
}

/// Draw a socket as a bookended gap in `tile`'s edge with a circle in the opening:
/// `●` when `connected`, `○` when not, all in `style`.
pub fn draw_socket(buf: &mut Buffer, tile: Rect, socket: &Socket, connected: bool, style: Style)
    requires
        old(buf).wf(),
        tile.fits(),
        edge_ok(socket.side, tile),
    ensures
        final(buf).wf(),
        final(buf).area == old(buf).area,
        final(buf).view() == put_strokes(old(buf).view(), old(buf).area, socket_strokes(tile, *socket, connected), style),
{
    let ghost v0 = buf.view();
    let ghost want = socket_strokes(tile, *socket, connected);
    let (ax, ay) = match socket.anchor(tile) {
        Some(a) => a,
        None => return,
    };
    let (cap_a, cap_b) = bookends(socket.side);
    let circle = if connected {
        "●"
    } else {
        "○"
    };
    let ghost done: Seq<Stroke> = Seq::empty();
    match socket.side {
        Side::Top | Side::Bottom => {
            if ax < tile.x + 2 || ax + 2 > tile.right() - 2 {
                return;
            }
            let d1 = stroke(buf, ax - 1, ay, cap_a, style, Ghost(v0), Ghost(done));
            let d2 = stroke(buf, ax, ay, circle, style, Ghost(v0), d1);
            let d3 = stroke(buf, ax + 1, ay, " ", style, Ghost(v0), d2);
            let d4 = stroke(buf, ax + 2, ay, cap_b, style, Ghost(v0), d3);
            proof {
                assert(d4@ =~= want);
            }
        },
        Side::Left | Side::Right => {
            if ay < tile.y + 2 || ay + 1 > tile.bottom() - 2 {
                return;
            }
            let d1 = stroke(buf, ax, ay - 1, cap_a, style, Ghost(v0), Ghost(done));
            let d2 = stroke(buf, ax, ay, circle, style, Ghost(v0), d1);
            let d3 = stroke(buf, ax, ay + 1, cap_b, style, Ghost(v0), d2);
            proof {
                assert(d3@ =~= want);
            }
        },
    }
}

} // verus!
