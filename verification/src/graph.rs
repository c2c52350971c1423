use vstd::prelude::*;

use crate::float::{float_abs, FloatChild, FloatLayer, FloatRect};
use crate::geometry::{min16, sat_sub, Rect};

verus! {

/// `place` moved (never resized) so that it fits a `width × height` canvas; a node
/// wider or taller than the canvas sits at 0 on that axis.
pub open spec fn clamp_in_spec(place: FloatRect, width: u16, height: u16) -> FloatRect {
    FloatRect {
        x: min16(place.x, sat_sub(width, place.width)),
        y: min16(place.y, sat_sub(height, place.height)),
        width: place.width,
        height: place.height,
    }
}

/// `p` lies inside the canvas on each axis, or sits at 0 on an axis it overflows.
pub open spec fn in_canvas(p: FloatRect, width: u16, height: u16) -> bool {
    (p.x + p.width <= width || (p.width > width && p.x == 0)) && (p.y + p.height <= height || (
    p.height > height && p.y == 0))
}

/// `v + d` clamped below at 0 and then truncated to 16 bits.
pub open spec fn nudge_coord(v: u16, d: i32) -> u16 {
    (if v + d < 0 {
        0
    } else {
        v + d
    }) as u16
}

/// A place shifted by `(dx, dy)` (stopping at 0) and clamped into the canvas.
pub open spec fn nudge_place(p: FloatRect, dx: i32, dy: i32, width: u16, height: u16) -> FloatRect {
    clamp_in_spec(FloatRect { x: nudge_coord(p.x, dx), y: nudge_coord(p.y, dy), ..p }, width, height)
}

/// A nudge that keeps the node inside the canvas is undone by the opposite nudge.
pub proof fn lemma_nudge_inverse(p: FloatRect, dx: i32, dy: i32, width: u16, height: u16)
    requires
        p.x + p.width <= width,
        p.y + p.height <= height,
        0 <= p.x + dx,
        p.x + dx + p.width <= width,
        0 <= p.y + dy,
        p.y + dy + p.height <= height,
        dx > i32::MIN,
        dy > i32::MIN,
    ensures
        nudge_place(nudge_place(p, dx, dy, width, height), -dx as i32, -dy as i32, width, height)
            == p,
{
}

/// `v` rounded to the nearest multiple of `g` (halves up).
pub open spec fn snap_spec(v: u16, g: u16) -> u16 {
    ((v + g / 2) / (g as int) * g) as u16
}

/// The nodes not carrying `id`.
pub open spec fn keep_other(id: u64) -> spec_fn(FloatChild) -> bool {
    |n: FloatChild| n.id != id
}

/// Node ids in `s` are distinct.
pub open spec fn unique_ids(s: Seq<FloatChild>) -> bool {
    forall|i: int, j: int| 0 <= i < j < s.len() ==> s[i].id != s[j].id
}

/// The place of the node with id `id` in `s`, if any.
pub open spec fn seq_place(s: Seq<FloatChild>, id: u64) -> Option<FloatRect> {
    if exists|i: int| 0 <= i < s.len() && s[i].id == id {
        let i = choose|i: int| 0 <= i < s.len() && s[i].id == id;
        Some(s[i].place)
    } else {
        None
    }
}

/// With distinct ids, the place of `id` is that of the one node carrying it.
proof fn lemma_seq_place(s: Seq<FloatChild>, i: int, id: u64)
    requires
        unique_ids(s),
        0 <= i < s.len(),
        s[i].id == id,
    ensures
        seq_place(s, id) == Some(s[i].place),
{
    let j = choose|j: int| 0 <= j < s.len() && s[j].id == id;
    if j != i {
        if j < i {
            assert(s[j].id != s[i].id);
        } else {
            assert(s[i].id != s[j].id);
        }
    }
}

/// A free-form canvas of node tiles, each kept inside the canvas.
#[derive(Debug, Clone, PartialEq, Eq)]
pub struct GraphCanvas {
    nodes: Vec<FloatChild>,
    width: u16,
    height: u16,
    grid: u16,
}

impl GraphCanvas {
    pub closed spec fn nodes_spec(self) -> Seq<FloatChild> {
        self.nodes@
    }

    pub closed spec fn width_spec(self) -> u16 {
        self.width
    }

    pub closed spec fn height_spec(self) -> u16 {
        self.height
    }

    pub closed spec fn grid_spec(self) -> u16 {
        self.grid
    }

    /// Node ids are unique, every node lies inside the canvas, and the grid is at least 1.
    pub open spec fn wf(self) -> bool {
        &&& forall|i: int, j: int|
            0 <= i < j < self.nodes_spec().len() ==> self.nodes_spec()[i].id
                != self.nodes_spec()[j].id
        &&& forall|i: int|
            0 <= i < self.nodes_spec().len() ==> in_canvas(
                #[trigger] self.nodes_spec()[i].place,
                self.width_spec(),
                self.height_spec(),
            )
        &&& self.grid_spec() >= 1
    }

    /// The place of node `id`, if present.
    pub open spec fn place_spec(self, id: u64) -> Option<FloatRect> {
        seq_place(self.nodes_spec(), id)
    }

    /// An empty canvas of the given size, grid 1.
    pub fn new(width: u16, height: u16) -> (c: Self)
        ensures
            c.wf(),
            c.nodes_spec().len() == 0,
            c.width_spec() == width,
            c.height_spec() == height,
            c.grid_spec() == 1,
    {
        GraphCanvas { nodes: Vec::new(), width, height, grid: 1 }
    }

    /// The canvas with snapping grid `grid` (at least 1).
    pub fn with_grid(self, grid: u16) -> (c: Self)
        requires
            self.wf(),
        ensures
            c.nodes_spec() == self.nodes_spec(),
            c.width_spec() == self.width_spec(),
            c.height_spec() == self.height_spec(),
            c.grid_spec() == if grid >= 1 {
                grid
            } else {
                1
            },
            c.wf(),
    {
        let g = if grid >= 1 {
            grid
        } else {
            1
        };
        let c = GraphCanvas { nodes: self.nodes, width: self.width, height: self.height, grid: g };
        proof {
            assert forall|i: int, j: int| 0 <= i < j < c.nodes@.len() implies c.nodes@[i].id
                != c.nodes@[j].id by {
                assert(self.nodes_spec()[i].id != self.nodes_spec()[j].id);
            }
            assert forall|i: int| 0 <= i < c.nodes@.len() implies in_canvas(
                #[trigger] c.nodes@[i].place,
                c.width,
                c.height,
            ) by {
                assert(in_canvas(self.nodes_spec()[i].place, self.width, self.height));
            }
        }
        c
    }

    /// `(width, height)`.
    pub fn size(&self) -> (r: (u16, u16))
        ensures
            r == (self.width_spec(), self.height_spec()),
    {
        (self.width, self.height)
    }

    /// The snapping grid.
    pub fn grid(&self) -> (g: u16)
        ensures
            g == self.grid_spec(),
    {
        self.grid
    }

    /// The nodes, in insertion order.
    pub fn nodes(&self) -> (r: &[FloatChild])
        ensures
            r@ == self.nodes_spec(),
    {
        self.nodes.as_slice()
    }

    /// Change the canvas size; every node is re-clamped to fit.
    pub fn resize(&mut self, width: u16, height: u16)
        requires
            old(self).wf(),
        ensures
            final(self).wf(),
            final(self).width_spec() == width,
            final(self).height_spec() == height,
            final(self).grid_spec() == old(self).grid_spec(),
            final(self).nodes_spec().len() == old(self).nodes_spec().len(),
            forall|i: int|
                0 <= i < old(self).nodes_spec().len() ==> final(self).nodes_spec()[i] == (
                FloatChild {
                    id: old(self).nodes_spec()[i].id,
                    place: clamp_in_spec(old(self).nodes_spec()[i].place, width, height),
                }),
    {
        let ghost old_nodes = self.nodes@;
        self.width = width;
        self.height = height;
        let n = self.nodes.len();
        let mut i: usize = 0;
        while i < n
            invariant
                n == self.nodes@.len(),
                n == old_nodes.len(),
                0 <= i <= n,
                self.width == width,
                self.height == height,
                self.grid == old(self).grid,
                old(self).wf(),
                old_nodes == old(self).nodes_spec(),
                forall|k: int|
                    0 <= k < i ==> in_canvas(#[trigger] self.nodes@[k].place, width, height),
                forall|k: int|
                    0 <= k < i ==> self.nodes@[k] == (FloatChild {
                        id: old_nodes[k].id,
                        place: clamp_in_spec(old_nodes[k].place, width, height),
                    }),
                forall|k: int| i <= k < n ==> self.nodes@[k] == old_nodes[k],
            decreases n - i,
        {
            let c = self.nodes[i];
            self.nodes.set(i, FloatChild { id: c.id, place: clamp_in(c.place, width, height) });
            i = i + 1;
        }
    }

    /// Index of node `id`, if present.
    fn find(&self, id: u64) -> (r: Option<usize>)
        ensures
            r matches Some(i) ==> i < self.nodes_spec().len() && self.nodes_spec()[i as int].id
                == id,
            r is None ==> forall|i: int|
                0 <= i < self.nodes_spec().len() ==> self.nodes_spec()[i].id != id,
    {
        let mut i: usize = 0;
        while i < self.nodes.len()
            invariant
                0 <= i <= self.nodes@.len(),
                forall|k: int| 0 <= k < i ==> self.nodes@[k].id != id,
            decreases self.nodes@.len() - i,
        {
            if self.nodes[i].id == id {
                return Some(i);
            }
            i = i + 1;
        }
        None
    }

    /// Insert node `id` at `place` (clamped into the canvas), or move it there if it
    /// is already present.
    pub fn add(&mut self, id: u64, place: FloatRect)
        requires
            old(self).wf(),
        ensures
            final(self).wf(),
            final(self).width_spec() == old(self).width_spec(),
            final(self).height_spec() == old(self).height_spec(),
            final(self).grid_spec() == old(self).grid_spec(),
            ({
                let p = clamp_in_spec(place, old(self).width_spec(), old(self).height_spec());
                if exists|i: int|
                    0 <= i < old(self).nodes_spec().len() && old(self).nodes_spec()[i].id == id {
                    exists|i: int|
                        0 <= i < old(self).nodes_spec().len() && old(self).nodes_spec()[i].id == id
                            && final(self).nodes_spec() == old(self).nodes_spec().update(
                            i,
                            FloatChild { id, place: p },
                        )
                } else {
                    final(self).nodes_spec() == old(self).nodes_spec().push(FloatChild { id, place: p })
                }
            }),
    {
        let p = clamp_in(place, self.width, self.height);
        match self.find(id) {
            Some(i) => {
                self.nodes.set(i, FloatChild { id, place: p });
                proof {
                    assert(self.nodes@ == old(self).nodes@.update(i as int, FloatChild { id, place: p }));
                }
            },
            None => {
                self.nodes.push(FloatChild::new(id, p));
            },
        }
    }

    /// Remove node `id`; `true` when it was present.
    pub fn remove(&mut self, id: u64) -> (removed: bool)
        requires
            old(self).wf(),
        ensures
            final(self).wf(),
            removed == exists|i: int|
                0 <= i < old(self).nodes_spec().len() && old(self).nodes_spec()[i].id == id,
            final(self).nodes_spec() == old(self).nodes_spec().filter(keep_other(id)),
            final(self).width_spec() == old(self).width_spec(),
            final(self).height_spec() == old(self).height_spec(),
            final(self).grid_spec() == old(self).grid_spec(),
    {
        let ghost old_nodes = self.nodes@;
                let before = self.nodes.len();
        let mut kept: Vec<FloatChild> = Vec::new();
        let mut i: usize = 0;
        while i < self.nodes.len()
            invariant
                self.nodes@ == old_nodes,
                0 <= i <= old_nodes.len(),
                kept@ == old_nodes.subrange(0, i as int).filter(keep_other(id)),
                forall|a: int, b: int| 0 <= a < b < kept@.len() ==> kept@[a].id != kept@[b].id,
                forall|a: int|
                    0 <= a < kept@.len() ==> exists|k: int|
                        0 <= k < i && #[trigger] old_nodes[k] == #[trigger] kept@[a],
                old(self).wf(),
                old_nodes == old(self).nodes_spec(),
            decreases old_nodes.len() - i,
        {
            let c = self.nodes[i];
            let ghost kb0 = kept@;
            if c.id != id {
                let ghost kb = kept@;
                kept.push(c);
                proof {
                    assert forall|a: int| 0 <= a < kept@.len() implies exists|k: int|
                        0 <= k < i + 1 && #[trigger] old_nodes[k] == #[trigger] kept@[a] by {
                        if a < kb.len() {
                            let k = choose|k: int| 0 <= k < i && #[trigger] old_nodes[k] == kb[a];
                            assert(old_nodes[k] == kept@[a]);
                        } else {
                            assert(old_nodes[i as int] == kept@[a]);
                        }
                    }
                    assert forall|a: int, b: int| 0 <= a < b < kept@.len() implies kept@[a].id
                        != kept@[b].id by {
                        if b == kb.len() {
                            let k = choose|k: int| 0 <= k < i && #[trigger] old_nodes[k] == kb[a];
                            assert(old_nodes[k].id != old_nodes[i as int].id);
                        }
                    }
                }
            }
            proof {
                let t = old_nodes.subrange(0, i + 1);
                assert(t.drop_last() =~= old_nodes.subrange(0, i as int));
                assert(t.last() == c);
                assert(t.filter(keep_other(id)) == if keep_other(id)(t.last()) {
                    t.drop_last().filter(keep_other(id)).push(t.last())
                } else {
                    t.drop_last().filter(keep_other(id))
                }) by {
                    reveal(Seq::filter);
                }
                assert(keep_other(id)(c) == (c.id != id));
            }
            i = i + 1;
        }
        proof {
            assert(old_nodes.subrange(0, old_nodes.len() as int) =~= old_nodes);
        }
        self.nodes = kept;
        proof {
            assert forall|a: int| 0 <= a < self.nodes@.len() implies in_canvas(
                #[trigger] self.nodes@[a].place,
                self.width,
                self.height,
            ) by {
                let k = choose|k: int| 0 <= k < old_nodes.len() && #[trigger] old_nodes[k] == self.nodes@[a];
                assert(in_canvas(old_nodes[k].place, self.width, self.height));
            }
            if exists|k: int| 0 <= k < old_nodes.len() && old_nodes[k].id == id {
                let k = choose|k: int| 0 <= k < old_nodes.len() && old_nodes[k].id == id;
                lemma_filter_drops(old_nodes, keep_other(id), k);
            } else {
                assert(old_nodes.filter(keep_other(id)) =~= old_nodes) by {
                    lemma_filter_all(old_nodes, keep_other(id));
                }
            }
        }
        let after = self.nodes.len();
        after != before
    }

    /// The place of node `id`, if present.
    pub fn place(&self, id: u64) -> (r: Option<FloatRect>)
        requires
            self.wf(),
        ensures
            r == self.place_spec(id),
    {
        match self.find(id) {
            Some(i) => {
                proof {
                    lemma_seq_place(self.nodes@, i as int, id);
                }
                Some(self.nodes[i].place)
            },
            None => None,
        }
    }

    /// Move node `id` to `(x, y)`, clamped into the canvas; nothing if absent.
    pub fn move_to(&mut self, id: u64, x: u16, y: u16)
        requires
            old(self).wf(),
        ensures
            final(self).wf(),
            final(self).width_spec() == old(self).width_spec(),
            final(self).height_spec() == old(self).height_spec(),
            final(self).grid_spec() == old(self).grid_spec(),
            (exists|i: int|
                0 <= i < old(self).nodes_spec().len() && old(self).nodes_spec()[i].id == id
                    && final(self).nodes_spec() == old(self).nodes_spec().update(
                    i,
                    FloatChild {
                        id,
                        place: clamp_in_spec(
                            FloatRect { x, y, ..old(self).nodes_spec()[i].place },
                            old(self).width_spec(),
                            old(self).height_spec(),
                        ),
                    },
                )) || (old(self).place_spec(id) is None && final(self).nodes_spec()
                == old(self).nodes_spec()),
            old(self).place_spec(id) matches Some(p) ==> final(self).place_spec(id) == Some(
                clamp_in_spec(FloatRect { x, y, ..p }, old(self).width_spec(), old(self).height_spec()),
            ),
    {
        let w = self.width;
        let h = self.height;
        match self.find(id) {
            Some(i) => {
                let p = self.nodes[i].place;
                let np = clamp_in(FloatRect { x, y, ..p }, w, h);
                proof {
                    lemma_seq_place(self.nodes@, i as int, id);
                }
                self.nodes.set(i, FloatChild { id, place: np });
                proof {
                    lemma_seq_place(self.nodes@, i as int, id);
                }
            },
            None => {},
        }
    }

    /// Shift node `id` by `(dx, dy)`, stopping at 0, then clamp into the canvas;
    /// nothing if absent.
    pub fn nudge(&mut self, id: u64, dx: i32, dy: i32)
        requires
            old(self).wf(),
            old(self).place_spec(id) matches Some(p) ==> (i32::MIN <= p.x + dx <= i32::MAX
                && i32::MIN <= p.y + dy <= i32::MAX),
        ensures
            final(self).wf(),
            final(self).width_spec() == old(self).width_spec(),
            final(self).height_spec() == old(self).height_spec(),
            final(self).grid_spec() == old(self).grid_spec(),
            old(self).place_spec(id) is None ==> final(self).nodes_spec() == old(self).nodes_spec(),
            old(self).place_spec(id) matches Some(p) ==> final(self).place_spec(id) == Some(
                nudge_place(p, dx, dy, old(self).width_spec(), old(self).height_spec()),
            ),
            old(self).place_spec(id) matches Some(p) ==> exists|i: int|
                0 <= i < old(self).nodes_spec().len() && old(self).nodes_spec()[i].id == id
                    && final(self).nodes_spec() == old(self).nodes_spec().update(
                    i,
                    FloatChild {
                        id,
                        place: clamp_in_spec(
                            FloatRect {
                                x: nudge_coord(p.x, dx),
                                y: nudge_coord(p.y, dy),
                                ..old(self).nodes_spec()[i].place
                            },
                            old(self).width_spec(),
                            old(self).height_spec(),
                        ),
                    },
                ),
    {
        if let Some(place) = self.place(id) {
            let sx = place.x as i32 + dx;
            let sy = place.y as i32 + dy;
            let x = (if sx >= 0 {
                sx
            } else {
                0
            }) as u16;
            let y = (if sy >= 0 {
                sy
            } else {
                0
            }) as u16;
            self.move_to(id, x, y);
        }
    }
    /// Move node `id` to the nearest grid point (halves round up), clamped into the
    /// canvas; nothing if absent.
    pub fn snap_to_grid(&mut self, id: u64)
        requires
            old(self).wf(),
            old(self).place_spec(id) matches Some(p) ==> (p.x + old(self).grid_spec() / 2
                <= u16::MAX && p.y + old(self).grid_spec() / 2 <= u16::MAX),
        ensures
            final(self).wf(),
            final(self).width_spec() == old(self).width_spec(),
            final(self).height_spec() == old(self).height_spec(),
            final(self).grid_spec() == old(self).grid_spec(),
            old(self).place_spec(id) is None ==> final(self).nodes_spec() == old(self).nodes_spec(),
            old(self).place_spec(id) matches Some(p) ==> final(self).place_spec(id) == Some(
                clamp_in_spec(
                    FloatRect {
                        x: snap_spec(p.x, old(self).grid_spec()),
                        y: snap_spec(p.y, old(self).grid_spec()),
                        ..p
                    },
                    old(self).width_spec(),
                    old(self).height_spec(),
                ),
            ),
    {
        let g = self.grid;
        if let Some(place) = self.place(id) {
            let sx = snap(place.x, g);
            let sy = snap(place.y, g);
            self.move_to(id, sx, sy);
        }
    }

    /// Each node's absolute rect inside `window`, clipped to it, in node order.
    pub fn solve(&self, window: Rect) -> (out: Vec<(u64, Rect)>)
        ensures
            out@.len() == self.nodes_spec().len(),
            forall|i: int|
                0 <= i < out@.len() ==> out@[i] == (
                    self.nodes_spec()[i].id,
                    float_abs(window, self.nodes_spec()[i].place),
                ),
    {
        FloatLayer { children: self.nodes.clone() }.solve(window)
    }
}

/// Filtering out an element that fails the predicate shortens the sequence.
proof fn lemma_filter_drops<A>(s: Seq<A>, pred: spec_fn(A) -> bool, k: int)
    requires
        0 <= k < s.len(),
        !pred(s[k]),
    ensures
        s.filter(pred).len() < s.len(),
    decreases s.len(),
{
    reveal(Seq::filter);
    s.drop_last().lemma_filter_len(pred);
    if k == s.len() - 1 {
    } else {
        lemma_filter_drops(s.drop_last(), pred, k);
    }
}

/// Filtering with a predicate every element meets changes nothing.
proof fn lemma_filter_all<A>(s: Seq<A>, pred: spec_fn(A) -> bool)
    requires
        forall|i: int| 0 <= i < s.len() ==> pred(s[i]),
    ensures
        s.filter(pred) == s,
    decreases s.len(),
{
    reveal(Seq::filter);
    if s.len() > 0 {
        lemma_filter_all(s.drop_last(), pred);
        assert(s.drop_last().push(s.last()) =~= s);
    }
}

fn snap(v: u16, g: u16) -> (r: u16)
    requires
        g >= 1,
        v + g / 2 <= u16::MAX,
    ensures
        r == snap_spec(v, g),
{
    proof {
        vstd::arithmetic::div_mod::lemma_fundamental_div_mod((v + g / 2) as int, g as int);
        vstd::arithmetic::div_mod::lemma_mod_pos_bound((v + g / 2) as int, g as int);
    }
    let x = v + g / 2;
    proof {
        assert((x / g) * g <= x) by (nonlinear_arith)
            requires
                x == g * (x / g) + x % g,
                x % g >= 0,
                g >= 1,
        ;
    }
    x / g * g
}

fn clamp_in(place: FloatRect, width: u16, height: u16) -> (r: FloatRect)
    ensures
        r == clamp_in_spec(place, width, height),
        in_canvas(r, width, height),
{
    let mx = width.saturating_sub(place.width);
    let my = height.saturating_sub(place.height);
    let x = if place.x <= mx {
        place.x
    } else {
        mx
    };
    let y = if place.y <= my {
        place.y
    } else {
        my
    };
    FloatRect { x, y, width: place.width, height: place.height }
}

} // verus!
