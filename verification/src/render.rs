use vstd::prelude::*;

use crate::buffer::{blank, blit_cell, Buffer};
use crate::geometry::Rect;
use crate::layout::{
    carousel_visible_entries, clamped_scroll, extents_of, lemma_ext_sum_prefix,
    lays_out, lemma_visible_indices, resolve_spec, solve, solve_out, tree_ok, visible_upto, Axis, Node, TileId,
};

verus! {

/// The main-axis extents of a carousel's children.
pub open spec fn child_extents(children: Seq<(u16, Node)>) -> Seq<u16> {
    children.map_values(|c: (u16, Node)| c.0)
}

/// The main- and cross-axis extents of `viewport` along `axis`.
pub open spec fn main_cross(axis: Axis, viewport: Rect) -> (int, int) {
    match axis {
        Axis::Horizontal => (viewport.width as int, viewport.height as int),
        Axis::Vertical => (viewport.height as int, viewport.width as int),
    }
}

/// `a - b`, or 0 when `b` exceeds `a`.
pub open spec fn sub0(a: int, b: int) -> int {
    if a >= b {
        a - b
    } else {
        0
    }
}

/// The smaller of two integers.
pub open spec fn min_int(a: int, b: int) -> int {
    if a <= b {
        a
    } else {
        b
    }
}

/// For a carousel whose visible children are `entries` (at least one) once its scroll
/// is clamped to `clamped`: the area of the temporary buffer that holds the visible
/// children at full size, from the first one's start to the last one's end (at most
/// 65535 cells along the main axis), and the window of it that shows in the
/// viewport, starting at the scroll position and at most `main` cells long.
pub open spec fn carousel_window(
    axis: Axis,
    entries: Seq<(usize, u32, u16)>,
    clamped: int,
    main: int,
    cross: int,
) -> (Rect, Rect) {
    let first = entries[0].1 as int;
    let last = entries.last();
    let temp_main = min_int(sub0(last.1 + last.2, first), 65535);
    let s = sub0(clamped, first);
    let blit_main = min_int(main, sub0(temp_main, s));
    match axis {
        Axis::Horizontal => (
            Rect { x: 0, y: 0, width: temp_main as u16, height: cross as u16 },
            Rect { x: s as u16, y: 0, width: blit_main as u16, height: cross as u16 },
        ),
        Axis::Vertical => (
            Rect { x: 0, y: 0, width: cross as u16, height: temp_main as u16 },
            Rect { x: 0, y: s as u16, width: cross as u16, height: blit_main as u16 },
        ),
    }
}

/// The entries visible when `children` are scrolled to `clamped` in a viewport `main`
/// cells long.
pub open spec fn visible_of(children: Seq<(u16, Node)>, clamped: int, main: int) -> Seq<(usize, u32, u16)> {
    let e = child_extents(children);
    visible_upto(e, e.len() as int, clamped, clamped + main)
}

/// The scroll offset of a carousel after rendering it in `viewport`: clamped, unless
/// the viewport or the carousel is empty.
pub open spec fn scroll_after(node: Node, viewport: Rect) -> int {
    match node {
        Node::Carousel { orientation, scroll, children, .. } => {
            if viewport.width == 0 || viewport.height == 0 || children@.len() == 0 {
                scroll as int
            } else {
                let axis = resolve_spec(orientation, viewport).1;
                clamped_scroll(child_extents(children@), scroll as int, main_cross(axis, viewport).0)
            }
        },
        _ => 0,
    }
}

/// What rendering `node` as a carousel in `viewport` copies into the viewport: the
/// temporary buffer's area and the window of it shown; `None` when nothing is copied
/// (not a carousel, an empty viewport or carousel, nothing visible, or an empty window).
pub open spec fn carousel_plan(node: Node, viewport: Rect) -> Option<(Rect, Rect)> {
    match node {
        Node::Carousel { orientation, scroll, children, .. } => {
            if viewport.width == 0 || viewport.height == 0 || children@.len() == 0 {
                None
            } else {
                let axis = resolve_spec(orientation, viewport).1;
                let (main, cross) = main_cross(axis, viewport);
                let clamped = scroll_after(node, viewport);
                let entries = visible_of(children@, clamped, main);
                if entries.len() == 0 {
                    None
                } else {
                    let w = carousel_window(axis, entries, clamped, main, cross);
                    if w.1.width == 0 || w.1.height == 0 {
                        None
                    } else {
                        Some(w)
                    }
                }
            }
        },
        _ => None,
    }
}

/// The rect of a visible child in the temporary buffer: its full extent along the
/// main axis, starting where it starts relative to the first visible child (that
/// offset cut to 16 bits), and the viewport's cross extent.
pub open spec fn carousel_child_rect(axis: Axis, entry: (usize, u32, u16), first: int, cross: int) -> Rect {
    let origin = sub0(entry.1 as int, first);
    match axis {
        Axis::Horizontal => Rect { x: origin as u16, y: 0, width: entry.2, height: cross as u16 },
        Axis::Vertical => Rect { x: 0, y: origin as u16, width: cross as u16, height: entry.2 },
    }
}

/// The calls made for the visible child `entries[a]`: one per leaf of its layout in
/// its rect, in layout order.
pub open spec fn child_calls(
    children: Seq<(u16, Node)>,
    axis: Axis,
    entries: Seq<(usize, u32, u16)>,
    first: int,
    cross: int,
    a: int,
) -> Seq<(TileId, Rect)> {
    solve_out(children[entries[a].0 as int].1, carousel_child_rect(axis, entries[a], first, cross))
}

/// Every child the carousel `node` shows in `viewport` lays out (see [`lays_out`]) in
/// its rect in the temporary buffer.
pub open spec fn carousel_lays_out(node: Node, viewport: Rect) -> bool {
    match node {
        Node::Carousel { orientation, children, .. } => {
            let axis = resolve_spec(orientation, viewport).1;
            let (main, cross) = main_cross(axis, viewport);
            let entries = visible_of(children@, scroll_after(node, viewport), main);
            forall|a: int|
                0 <= a < entries.len() && entries[a].0 < children@.len() ==> lays_out(
                    children@[(#[trigger] entries[a]).0 as int].1,
                    carousel_child_rect(axis, entries[a], entries[0].1 as int, cross),
                )
        },
        _ => true,
    }
}

/// The calls made for the first `k` visible children, in order.
pub open spec fn calls_upto(
    children: Seq<(u16, Node)>,
    axis: Axis,
    entries: Seq<(usize, u32, u16)>,
    first: int,
    cross: int,
    k: int,
) -> Seq<(TileId, Rect)>
    decreases k,
{
    if k <= 0 {
        Seq::empty()
    } else {
        calls_upto(children, axis, entries, first, cross, k - 1) + child_calls(
            children,
            axis,
            entries,
            first,
            cross,
            k - 1,
        )
    }
}

/// The `(id, rect)` pairs, in order, that rendering the carousel `node` in `viewport`
/// hands to the drawing callback: every leaf of every visible child, laid out in the
/// child's rect in the temporary buffer.
pub open spec fn carousel_calls(node: Node, viewport: Rect) -> Seq<(TileId, Rect)> {
    match node {
        Node::Carousel { orientation, children, .. } => {
            let axis = resolve_spec(orientation, viewport).1;
            let (main, cross) = main_cross(axis, viewport);
            let entries = visible_of(children@, scroll_after(node, viewport), main);
            calls_upto(children@, axis, entries, entries[0].1 as int, cross, entries.len() as int)
        },
        _ => Seq::empty(),
    }
}

/// Render the carousel `carousel` into `buf` at `viewport` with smooth scrolling:
/// the visible children are laid out at full size in a temporary buffer, where
/// `draw_child` paints each leaf `(id, rect)`, and the scrolled window of it is
/// copied into the viewport, so children at the viewport's edges are cut, not
/// shrunk.  The carousel's scroll is clamped in place.  Any other node, an empty
/// viewport or carousel, or nothing visible leaves `buf` unchanged.  What is copied
/// is the blank temporary buffer as the calls of `draw_child`, one per pair of
/// [`carousel_calls`] in order, leave it.
#[verifier::rlimit(100)]
#[verifier::spinoff_prover]
pub fn render_carousel<F: FnMut(&mut Buffer, TileId, Rect)>(
    buf: &mut Buffer,
    carousel: &mut Node,
    viewport: Rect,
    draw_child: &mut F,
)
    requires
        old(buf).wf(),
        tree_ok(*old(carousel)),
        carousel_lays_out(*old(carousel), viewport),
        forall|b: &mut Buffer, id: TileId, r: Rect| call_requires(*old(draw_child), (b, id, r)),
        forall|b: &mut Buffer, id: TileId, r: Rect|
            call_ensures(*old(draw_child), (b, id, r), ()) ==> (*final(b)).wf() && (*final(b)).area
                == b.area,
    ensures
        final(buf).wf(),
        final(buf).area == old(buf).area,
        tree_ok(*final(carousel)),
        *old(carousel) !is Carousel ==> *final(carousel) == *old(carousel),
        *old(carousel) is Carousel ==> *final(carousel) is Carousel && final(carousel)->scroll
            == scroll_after(*old(carousel), viewport),
        match carousel_plan(*old(carousel), viewport) {
            None => final(buf).view() == old(buf).view(),
            Some(p) => exists|ts: Seq<Buffer>, ms: Seq<&mut Buffer>|
                #![trigger ts[0], ms.len()]
                {
                    let cs = carousel_calls(*old(carousel), viewport);
                    &&& ts.len() == cs.len() + 1
                    &&& ms.len() == cs.len()
                    &&& ts[0].wf()
                    &&& ts[0].area == p.0
                    &&& forall|i: int| 0 <= i < ts[0].view().len() ==> #[trigger] ts[0].view()[i] == blank()
                    &&& forall|i: int|
                        #![trigger ms[i]]
                        0 <= i < cs.len() ==> *ms[i] == ts[i] && *final(ms[i]) == ts[i + 1] && call_ensures(
                            *old(draw_child),
                            (ms[i], cs[i].0, cs[i].1),
                            (),
                        )
                    &&& ts[cs.len() as int].wf()
                    &&& ts[cs.len() as int].area == p.0
                    &&& forall|x: int, y: int|
                        old(buf).area.contains_spec(x, y) ==> #[trigger] final(buf).cell(x, y) == blit_cell(
                            old(buf).cell(x, y),
                            ts[cs.len() as int].view(),
                            p.0,
                            p.1,
                            viewport.x as int,
                            viewport.y as int,
                            x,
                            y,
                        )
                },
        },
{
    let ghost c0 = *carousel;
    match carousel {
        Node::Carousel { orientation, scroll, children, .. } => {
            if viewport.width == 0 || viewport.height == 0 || children.len() == 0 {
                return;
            }
            let axis = orientation.resolve(viewport);
            let (main_extent, cross_extent) = match axis {
                Axis::Horizontal => (viewport.width, viewport.height),
                Axis::Vertical => (viewport.height, viewport.width),
            };
            let extents = extents_of(children);
            let ghost e = extents@;
            proof {
                assert(e =~= child_extents(children@));

            }
            let (clamped, entries) = carousel_visible_entries(extents.as_slice(), *scroll, main_extent);
            *scroll = clamped;
            if entries.len() == 0 {
                return;
            }
            proof {
                lemma_visible_indices(e, e.len() as int, clamped as int, clamped + main_extent);
            }
            let first_v: u32 = entries[0].1;
            let last = entries[entries.len() - 1];
            proof {
                let t = entries@[entries@.len() - 1];
                lemma_ext_sum_prefix(e, t.0 as int + 1, e.len() as int);
                assert(e.take(t.0 as int + 1).drop_last() =~= e.take(t.0 as int));
            }
            let last_end: u32 = last.1 + last.2 as u32;
            let span = last_end.saturating_sub(first_v);
            let temp_main: u16 = if span > 0xffff {
                0xffff
            } else {
                span as u16
            };
            let temp_area = match axis {
                Axis::Horizontal => Rect::new(0, 0, temp_main, cross_extent),
                Axis::Vertical => Rect::new(0, 0, cross_extent, temp_main),
            };
            let mut temp = Buffer::empty(temp_area);
            let ghost kids0 = children@;
            let ghost f0 = *draw_child;
            let ghost temp0 = temp;
            let ghost ev = entries@;
            let ghost mut cs: Seq<(TileId, Rect)> = Seq::empty();
            let ghost mut ts: Seq<Buffer> = seq![temp];
            proof {
                assert(Seq::<&mut Buffer>::empty().len() == cs.len());
            }
            let n = children.len();
            let mut k: usize = 0;
            while k < entries.len()
                invariant
                    temp.wf(),
                    temp.area == temp_area,
                    n == children@.len(),
                    n == kids0.len(),
                    n == e.len(),
                    ev == entries@,
                    k <= entries@.len(),
                    forall|j: int| 0 <= j < n ==> tree_ok(#[trigger] children@[j].1),
                    forall|j: int| 0 <= j < n ==> (#[trigger] children@[j]).0 == kids0[j].0,
                    forall|a: int| 0 <= a < entries@.len() ==> (#[trigger] entries@[a]).0 < n,
                    forall|a: int, b: int| 0 <= a < b < entries@.len() ==> (#[trigger] entries@[a]).0 < (#[trigger] entries@[b]).0,
                    forall|a: int|
                        k <= a < entries@.len() ==> children@[(#[trigger] entries@[a]).0 as int].1 == kids0[entries@[a].0 as int].1,
                    forall|b: &mut Buffer, id: TileId, r: Rect| call_requires(*draw_child, (b, id, r)),
                    forall|b: &mut Buffer, id: TileId, r: Rect|
                        call_ensures(*draw_child, (b, id, r), ()) ==> (*final(b)).wf() && (*final(b)).area
                            == b.area,
                    *draw_child == f0,
                    ts.len() == cs.len() + 1,
                    ts[0] == temp0,
                    ts[cs.len() as int] == temp,
                    cs == calls_upto(kids0, axis, ev, first_v as int, cross_extent as int, k as int),
                    forall|a: int|
                        k <= a < entries@.len() ==> lays_out(
                            kids0[(#[trigger] entries@[a]).0 as int].1,
                            carousel_child_rect(axis, ev[a], first_v as int, cross_extent as int),
                        ),
                    exists|ms: Seq<&mut Buffer>|
                        #![trigger ms.len()]
                        ms.len() == cs.len() && forall|i: int|
                            #![trigger ms[i]]
                            0 <= i < cs.len() ==> *ms[i] == ts[i] && *final(ms[i]) == ts[i + 1] && call_ensures(
                                f0,
                                (ms[i], cs[i].0, cs[i].1),
                                (),
                            ),
                decreases entries.len() - k,
            {
                let (idx, v_start, ext) = entries[k];
                let off = v_start.saturating_sub(first_v);
                let origin: u16 = off as u16;
                let child_rect = match axis {
                    Axis::Horizontal => Rect::new(origin, 0, ext, cross_extent),
                    Axis::Vertical => Rect::new(0, origin, cross_extent, ext),
                };
                proof {
                    assert(child_rect == carousel_child_rect(axis, ev[k as int], first_v as int, cross_extent as int));
                }
                let ghost cs_k = cs;
                {
                    let ghost kids_k = children@;
                    let leaves = solve(&mut children[idx].1, child_rect);
                    proof {
                        assert(leaves@ == child_calls(kids0, axis, ev, first_v as int, cross_extent as int, k as int));
                        assert forall|a: int| k + 1 <= a < entries@.len() implies children@[(
                        #[trigger] entries@[a]).0 as int].1 == kids0[entries@[a].0 as int].1 by {
                            assert(entries@[k as int].0 < entries@[a].0);
                            assert(children@[entries@[a].0 as int] == kids_k[entries@[a].0 as int]);
                        }
                    }
                    let mut m: usize = 0;
                    while m < leaves.len()
                        invariant
                            temp.wf(),
                            temp.area == temp_area,
                            forall|b: &mut Buffer, id: TileId, r: Rect| call_requires(*draw_child, (b, id, r)),
                            forall|b: &mut Buffer, id: TileId, r: Rect|
                                call_ensures(*draw_child, (b, id, r), ()) ==> (*final(b)).wf() && (*final(b)).area
                                    == b.area,
                            *draw_child == f0,
                            m <= leaves@.len(),
                            ts.len() == cs.len() + 1,
                            ts[0] == temp0,
                            ts[cs.len() as int] == temp,
                            cs == cs_k + leaves@.take(m as int),
                            exists|ms: Seq<&mut Buffer>|
                        #![trigger ms.len()]
                        ms.len() == cs.len() && forall|i: int|
                            #![trigger ms[i]]
                            0 <= i < cs.len() ==> *ms[i] == ts[i] && *final(ms[i]) == ts[i + 1] && call_ensures(
                                f0,
                                (ms[i], cs[i].0, cs[i].1),
                                (),
                            ),
                        decreases leaves.len() - m,
                    {
                        let (id, r) = leaves[m];
                        let ghost cs0 = cs;
                        let ghost ts0 = ts;
                        let ghost before = temp;
                        draw_child(&mut temp, id, r);
                        proof {
                            cs = cs.push((id, r));
                            ts = ts.push(temp);
                            assert(exists|ms: Seq<&mut Buffer>|
                                #![trigger ms.len()]
                                ms.len() == cs.len() && forall|i: int|
                                    #![trigger ms[i]]
                                    0 <= i < cs.len() ==> *ms[i] == ts[i] && *final(ms[i]) == ts[i + 1] && call_ensures(
                                        f0,
                                        (ms[i], cs[i].0, cs[i].1),
                                        (),
                                    )) by {
                                let mb = choose|mb: &mut Buffer|
                                    *mb == before && *final(mb) == temp && #[trigger] call_ensures(f0, (mb, id, r), ());
                                let ms0 = choose|ms: Seq<&mut Buffer>|
                                    #![trigger ms.len()]
                                    ms.len() == cs0.len() && forall|i: int|
                                        #![trigger ms[i]]
                                        0 <= i < cs0.len() ==> *ms[i] == ts0[i] && *final(ms[i]) == ts0[i + 1] && call_ensures(
                                            f0,
                                            (ms[i], cs0[i].0, cs0[i].1),
                                            (),
                                        );
                                let ms2 = ms0.push(mb);
                                assert(ms2.len() == cs.len());
                                assert forall|i: int| 0 <= i < cs.len() implies *ms2[i] == ts[i] && *final(ms2[i]) == ts[i + 1]
                                    && call_ensures(f0, (ms2[i], cs[i].0, cs[i].1), ()) by {
                                    if i < cs0.len() {
                                        assert(ms2[i] == ms0[i]);
                                        assert(cs[i] == cs0[i]);
                                        assert(ts[i] == ts0[i] && ts[i + 1] == ts0[i + 1]);
                                    } else {
                                        assert(ms2[i] == mb);
                                        assert(cs[i] == (id, r));
                                    }
                                }
                            }
                            assert(leaves@.take(m + 1) == leaves@.take(m as int).push(leaves@[m as int]));
                        }
                        m = m + 1;
                    }
                    proof {
                        assert(leaves@.take(m as int) == leaves@);
                    }
                }
                proof {
                    assert(calls_upto(kids0, axis, ev, first_v as int, cross_extent as int, k + 1) == calls_upto(kids0, axis, ev, first_v as int, cross_extent as int, k as int) + child_calls(kids0, axis, ev, first_v as int, cross_extent as int, k as int));
                }
                k = k + 1;
            }
            proof {
                assert(children@.map_values(|c: (u16, Node)| c.0) =~= kids0.map_values(|c: (u16, Node)| c.0));
            }
            let s: u32 = (clamped as u32).saturating_sub(first_v);
            let scroll_in_temp = s as u16;
            let rest = temp_main.saturating_sub(scroll_in_temp);
            let blit_main = if main_extent < rest {
                main_extent
            } else {
                rest
            };
            if blit_main == 0 {
                return;
            }
            let src = match axis {
                Axis::Horizontal => Rect::new(scroll_in_temp, 0, blit_main, cross_extent),
                Axis::Vertical => Rect::new(0, scroll_in_temp, cross_extent, blit_main),
            };
            buf.blit(&temp, src, viewport.x, viewport.y);
            proof {
                let cs_all = carousel_calls(c0, viewport);
                assert(ev =~= visible_of(kids0, scroll_after(c0, viewport), main_extent as int));
                assert(cs == cs_all);
                assert(f0 == *old(draw_child));
            }
        },
        _ => {},
    }
}

} // verus!


