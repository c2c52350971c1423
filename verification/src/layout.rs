use vstd::prelude::*;

use crate::geometry::Rect;

verus! {

/// The axis along which a split lays out its children.
#[derive(Debug, Clone, Copy, PartialEq, Eq, Structural, Hash)]
pub enum Axis {
    /// Side by side, left to right.
    Horizontal,
    /// Stacked, top to bottom.
    Vertical,
}

/// Which axis a split (or carousel) uses: fixed, or chosen from the area with a
/// hysteresis margin that keeps the previous choice unless the other axis is better
/// by more than `margin_pct` percent.
#[derive(Debug, Clone, Copy, PartialEq, Eq, Structural, Hash)]
pub enum Orientation {
    Horizontal,
    Vertical,
    Adaptive { margin_pct: u16, last: Option<Axis> },
}

/// The axis an adaptive orientation picks: it keeps `current` unless the other
/// dimension exceeds this one by more than `margin_pct` percent of it.
pub open spec fn adaptive_choice(current: Axis, w: int, h: int, margin_pct: int) -> Axis {
    match current {
        Axis::Horizontal => if h > w + w * margin_pct / 100 {
            Axis::Vertical
        } else {
            Axis::Horizontal
        },
        Axis::Vertical => if w > h + h * margin_pct / 100 {
            Axis::Horizontal
        } else {
            Axis::Vertical
        },
    }
}

/// The axis an orientation resolves to in `area`, and the orientation afterwards
/// (an adaptive one records its choice).
pub open spec fn resolve_spec(o: Orientation, area: Rect) -> (Orientation, Axis) {
    match o {
        Orientation::Horizontal => (o, Axis::Horizontal),
        Orientation::Vertical => (o, Axis::Vertical),
        Orientation::Adaptive { margin_pct, last } => {
            let current = match last {
                Some(a) => a,
                None => Axis::Horizontal,
            };
            let chosen = adaptive_choice(
                current,
                area.width as int,
                area.height as int,
                margin_pct as int,
            );
            (Orientation::Adaptive { margin_pct, last: Some(chosen) }, chosen)
        },
    }
}

impl Orientation {
    /// Resolve to a concrete axis, recording the choice of an adaptive orientation.
    pub fn resolve(&mut self, area: Rect) -> (a: Axis)
        ensures
            (*final(self), a) == resolve_spec(*old(self), area),
    {
        match self {
            Orientation::Horizontal => Axis::Horizontal,
            Orientation::Vertical => Axis::Vertical,
            Orientation::Adaptive { margin_pct, last } => {
                let current = match *last {
                    Some(a) => a,
                    None => Axis::Horizontal,
                };
                let w = area.width as u32;
                let h = area.height as u32;
                let m = *margin_pct as u32;
                proof {
                    assert(w * m <= 65535 * 65535) by (nonlinear_arith)
                        requires
                            w <= 65535,
                            m <= 65535,
                    ;
                    assert(h * m <= 65535 * 65535) by (nonlinear_arith)
                        requires
                            h <= 65535,
                            m <= 65535,
                    ;
                }
                let chosen = match current {
                    Axis::Horizontal => {
                        let threshold = w + w * m / 100;
                        if h > threshold {
                            Axis::Vertical
                        } else {
                            Axis::Horizontal
                        }
                    },
                    Axis::Vertical => {
                        let threshold = h + h * m / 100;
                        if w > threshold {
                            Axis::Horizontal
                        } else {
                            Axis::Vertical
                        }
                    },
                };
                *last = Some(chosen);
                chosen
            },
        }
    }
}

/// An integer exceeds `h` by more than `m` percent of `h` (the percentage taken
/// with its fraction dropped) exactly when its hundredfold exceeds `h · (100 + m)`.
proof fn lemma_margin_exceeds(v: int, h: int, m: int)
    requires
        h >= 0,
        m >= 0,
    ensures
        (v > h + h * m / 100) <==> (v * 100 > h * (100 + m)),
{
    let q = h * m / 100;
    let r = h * m % 100;
    vstd::arithmetic::div_mod::lemma_fundamental_div_mod(h * m, 100);
    assert(0 <= r < 100);
    assert(h * (100 + m) == h * 100 + h * m) by (nonlinear_arith);
}

/// Hysteresis of an adaptive orientation: it turns from stacked to side by side
/// exactly when the width exceeds the height by more than `margin_pct` percent of the
/// height, and from side by side (or no choice yet) to stacked exactly when the
/// height exceeds the width by more than that share of the width; otherwise it keeps
/// its axis.  The chosen axis is recorded.  Fixed orientations always give their
/// own axis.
pub proof fn lemma_adaptive_hysteresis(o: Orientation, area: Rect)
    ensures
        ({
            let (o2, a) = resolve_spec(o, area);
            let w = area.width as int;
            let h = area.height as int;
            &&& o == Orientation::Horizontal ==> o2 == o && a == Axis::Horizontal
            &&& o == Orientation::Vertical ==> o2 == o && a == Axis::Vertical
            &&& o matches Orientation::Adaptive { margin_pct, last } ==> {
                &&& o2 == Orientation::Adaptive { margin_pct, last: Some(a) }
                &&& last == Some(Axis::Vertical) ==> (a == Axis::Horizontal <==> w * 100 > h * (100
                    + margin_pct))
                &&& last != Some(Axis::Vertical) ==> (a == Axis::Vertical <==> h * 100 > w * (100
                    + margin_pct))
            }
        }),
{
    if let Orientation::Adaptive { margin_pct, last } = o {
        lemma_margin_exceeds(area.width as int, area.height as int, margin_pct as int);
        lemma_margin_exceeds(area.height as int, area.width as int, margin_pct as int);
    }
}

/// How much space a child requests along the split axis.
#[derive(Debug, Clone, Copy, PartialEq, Eq, Structural, Hash)]
pub enum Size {
    /// Exactly `n` cells.
    Fixed(u16),
    /// `p` percent of the available space (clamped to 100).
    Percent(u16),
    /// A share of the space left after `Fixed` and `Percent` children, by weight.
    Fill(u16),
}

/// Space request for one child of a split, with hard clamps.
#[derive(Debug, Clone, Copy, PartialEq, Eq, Structural, Hash)]
pub struct Constraint {
    pub size: Size,
    pub min: u16,
    pub max: u16,
}

impl Constraint {
    /// A constraint with no clamps.
    pub fn new(size: Size) -> (c: Self)
        ensures
            c == (Constraint { size, min: 0, max: u16::MAX }),
    {
        Constraint { size, min: 0, max: u16::MAX }
    }

    /// The same constraint with minimum `min`.
    pub fn with_min(self, min: u16) -> (c: Self)
        ensures
            c == (Constraint { min, ..self }),
    {
        Constraint { min, ..self }
    }

    /// The same constraint with maximum `max`.
    pub fn with_max(self, max: u16) -> (c: Self)
        ensures
            c == (Constraint { max, ..self }),
    {
        Constraint { max, ..self }
    }
}

impl Default for Constraint {
    fn default() -> (c: Self)
        ensures
            c == (Constraint { size: Size::Fill(1), min: 0, max: u16::MAX }),
    {
        Constraint::new(Size::Fill(1))
    }
}

/// Identifier of a leaf tile, chosen by the caller.
pub type TileId = u64;

/// A node of the layout tree: a leaf tile, a split that partitions its area among
/// its children, or a scrollable carousel whose children have fixed main-axis
/// extents and of which only those in the viewport get rects.
#[derive(Debug)]
pub enum Node {
    Tile(TileId),
    Split { orientation: Orientation, children: Vec<(Constraint, Node)> },
    Carousel { id: TileId, orientation: Orientation, scroll: u16, children: Vec<(u16, Node)> },
}

/// `a` saturated to `u16`.
pub open spec fn sat16(a: int) -> int {
    if a > u16::MAX {
        u16::MAX as int
    } else {
        a
    }
}

/// The larger of two integers.
pub open spec fn imax(a: int, b: int) -> int {
    if a >= b {
        a
    } else {
        b
    }
}

/// The minimum `(width, height)` a node needs: a tile one cell; a split the sum of
/// its children's minima along its axis (each at least the constraint's `min`) and
/// their maximum across it, an adaptive split the larger of both; a carousel zero
/// along its scrolling axis and its children's largest minimum across it.  Sums
/// saturate at `u16::MAX`.
pub open spec fn min_size_spec(node: Node) -> (int, int)
    decreases node,
{
    match node {
        Node::Tile(_) => (1, 1),
        Node::Split { orientation, children } => {
            if children@.len() == 0 {
                (0, 0)
            } else {
                let hp = along_parts(children@, Axis::Horizontal);
                let vp = along_parts(children@, Axis::Vertical);
                let h = (sat16(hp.0), hp.1);
                let v = (vp.1, sat16(vp.0));
                match orientation {
                    Orientation::Horizontal => h,
                    Orientation::Vertical => v,
                    Orientation::Adaptive { .. } => (imax(h.0, v.0), imax(h.1, v.1)),
                }
            }
        },
        Node::Carousel { orientation, children, .. } => {
            if children@.len() == 0 {
                (0, 0)
            } else {
                match orientation {
                    Orientation::Horizontal => (0, cross_max(children@, false)),
                    Orientation::Vertical => (cross_max(children@, true), 0),
                    Orientation::Adaptive { .. } => (
                        cross_max(children@, true),
                        cross_max(children@, false),
                    ),
                }
            }
        },
    }
}

/// The sum of the children's main-axis minima and the maximum of their cross-axis
/// minima.
pub open spec fn along_parts(children: Seq<(Constraint, Node)>, axis: Axis) -> (int, int)
    decreases children,
{
    if children.len() == 0 {
        (0, 0)
    } else {
        let last = children.last();
        let (s, m) = along_parts(children.drop_last(), axis);
        let (cw, ch) = min_size_spec(last.1);
        let (main, cross) = match axis {
            Axis::Horizontal => (imax(cw, last.0.min as int), ch),
            Axis::Vertical => (imax(ch, last.0.min as int), cw),
        };
        (s + main, imax(m, cross))
    }
}

/// The largest width (or height) minimum among carousel children.
pub open spec fn cross_max(children: Seq<(u16, Node)>, width: bool) -> int
    decreases children,
{
    if children.len() == 0 {
        0
    } else {
        let ms = min_size_spec(children.last().1);
        imax(cross_max(children.drop_last(), width), if width { ms.0 } else { ms.1 })
    }
}

/// The larger of two cell counts.
fn max16e(a: u16, b: u16) -> (r: u16)
    ensures
        r == imax(a as int, b as int),
{
    if a >= b {
        a
    } else {
        b
    }
}

/// The minimum `(width, height)` that `node` needs so that no child is squeezed to
/// zero (see [`min_size_spec`]).
pub fn min_size(node: &Node) -> (r: (u16, u16))
    ensures
        r.0 == min_size_spec(*node).0,
        r.1 == min_size_spec(*node).1,
    decreases node,
{
    match node {
        Node::Tile(_) => (1, 1),
        Node::Split { orientation, children } => {
            if children.len() == 0 {
                return (0, 0);
            }
            proof {
                assert(decreases_to!(*node => children@));
            }
            let (hs, hm) = min_size_along(children, Axis::Horizontal);
            let (vs, vm) = min_size_along(children, Axis::Vertical);
            match orientation {
                Orientation::Horizontal => (hs, hm),
                Orientation::Vertical => (vm, vs),
                Orientation::Adaptive { .. } => (max16e(hs, vm), max16e(hm, vs)),
            }
        },
        Node::Carousel { orientation, children, .. } => {
            if children.len() == 0 {
                return (0, 0);
            }
            proof {
                assert(decreases_to!(*node => children@));
            }
            match orientation {
                Orientation::Horizontal => (0, carousel_cross(children, false)),
                Orientation::Vertical => (carousel_cross(children, true), 0),
                Orientation::Adaptive { .. } => (
                    carousel_cross(children, true),
                    carousel_cross(children, false),
                ),
            }
        },
    }
}

/// Sum the children's main-axis minima (saturating) and max their cross minima.
fn min_size_along(children: &Vec<(Constraint, Node)>, axis: Axis) -> (r: (u16, u16))
    ensures
        r.0 == sat16(along_parts(children@, axis).0),
        r.1 == along_parts(children@, axis).1,
    decreases children@,
{
    let horizontal = match axis {
        Axis::Horizontal => true,
        Axis::Vertical => false,
    };
    let mut main_sum: u32 = 0;
    let mut cross: u16 = 0;
    let mut i: usize = 0;
    while i < children.len()
        invariant
            axis == (if horizontal { Axis::Horizontal } else { Axis::Vertical }),
            i <= children@.len(),
            main_sum == (if along_parts(children@.take(i as int), axis).0 > u32::MAX { u32::MAX as int } else { along_parts(children@.take(i as int), axis).0 }),
            cross == along_parts(children@.take(i as int), axis).1,
            along_parts(children@.take(i as int), axis).0 >= 0,
        decreases children@.len() - i,
    {
        proof {
            assert(decreases_to!(children@ => children@[i as int]));
            assert(children@.take(i + 1).drop_last() =~= children@.take(i as int));
        }
        let (cw, ch) = min_size(&children[i].1);
        let c = children[i].0;
        let (main, cr) = if horizontal {
            (max16e(cw, c.min), ch)
        } else {
            (max16e(ch, c.min), cw)
        };
        main_sum = main_sum.saturating_add(main as u32);
        cross = max16e(cross, cr);
        i = i + 1;
    }
    proof {
        assert(children@.take(children@.len() as int) =~= children@);
    }
    let m = if main_sum > 65535 {
        65535u16
    } else {
        main_sum as u16
    };
    (m, cross)
}

/// The largest width (or height) minimum among carousel children.
fn carousel_cross(children: &Vec<(u16, Node)>, width: bool) -> (r: u16)
    ensures
        r == cross_max(children@, width),
    decreases children@,
{
    let mut best: u16 = 0;
    let mut i: usize = 0;
    while i < children.len()
        invariant
            i <= children@.len(),
            best == cross_max(children@.take(i as int), width),
        decreases children@.len() - i,
    {
        proof {
            assert(decreases_to!(children@ => children@[i as int]));
            assert(children@.take(i + 1).drop_last() =~= children@.take(i as int));
        }
        let (w, h) = min_size(&children[i].1);
        best = max16e(best, if width { w } else { h });
        i = i + 1;
    }
    proof {
        assert(children@.take(children@.len() as int) =~= children@);
    }
    best
}

} // verus!

verus! {

/// `v` raised to `lo`, then lowered to `hi`.
pub open spec fn clamp_spec(v: int, lo: int, hi: int) -> int {
    let a = imax(v, lo);
    if a < hi {
        a
    } else {
        hi
    }
}

/// A `Fill` child.
pub open spec fn is_fill(c: Constraint) -> bool {
    c.size is Fill
}

/// The weight of a `Fill` child (0 for the others).
pub open spec fn fill_weight(c: Constraint) -> int {
    match c.size {
        Size::Fill(w) => w as int,
        _ => 0,
    }
}

/// What a child gets before the leftover pool is shared: a `Fixed` child its size
/// and a `Percent` child its share of `total`, both clamped to `[min, max]`; a `Fill`
/// child its seed, `min` lowered to `max`.
pub open spec fn request(c: Constraint, total: int) -> int {
    match c.size {
        Size::Fixed(v) => clamp_spec(v as int, c.min as int, c.max as int),
        Size::Percent(p) => clamp_spec(
            total * (if p < 100 { p as int } else { 100 }) / 100,
            c.min as int,
            c.max as int,
        ),
        Size::Fill(_) => if c.min < c.max { c.min as int } else { c.max as int },
    }
}

/// The requests of the first `k` children summed.
pub open spec fn request_sum(cs: Seq<Constraint>, total: int, k: int) -> int
    decreases k,
{
    if k <= 0 {
        0
    } else {
        request_sum(cs, total, k - 1) + request(cs[k - 1], total)
    }
}

/// The requests of the first `k` non-`Fill` children summed.
pub open spec fn used_sum(cs: Seq<Constraint>, total: int, k: int) -> int
    decreases k,
{
    if k <= 0 {
        0
    } else {
        used_sum(cs, total, k - 1) + if is_fill(cs[k - 1]) {
            0
        } else {
            request(cs[k - 1], total)
        }
    }
}

/// The weights of the first `k` children summed.
pub open spec fn weight_sum(cs: Seq<Constraint>, k: int) -> int
    decreases k,
{
    if k <= 0 {
        0
    } else {
        weight_sum(cs, k - 1) + fill_weight(cs[k - 1])
    }
}

/// The weights of the first `k` children that are `Fill` children still below their
/// `max` in `s`.
pub open spec fn active_weight(cs: Seq<Constraint>, s: Seq<u16>, k: int) -> int
    decreases k,
{
    if k <= 0 {
        0
    } else {
        active_weight(cs, s, k - 1) + if is_fill(cs[k - 1]) && s[k - 1] < cs[k - 1].max {
            fill_weight(cs[k - 1])
        } else {
            0
        }
    }
}

/// How far the first `k` `Fill` children of `s` are below their `max`, summed.
pub open spec fn headroom(cs: Seq<Constraint>, s: Seq<u16>, k: int) -> int
    decreases k,
{
    if k <= 0 {
        0
    } else {
        headroom(cs, s, k - 1) + if is_fill(cs[k - 1]) {
            cs[k - 1].max - s[k - 1]
        } else {
            0
        }
    }
}

/// The entries of `s` summed.
pub open spec fn sum16(s: Seq<u16>) -> int
    decreases s.len(),
{
    if s.len() == 0 {
        0
    } else {
        sum16(s.drop_last()) + s.last()
    }
}

/// Take `excess` cells away from the end of `p`: each entry from the last yields as
/// much as it has until the excess is used up.
pub open spec fn trim_back(p: Seq<u16>, excess: int) -> Seq<u16>
    decreases p.len(),
{
    if p.len() == 0 {
        p
    } else {
        let t = if (p.last() as int) < excess {
            p.last() as int
        } else {
            excess
        };
        trim_back(p.drop_last(), excess - t).push((p.last() - t) as u16)
    }
}

/// The constraints of a split's children.
pub open spec fn constraints_of(children: Seq<(Constraint, Node)>) -> Seq<Constraint> {
    children.map_values(|p: (Constraint, Node)| p.0)
}

/// The sizes before any leftover is shared: every child at its request.
pub open spec fn requested(cs: Seq<Constraint>, total: int) -> Seq<u16> {
    Seq::new(cs.len(), |i: int| request(cs[i], total) as u16)
}

proof fn lemma_sum16_update(s: Seq<u16>, i: int, v: u16)
    requires
        0 <= i < s.len(),
    ensures
        sum16(s.update(i, v)) == sum16(s) - s[i] + v,
    decreases s.len(),
{
    let t = s.update(i, v);
    if i == s.len() - 1 {
        assert(t.drop_last() =~= s.drop_last());
    } else {
        assert(t.drop_last() =~= s.drop_last().update(i, v));
        lemma_sum16_update(s.drop_last(), i, v);
    }
}

proof fn lemma_sum16_nonneg(s: Seq<u16>)
    ensures
        0 <= sum16(s),
    decreases s.len(),
{
    if s.len() > 0 {
        lemma_sum16_nonneg(s.drop_last());
    }
}

proof fn lemma_headroom_update(cs: Seq<Constraint>, s: Seq<u16>, i: int, v: u16, k: int)
    requires
        0 <= i < s.len(),
        0 <= k <= s.len(),
        s.len() == cs.len(),
    ensures
        headroom(cs, s.update(i, v), k) == headroom(cs, s, k) - (if i < k && is_fill(cs[i]) {
            v - s[i]
        } else {
            0
        }),
        active_weight(cs, s.update(i, v), k) == active_weight(cs, s, k) - (if i < k && is_fill(
            cs[i],
        ) && s[i] < cs[i].max {
            fill_weight(cs[i])
        } else {
            0
        }) + (if i < k && is_fill(cs[i]) && v < cs[i].max {
            fill_weight(cs[i])
        } else {
            0
        }),
    decreases k,
{
    if k > 0 {
        lemma_headroom_update(cs, s, i, v, k - 1);
    }
}

proof fn lemma_headroom_nonneg(cs: Seq<Constraint>, s: Seq<u16>, k: int)
    requires
        0 <= k <= s.len(),
        s.len() == cs.len(),
        forall|j: int| 0 <= j < s.len() && is_fill(cs[j]) ==> s[j] <= cs[j].max,
    ensures
        0 <= headroom(cs, s, k),
    decreases k,
{
    if k > 0 {
        lemma_headroom_nonneg(cs, s, k - 1);
    }
}

proof fn lemma_active_weight_bound(cs: Seq<Constraint>, s: Seq<u16>, k: int)
    requires
        0 <= k <= s.len(),
        s.len() == cs.len(),
    ensures
        0 <= active_weight(cs, s, k) <= weight_sum(cs, k),
    decreases k,
{
    if k > 0 {
        lemma_active_weight_bound(cs, s, k - 1);
    }
}

proof fn lemma_trim_back_zero(p: Seq<u16>)
    ensures
        trim_back(p, 0) == p,
    decreases p.len(),
{
    if p.len() > 0 {
        lemma_trim_back_zero(p.drop_last());
        assert(trim_back(p.drop_last(), 0).push(p.last()) =~= p);
    }
}

proof fn lemma_trim_back_sum(p: Seq<u16>, excess: int)
    requires
        0 <= excess <= sum16(p),
    ensures
        sum16(trim_back(p, excess)) == sum16(p) - excess,
        trim_back(p, excess).len() == p.len(),
    decreases p.len(),
{
    if p.len() > 0 {
        let t = if (p.last() as int) < excess {
            p.last() as int
        } else {
            excess
        };
        lemma_sum16_nonneg(p.drop_last());
        lemma_trim_back_sum(p.drop_last(), excess - t);
        let q = trim_back(p.drop_last(), excess - t).push((p.last() - t) as u16);
        assert(q.drop_last() =~= trim_back(p.drop_last(), excess - t));
    }
}

} // verus!

verus! {

/// Some `Fill` child of `s` is below its `max`.
pub open spec fn any_active(cs: Seq<Constraint>, s: Seq<u16>) -> bool {
    exists|i: int| 0 <= i < s.len() && is_fill(#[trigger] cs[i]) && s[i] < cs[i].max
}

/// The share of `left` cells a child of weight `w` takes when the active weights sum
/// to `aw`: none when they sum to 0.
pub open spec fn share_of(left: int, w: int, aw: int) -> int {
    if aw == 0 {
        0
    } else {
        left * w / aw
    }
}

/// A child's size after one water-filling round that shares `left` cells among the
/// `Fill` children below their `max`, whose weights sum to `aw`: such a child takes
/// its share, pinned at its `max`; the others keep theirs.
pub open spec fn round_size(c: Constraint, v: u16, left: int, aw: int) -> u16 {
    if is_fill(c) && v < c.max {
        if v + share_of(left, fill_weight(c), aw) >= c.max {
            c.max
        } else {
            (v + share_of(left, fill_weight(c), aw)) as u16
        }
    } else {
        v
    }
}

/// The sizes after one water-filling round of `left` cells from `s`.
pub open spec fn round_spec(cs: Seq<Constraint>, s: Seq<u16>, left: int) -> Seq<u16> {
    Seq::new(s.len(), |i: int| round_size(cs[i], s[i], left, active_weight(cs, s, s.len() as int)))
}

/// Some `Fill` child below its `max` reaches it in the round of `left` cells from `s`.
pub open spec fn round_pins(cs: Seq<Constraint>, s: Seq<u16>, left: int) -> bool {
    exists|i: int|
        0 <= i < s.len() && is_fill(#[trigger] cs[i]) && s[i] < cs[i].max && s[i] + share_of(
            left,
            fill_weight(cs[i]),
            active_weight(cs, s, s.len() as int),
        ) >= cs[i].max
}

/// A child that a remainder pass hands cells to: a `Fill` child of positive weight
/// when `weighted`, of weight 0 otherwise.
pub open spec fn takes_rest(c: Constraint, weighted: bool) -> bool {
    is_fill(c) && (fill_weight(c) > 0) == weighted
}

/// The room below their `max` of the children from index `k` on that a remainder
/// pass hands cells to.
pub open spec fn room_from(cs: Seq<Constraint>, s: Seq<u16>, k: int, weighted: bool) -> int
    decreases s.len() - k,
{
    if k >= s.len() {
        0
    } else {
        room_from(cs, s, k + 1, weighted) + if takes_rest(cs[k], weighted) {
            cs[k].max - s[k]
        } else {
            0
        }
    }
}

/// The sizes after a remainder pass hands `left` cells out from the last child
/// backward, each taking what it has room for.
pub open spec fn backfill(cs: Seq<Constraint>, s: Seq<u16>, left: int, weighted: bool) -> Seq<u16> {
    Seq::new(
        s.len(),
        |i: int|
            if takes_rest(cs[i], weighted) {
                (s[i] + clamp_spec(left - room_from(cs, s, i + 1, weighted), 0, cs[i].max - s[i])) as u16
            } else {
                s[i]
            },
    )
}

/// What a remainder pass leaves over.
pub open spec fn backfill_left(cs: Seq<Constraint>, s: Seq<u16>, left: int, weighted: bool) -> int {
    if left > room_from(cs, s, 0, weighted) {
        left - room_from(cs, s, 0, weighted)
    } else {
        0
    }
}

/// Water-filling from sizes `s` with `left` cells to share: rounds repeat while a
/// `Fill` child has room and cells are left, until a round pins no child; its
/// remainder then goes to the weighted children from the back, and what they have no
/// room for to the children of weight 0.  (`fuel` bounds the rounds; each round that
/// pins a child takes at least one cell of room.)
pub open spec fn water(cs: Seq<Constraint>, s: Seq<u16>, left: int, fuel: nat) -> Seq<u16>
    decreases fuel,
{
    if fuel == 0 || !any_active(cs, s) || left == 0 {
        s
    } else {
        let r = round_spec(cs, s, left);
        let left1 = left - (sum16(r) - sum16(s));
        if round_pins(cs, s, left) {
            water(cs, r, left1, (fuel - 1) as nat)
        } else {
            backfill(
                cs,
                backfill(cs, r, left1, true),
                backfill_left(cs, r, left1, true),
                false,
            )
        }
    }
}

/// The cells left for the `Fill` children above their seeds: `total` less the other
/// children's requests and the seeds, or none.
pub open spec fn fill_pool(cs: Seq<Constraint>, total: int) -> int {
    let used = used_sum(cs, total, cs.len() as int);
    let seeded = request_sum(cs, total, cs.len() as int) - used;
    let pool = if total > used {
        total - used
    } else {
        0
    };
    if pool > seeded {
        pool - seeded
    } else {
        0
    }
}

/// The partition of `total` cells among children with constraints `cs`: every child
/// at its request, the `Fill` children then water-filled with the pool, and the
/// whole trimmed from the back when it exceeds `total`.
pub open spec fn partition_spec(cs: Seq<Constraint>, total: int) -> Seq<u16> {
    let init = requested(cs, total);
    let filled = water(cs, init, fill_pool(cs, total), (headroom(cs, init, cs.len() as int) + 1) as nat);
    if sum16(filled) > total {
        trim_back(filled, sum16(filled) - total)
    } else {
        filled
    }
}

/// Every non-`Fill` child holds its request and every `Fill` child lies between its
/// seed and its `max`.
pub open spec fn sizes_ok(cs: Seq<Constraint>, s: Seq<u16>, total: int) -> bool {
    &&& s.len() == cs.len()
    &&& forall|i: int|
        0 <= i < s.len() ==> if is_fill(#[trigger] cs[i]) {
            request(cs[i], total) <= s[i] <= cs[i].max
        } else {
            s[i] == request(cs[i], total)
        }
}

/// A `Fill` child of weight 0 grows past its seed only once every weighted `Fill`
/// sibling is at its `max`: either all weight-0 fills hold their seed, or all
/// weighted fills are pinned.
pub open spec fn zero_weight_last(cs: Seq<Constraint>, s: Seq<u16>, total: int) -> bool {
    ||| forall|i: int|
        0 <= i < s.len() && is_fill(#[trigger] cs[i]) && fill_weight(cs[i]) == 0 ==> s[i] == request(
            cs[i],
            total,
        )
    ||| forall|i: int|
        0 <= i < s.len() && is_fill(#[trigger] cs[i]) && fill_weight(cs[i]) > 0 ==> s[i] == cs[i].max
}

/// Every `Fill` child of `s` is at its `max`.
pub open spec fn fills_pinned(cs: Seq<Constraint>, s: Seq<u16>) -> bool {
    forall|i: int| 0 <= i < s.len() && is_fill(#[trigger] cs[i]) ==> s[i] == cs[i].max
}

proof fn lemma_request_bounds(c: Constraint, total: int)
    requires
        0 <= total <= u16::MAX,
    ensures
        0 <= request(c, total) <= u16::MAX,
        is_fill(c) ==> request(c, total) <= c.max,
{
    match c.size {
        Size::Percent(p) => {
            let q = if p < 100 { p as int } else { 100 };
            assert(0 <= total * q / 100 <= total) by (nonlinear_arith)
                requires
                    0 <= q <= 100,
                    0 <= total,
            ;
        },
        _ => {},
    }
}

proof fn lemma_request_sum_split(cs: Seq<Constraint>, total: int, k: int)
    requires
        0 <= k <= cs.len(),
        0 <= total <= u16::MAX,
    ensures
        0 <= used_sum(cs, total, k) <= request_sum(cs, total, k),
    decreases k,
{
    if k > 0 {
        lemma_request_sum_split(cs, total, k - 1);
        lemma_request_bounds(cs[k - 1], total);
    }
}

proof fn lemma_active_weight_step(cs: Seq<Constraint>, s: Seq<u16>, i: int, k: int)
    requires
        0 <= i < k <= s.len(),
        s.len() == cs.len(),
    ensures
        active_weight(cs, s, i) + (if is_fill(cs[i]) && s[i] < cs[i].max {
            fill_weight(cs[i])
        } else {
            0
        }) <= active_weight(cs, s, k),
    decreases k,
{
    if k > i + 1 {
        lemma_active_weight_step(cs, s, i, k - 1);
    }
}

/// Every child at its request; with the non-`Fill` requests and the `Fill` seeds
/// summed apart.
fn initial_sizes(children: &[(Constraint, Node)], total: u16) -> (r: (Vec<u16>, u32, u32))
    requires
        request_sum(constraints_of(children@), total as int, children@.len() as int) <= u32::MAX,
    ensures
        r.0@ == requested(constraints_of(children@), total as int),
        r.1 == used_sum(constraints_of(children@), total as int, children@.len() as int),
        r.1 + r.2 == request_sum(constraints_of(children@), total as int, children@.len() as int),
{
    let ghost cs = constraints_of(children@);
    let n = children.len();
    let mut sizes: Vec<u16> = Vec::new();
    let mut used: u32 = 0;
    let mut seeded: u32 = 0;
    let mut i: usize = 0;
    while i < n
        invariant
            cs == constraints_of(children@),
            n == cs.len(),
            i <= n,
            request_sum(cs, total as int, n as int) <= u32::MAX,
            sizes@ == requested(cs, total as int).take(i as int),
            used == used_sum(cs, total as int, i as int),
            used + seeded == request_sum(cs, total as int, i as int),
        decreases n - i,
    {
        let c = children[i].0;
        proof {
            lemma_request_bounds(c, total as int);
            lemma_request_sum_split(cs, total as int, i + 1);
            lemma_request_sum_mono(cs, total as int, i + 1, n as int);
            assert(cs[i as int] == c);
        }
        let v: u16 = match c.size {
            Size::Fixed(f) => clamp(f, c.min, c.max),
            Size::Percent(p) => {
                let q: u32 = if p < 100 { p as u32 } else { 100 };
                proof {
                    assert(total * q <= 65535 * 100) by (nonlinear_arith)
                        requires
                            total <= 65535,
                            q <= 100,
                    ;
                    assert(total * q / 100 <= total) by (nonlinear_arith)
                        requires
                            q <= 100,
                            total >= 0,
                    ;
                }
                let raw = (total as u32 * q / 100) as u16;
                clamp(raw, c.min, c.max)
            },
            Size::Fill(_) => if c.min < c.max {
                c.min
            } else {
                c.max
            },
        };
        sizes.push(v);
        if is_fill_exec(c) {
            seeded = seeded + v as u32;
        } else {
            used = used + v as u32;
        }
        proof {
            assert(sizes@ =~= requested(cs, total as int).take(i + 1));
        }
        i = i + 1;
    }
    proof {
        assert(requested(cs, total as int).take(n as int) =~= requested(cs, total as int));
    }
    (sizes, used, seeded)
}

proof fn lemma_request_sum_mono(cs: Seq<Constraint>, total: int, i: int, k: int)
    requires
        0 <= i <= k <= cs.len(),
        0 <= total <= u16::MAX,
    ensures
        request_sum(cs, total, i) <= request_sum(cs, total, k),
    decreases k,
{
    if k > i {
        lemma_request_sum_mono(cs, total, i, k - 1);
        lemma_request_bounds(cs[k - 1], total);
    }
}

/// `v` raised to `lo`, then lowered to `hi`.
fn clamp(v: u16, lo: u16, hi: u16) -> (r: u16)
    ensures
        r == clamp_spec(v as int, lo as int, hi as int),
{
    let a = if v >= lo {
        v
    } else {
        lo
    };
    if a < hi {
        a
    } else {
        hi
    }
}

fn is_fill_exec(c: Constraint) -> (r: bool)
    ensures
        r == is_fill(c),
{
    match c.size {
        Size::Fill(_) => true,
        _ => false,
    }
}

fn fill_weight_exec(c: Constraint) -> (r: u16)
    ensures
        r == fill_weight(c),
{
    match c.size {
        Size::Fill(w) => w,
        _ => 0,
    }
}

/// Whether some `Fill` child is below its `max`, and the total weight of those that are.
fn active_of(children: &[(Constraint, Node)], sizes: &Vec<u16>) -> (r: (bool, u32))
    requires
        sizes@.len() == children@.len(),
        weight_sum(constraints_of(children@), children@.len() as int) <= u32::MAX,
    ensures
        r.1 == active_weight(constraints_of(children@), sizes@, sizes@.len() as int),
        r.0 == exists|i: int| 0 <= i < sizes@.len() && is_fill(#[trigger] constraints_of(children@)[i]) && sizes@[i] < constraints_of(children@)[i].max,
{
    let ghost cs = constraints_of(children@);
    let n = sizes.len();
    let mut any = false;
    let mut aw: u32 = 0;
    let mut i: usize = 0;
    while i < n
        invariant
            cs == constraints_of(children@),
            n == sizes@.len(),
            n == cs.len(),
            i <= n,
            weight_sum(cs, n as int) <= u32::MAX,
            aw == active_weight(cs, sizes@, i as int),
            any == exists|j: int| 0 <= j < i && is_fill(#[trigger] cs[j]) && sizes@[j] < cs[j].max,
        decreases n - i,
    {
        let c = children[i].0;
        proof {
            assert(cs[i as int] == c);
            lemma_active_weight_bound(cs, sizes@, i + 1);
            lemma_weight_sum_mono(cs, i + 1, n as int);
        }
        if is_fill_exec(c) && sizes[i] < c.max {
            any = true;
            aw = aw + fill_weight_exec(c) as u32;
        }
        i = i + 1;
    }
    (any, aw)
}

proof fn lemma_weight_sum_mono(cs: Seq<Constraint>, i: int, k: int)
    requires
        0 <= i <= k <= cs.len(),
    ensures
        weight_sum(cs, i) <= weight_sum(cs, k),
    decreases k,
{
    if k > i {
        lemma_weight_sum_mono(cs, i, k - 1);
    }
}

} // verus!

verus! {

/// One water-filling round: every `Fill` child below its `max` gets its weighted
/// share of `leftover`, or is pinned at `max` if the share would reach it.  Returns
/// what was handed out and whether some child was pinned.
#[verifier::rlimit(60)]
fn distribute_round(children: &[(Constraint, Node)], sizes: &mut Vec<u16>, leftover: u32, aw: u32, Ghost(total): Ghost<int>) -> (r: (u32, bool))
    requires
        sizes_ok(constraints_of(children@), old(sizes)@, total),
        aw == active_weight(constraints_of(children@), old(sizes)@, old(sizes)@.len() as int),
        leftover <= u16::MAX,
        0 <= total <= u16::MAX,
    ensures
        sizes_ok(constraints_of(children@), final(sizes)@, total),
        sum16(final(sizes)@) == sum16(old(sizes)@) + r.0,
        headroom(constraints_of(children@), final(sizes)@, final(sizes)@.len() as int) == headroom(constraints_of(children@), old(sizes)@, old(sizes)@.len() as int) - r.0,
        r.0 <= leftover,
        r.1 ==> r.0 >= 1,
        forall|i: int| 0 <= i < final(sizes)@.len() ==> old(sizes)@[i] <= #[trigger] final(sizes)@[i],
        forall|i: int|
            0 <= i < final(sizes)@.len() && fill_weight(#[trigger] constraints_of(children@)[i]) == 0
                ==> final(sizes)@[i] == old(sizes)@[i],
        final(sizes)@ == round_spec(constraints_of(children@), old(sizes)@, leftover as int),
        r.1 == round_pins(constraints_of(children@), old(sizes)@, leftover as int),
{
    let ghost cs = constraints_of(children@);
    let ghost s0 = sizes@;
    let n = sizes.len();
    let mut any_pinned = false;
    let mut assigned: u32 = 0;
    let mut i: usize = 0;
    while i < n
        invariant
            cs == constraints_of(children@),
            n == sizes@.len(),
            n == cs.len(),
            s0.len() == n,
            i <= n,
            leftover <= u16::MAX,
            0 <= total <= u16::MAX,
            aw == active_weight(cs, s0, n as int),
            sizes_ok(cs, sizes@, total),
            forall|j: int| i <= j < n ==> #[trigger] sizes@[j] == s0[j],
            sum16(sizes@) == sum16(s0) + assigned,
            headroom(cs, sizes@, n as int) == headroom(cs, s0, n as int) - assigned,
            assigned * aw <= leftover * active_weight(cs, s0, i as int),
            aw == 0 ==> assigned == 0,
            any_pinned ==> assigned >= 1,
            assigned <= leftover,
            sizes@.len() == n,
            forall|j: int| 0 <= j < n ==> s0[j] <= #[trigger] sizes@[j],
            forall|j: int| 0 <= j < n && fill_weight(#[trigger] cs[j]) == 0 ==> sizes@[j] == s0[j],
            forall|j: int| 0 <= j < i ==> #[trigger] sizes@[j] == round_size(cs[j], s0[j], leftover as int, aw as int),
            any_pinned == exists|j: int|
                0 <= j < i && is_fill(#[trigger] cs[j]) && s0[j] < cs[j].max && s0[j] + share_of(
                    leftover as int,
                    fill_weight(cs[j]),
                    aw as int,
                ) >= cs[j].max,
        decreases n - i,
    {
        let c = children[i].0;
        proof {
            assert(cs[i as int] == c);
            lemma_active_weight_step(cs, s0, i as int, n as int);
            lemma_active_weight_bound(cs, s0, i as int);
            assert(sizes@[i as int] == s0[i as int]);
        }
        if is_fill_exec(c) && sizes[i] < c.max {
            let w = fill_weight_exec(c) as u32;
            proof {
                assert(leftover * w <= 65535 * 65535) by (nonlinear_arith)
                    requires
                        leftover <= 65535,
                        w <= 65535,
                ;
            }
            let share: u32 = if aw == 0 {
                0
            } else {
                leftover * w / aw
            };
            proof {
                if aw > 0 {
                    assert(share * aw <= leftover * w) by (nonlinear_arith)
                        requires
                            share as int == (leftover * w) as int / aw as int,
                            aw > 0,
                    ;
                    assert(share <= leftover) by (nonlinear_arith)
                        requires
                            share * aw <= leftover * w,
                            w <= aw,
                            aw > 0,
                            leftover >= 0,
                    ;
                }
            }
            let cur = sizes[i];
            let new_size = cur as u32 + share;
            let ghost before = sizes@;
            if new_size >= c.max as u32 {
                let head = c.max as u32 - cur as u32;
                sizes.set(i, c.max);
                proof {
                    lemma_sum16_update(before, i as int, c.max);
                    lemma_headroom_update(cs, before, i as int, c.max, n as int);
                    assert(head <= share);
                    assert((assigned + head) * aw <= leftover * (active_weight(cs, s0, i as int) + w)) by (nonlinear_arith)
                        requires
                            assigned * aw <= leftover * active_weight(cs, s0, i as int),
                            share * aw <= leftover * w || aw == 0,
                            head <= share,
                            aw >= 0,
                            aw == 0 ==> share == 0,
                    ;
                    assert(active_weight(cs, s0, i + 1) == active_weight(cs, s0, i as int) + w);
                    if aw > 0 {
                        assert(assigned + head <= leftover) by (nonlinear_arith)
                            requires
                                (assigned + head) * aw <= leftover * (active_weight(cs, s0, i as int) + w),
                                active_weight(cs, s0, i as int) + w <= aw,
                                aw > 0,
                                leftover >= 0,
                        ;
                    }
                }
                assigned = assigned + head;
                any_pinned = true;
            } else {
                sizes.set(i, new_size as u16);
                proof {
                    lemma_sum16_update(before, i as int, new_size as u16);
                    lemma_headroom_update(cs, before, i as int, new_size as u16, n as int);
                    assert((assigned + share) * aw <= leftover * (active_weight(cs, s0, i as int) + w)) by (nonlinear_arith)
                        requires
                            assigned * aw <= leftover * active_weight(cs, s0, i as int),
                            share * aw <= leftover * w || aw == 0,
                            aw >= 0,
                            aw == 0 ==> share == 0,
                    ;
                    assert(active_weight(cs, s0, i + 1) == active_weight(cs, s0, i as int) + w);
                    if aw > 0 {
                        assert(assigned + share <= leftover) by (nonlinear_arith)
                            requires
                                (assigned + share) * aw <= leftover * (active_weight(cs, s0, i as int) + w),
                                active_weight(cs, s0, i as int) + w <= aw,
                                aw > 0,
                                leftover >= 0,
                        ;
                    }
                }
                assigned = assigned + share;
            }
        } else {
            proof {
                assert(active_weight(cs, s0, i + 1) == active_weight(cs, s0, i as int));
            }
        }
        i = i + 1;
    }
    proof {
        assert(sizes@ =~= round_spec(cs, s0, leftover as int));
    }
    (assigned, any_pinned)
}

} // verus!

verus! {

/// The room of the children from `j` on is at least that from `k` on, for `j <= k`,
/// and never negative.
proof fn lemma_room_mono(cs: Seq<Constraint>, s: Seq<u16>, j: int, k: int, weighted: bool)
    requires
        0 <= j <= k <= s.len(),
        s.len() == cs.len(),
        forall|i: int| 0 <= i < s.len() && is_fill(#[trigger] cs[i]) ==> s[i] <= cs[i].max,
    ensures
        room_from(cs, s, j, weighted) >= room_from(cs, s, k, weighted) >= 0,
    decreases s.len() - j,
{
    if j < s.len() {
        lemma_room_mono(cs, s, j + 1, if k > j { k } else { j + 1 }, weighted);
    }
}

/// Hand the rounding remainder out from the last `Fill` child backward, each taking
/// what it has room for: those with a positive weight when `weighted`, those of
/// weight 0 otherwise.  Returns what is left.
fn hand_out_remainder(children: &[(Constraint, Node)], sizes: &mut Vec<u16>, leftover: u32, weighted: bool, Ghost(total): Ghost<int>) -> (r: u32)
    requires
        sizes_ok(constraints_of(children@), old(sizes)@, total),
        leftover <= u16::MAX,
    ensures
        sizes_ok(constraints_of(children@), final(sizes)@, total),
        sum16(final(sizes)@) + r == sum16(old(sizes)@) + leftover,
        r <= leftover,
        forall|i: int|
            0 <= i < final(sizes)@.len() && is_fill(#[trigger] constraints_of(children@)[i])
                && (fill_weight(constraints_of(children@)[i]) > 0) != weighted ==> final(sizes)@[i] == old(sizes)@[i],
        r == 0 || forall|i: int|
            0 <= i < final(sizes)@.len() && is_fill(#[trigger] constraints_of(children@)[i])
                && (fill_weight(constraints_of(children@)[i]) > 0) == weighted ==> final(sizes)@[i]
                == constraints_of(children@)[i].max,
        forall|i: int| 0 <= i < final(sizes)@.len() ==> old(sizes)@[i] <= #[trigger] final(sizes)@[i],
        leftover == 0 ==> final(sizes)@ == old(sizes)@,
        final(sizes)@ == backfill(constraints_of(children@), old(sizes)@, leftover as int, weighted),
        r == backfill_left(constraints_of(children@), old(sizes)@, leftover as int, weighted),
{
    let ghost cs = constraints_of(children@);
    let ghost s0 = sizes@;
    let n = sizes.len();
    let mut left = leftover;
    let mut k = n;
    while k > 0
        invariant
            cs == constraints_of(children@),
            n == sizes@.len(),
            n == cs.len(),
            s0.len() == n,
            k <= n,
            sizes_ok(cs, sizes@, total),
            sum16(sizes@) + left == sum16(s0) + leftover,
            left <= leftover,
            forall|j: int| 0 <= j < k ==> #[trigger] sizes@[j] == s0[j],
            forall|j: int|
                0 <= j < n && is_fill(#[trigger] cs[j]) && (fill_weight(cs[j]) > 0) != weighted
                    ==> sizes@[j] == s0[j],
            left == 0 || forall|j: int|
                k <= j < n && is_fill(#[trigger] cs[j]) && (fill_weight(cs[j]) > 0) == weighted
                    ==> sizes@[j] == cs[j].max,
            forall|j: int| 0 <= j < n ==> s0[j] <= #[trigger] sizes@[j],
            leftover == 0 ==> sizes@ == s0,
            sizes_ok(cs, s0, total),
            forall|j: int| k <= j < n ==> #[trigger] sizes@[j] == backfill(cs, s0, leftover as int, weighted)[j],
            left == if leftover > room_from(cs, s0, k as int, weighted) {
                leftover - room_from(cs, s0, k as int, weighted)
            } else {
                0
            },
        ensures
            k == 0 || left == 0,
        decreases k,
    {
        if left == 0 {
            break;
        }
        let i = k - 1;
        let c = children[i].0;
        proof {
            assert(cs[i as int] == c);
        }
        let w = fill_weight_exec(c);
        if is_fill_exec(c) && (w > 0) == weighted {
            let cur = sizes[i];
            let head = c.max as u32 - cur as u32;
            let give = if left < head {
                left
            } else {
                head
            };
            let ghost before = sizes@;
            sizes.set(i, (cur as u32 + give) as u16);
            proof {
                lemma_sum16_update(before, i as int, (cur as u32 + give) as u16);
            }
            left = left - give;
        }
        k = k - 1;
    }
    proof {
        lemma_room_mono(cs, s0, 0, k as int, weighted);
        assert forall|j: int| 0 <= j < n implies #[trigger] sizes@[j] == backfill(cs, s0, leftover as int, weighted)[j] by {
            if j < k {
                lemma_room_mono(cs, s0, j + 1, k as int, weighted);
            }
        }
        assert(sizes@ =~= backfill(cs, s0, leftover as int, weighted));
    }
    left
}

/// The sizes summed.
fn sum_sizes(sizes: &Vec<u16>) -> (r: u64)
    requires
        sum16(sizes@) <= u32::MAX,
    ensures
        r == sum16(sizes@),
{
    let mut s: u64 = 0;
    let mut i: usize = 0;
    while i < sizes.len()
        invariant
            i <= sizes@.len(),
            s == sum16(sizes@.take(i as int)),
            sum16(sizes@) <= u32::MAX,
        decreases sizes@.len() - i,
    {
        proof {
            assert(sizes@.take(i + 1).drop_last() =~= sizes@.take(i as int));
            lemma_sum16_prefix(sizes@, i + 1);
        }
        s = s + sizes[i] as u64;
        i = i + 1;
    }
    proof {
        assert(sizes@.take(sizes@.len() as int) =~= sizes@);
    }
    s
}

/// Take `excess` cells away from the end of `sizes` (see [`trim_back`]).
fn trim_excess(sizes: &mut Vec<u16>, excess: u64)
    ensures
        final(sizes)@ == trim_back(old(sizes)@, excess as int),
{
    let ghost p = sizes@;
    let n = sizes.len();
    let mut left = excess;
    let mut k = n;
    proof {
        assert(p.take(n as int) =~= p);
        assert(sizes@.subrange(n as int, n as int) =~= Seq::<u16>::empty());
        assert(trim_back(p.take(n as int), excess as int) + sizes@.subrange(n as int, n as int) =~= trim_back(p, excess as int));
    }
    while k > 0
        invariant
            n == sizes@.len(),
            n == p.len(),
            k <= n,
            sizes@.take(k as int) == p.take(k as int),
            trim_back(p, excess as int) == trim_back(p.take(k as int), left as int) + sizes@.subrange(k as int, n as int),
        ensures
            sizes@ == trim_back(p, excess as int),
        decreases k,
    {
        if left == 0 {
            proof {
                lemma_trim_back_zero(p.take(k as int));
                assert(sizes@ =~= sizes@.take(k as int) + sizes@.subrange(k as int, n as int));
            }
            break;
        }
        let i = k - 1;
        let cur = sizes[i];
        let t: u64 = if (cur as u64) < left {
            cur as u64
        } else {
            left
        };
        let ghost before = sizes@;
        sizes.set(i, (cur as u64 - t) as u16);
        proof {
            assert(p.take(k as int).drop_last() =~= p.take(i as int));
            assert(p.take(k as int).last() == cur);
            assert(sizes@.take(i as int) =~= p.take(i as int)) by {
                assert(before.take(k as int) == p.take(k as int));
                assert forall|j: int| 0 <= j < i implies sizes@[j] == p[j] by {
                    assert(before.take(k as int)[j] == p.take(k as int)[j]);
                }
            }
            assert(sizes@.subrange(i as int, n as int) =~= seq![(cur - t) as u16] + sizes@.subrange(k as int, n as int));
        }
        left = left - t;
        k = k - 1;
        proof {
            if k == 0 {
                assert(p.take(0) =~= Seq::<u16>::empty());
                assert(sizes@.subrange(0, n as int) =~= sizes@);
            }
        }
    }
}

proof fn lemma_sum16_prefix(s: Seq<u16>, i: int)
    requires
        0 <= i <= s.len(),
    ensures
        sum16(s.take(i)) <= sum16(s),
    decreases s.len(),
{
    if i == s.len() {
        assert(s.take(i) =~= s);
    } else {
        assert(s.take(i) =~= s.drop_last().take(i));
        lemma_sum16_prefix(s.drop_last(), i);
    }
}

} // verus!

verus! {

proof fn lemma_sum_requested(cs: Seq<Constraint>, total: int, k: int)
    requires
        0 <= k <= cs.len(),
        0 <= total <= u16::MAX,
    ensures
        sum16(requested(cs, total).take(k)) == request_sum(cs, total, k),
    decreases k,
{
    if k > 0 {
        let r = requested(cs, total);
        assert(r.take(k).drop_last() =~= r.take(k - 1));
        lemma_sum_requested(cs, total, k - 1);
        lemma_request_bounds(cs[k - 1], total);
    }
}

/// Partition `total` cells among `children`.  `Fixed` and `Percent` children get
/// their requests clamped to `[min, max]`; `Fill` children share what is left by
/// weight (water-filling: each is seeded at its `min`, shares are handed out by
/// weight, a child whose share would pass its `max` is pinned there and the rest is
/// shared again, and the rounding remainder goes to the last weighted children
/// first).  The sizes never sum past `total`, and they sum to exactly `total` unless
/// every `Fill` child ends at its `max`; when the requests alone overflow `total`,
/// children are trimmed from the end.
#[verifier::rlimit(40)]
pub fn partition(children: &[(Constraint, Node)], total: u16) -> (sizes: Vec<u16>)
    requires
        request_sum(constraints_of(children@), total as int, children@.len() as int) <= u32::MAX,
        weight_sum(constraints_of(children@), children@.len() as int) <= u32::MAX,
    ensures
        sizes@.len() == children@.len(),
        sum16(sizes@) <= total,
        sum16(sizes@) == total || fills_pinned(constraints_of(children@), sizes@),
        request_sum(constraints_of(children@), total as int, children@.len() as int) <= total
            ==> sizes_ok(constraints_of(children@), sizes@, total as int),
        request_sum(constraints_of(children@), total as int, children@.len() as int) <= total
            ==> zero_weight_last(constraints_of(children@), sizes@, total as int),
        request_sum(constraints_of(children@), total as int, children@.len() as int) > total
            ==> sizes@ == trim_back(
            requested(constraints_of(children@), total as int),
            request_sum(constraints_of(children@), total as int, children@.len() as int) - total,
        ),
        sizes@ == partition_spec(constraints_of(children@), total as int),
{
    let ghost cs = constraints_of(children@);
    let ghost n = children@.len() as int;
    let ghost req = request_sum(cs, total as int, n);
    let (mut sizes, used, seeded) = initial_sizes(children, total);
    proof {
        lemma_sum_requested(cs, total as int, n);
        assert(requested(cs, total as int).take(n) =~= requested(cs, total as int));
        lemma_request_sum_split(cs, total as int, n);
        assert forall|i: int| 0 <= i < n implies if is_fill(#[trigger] cs[i]) {
            request(cs[i], total as int) <= sizes@[i] <= cs[i].max
        } else {
            sizes@[i] == request(cs[i], total as int)
        } by {
            lemma_request_bounds(cs[i], total as int);
        }
    }
    let pool = (total as u32).saturating_sub(used);
    let mut leftover = pool.saturating_sub(seeded);
    let ghost left0 = leftover as int;
    let ghost init = requested(cs, total as int);
    let ghost fuel0: nat = (headroom(cs, init, n) + 1) as nat;
    let ghost mut fuel: nat = fuel0;
    proof {
        assert(left0 == fill_pool(cs, total as int));
        lemma_headroom_nonneg(cs, sizes@, n);
    }
    loop
        invariant_except_break
            fuel >= headroom(cs, sizes@, n) + 1,
        invariant
            init == requested(cs, total as int),
            water(cs, sizes@, leftover as int, fuel) == water(cs, init, left0, fuel0),
            cs == constraints_of(children@),
            n == children@.len(),
            0 <= total <= u16::MAX,
            weight_sum(cs, n) <= u32::MAX,
            sizes_ok(cs, sizes@, total as int),
            sum16(sizes@) + leftover == req + left0,
            leftover <= left0,
            left0 <= u16::MAX,
            left0 == 0 ==> sizes@ == requested(cs, total as int),
            zero_weight_last(cs, sizes@, total as int),
        ensures
            zero_weight_last(cs, sizes@, total as int),
            sizes_ok(cs, sizes@, total as int),
            sum16(sizes@) + leftover == req + left0,
            leftover <= left0,
            left0 == 0 ==> sizes@ == requested(cs, total as int),
            leftover == 0 || fills_pinned(cs, sizes@),
            sizes@ == water(cs, init, left0, fuel0),
        decreases headroom(cs, sizes@, n),
    {
        proof {
            lemma_headroom_nonneg(cs, sizes@, n);
        }
        let (any, aw) = active_of(children, &sizes);
        if !any || leftover == 0 {
            proof {
                assert(!any_active(cs, sizes@) || leftover == 0);
                assert(water(cs, sizes@, leftover as int, fuel) == sizes@);
            }
            break;
        }
        let ghost s_before = sizes@;
        let ghost l_before = leftover as int;
        let (assigned, pinned) = distribute_round(children, &mut sizes, leftover, aw, Ghost(total as int));
        leftover = leftover - assigned;
        proof {
            lemma_headroom_nonneg(cs, sizes@, n);
            assert(any_active(cs, s_before));
            assert(l_before - (sum16(sizes@) - sum16(s_before)) == leftover);
            if pinned {
                assert(water(cs, s_before, l_before, fuel) == water(cs, sizes@, leftover as int, (fuel - 1) as nat));
                fuel = (fuel - 1) as nat;
            }
        }
        if !pinned {
            let ghost mid = sizes@;
            leftover = hand_out_remainder(children, &mut sizes, leftover, true, Ghost(total as int));
            let ghost after_a = sizes@;
            let ghost left_a = leftover;
            leftover = hand_out_remainder(children, &mut sizes, leftover, false, Ghost(total as int));
            proof {
                assert(sizes@ == water(cs, s_before, l_before, fuel));
                if leftover != 0 {
                    assert forall|i: int| 0 <= i < sizes@.len() && is_fill(#[trigger] cs[i]) implies sizes@[i] == cs[i].max by {
                        if fill_weight(cs[i]) > 0 {
                            assert(after_a[i] == cs[i].max);
                        }
                    }
                }
            }
            break;
        }
    }
    proof {
        lemma_sum16_nonneg(sizes@);
    }
    let sum = sum_sizes(&sizes);
    if sum > total as u64 {
        proof {
            lemma_trim_back_sum(sizes@, sum - total);
        }
        trim_excess(&mut sizes, sum - total as u64);
    }
    sizes
}

} // verus!

verus! {

/// The extents summed.
pub open spec fn ext_sum(e: Seq<u16>) -> int
    decreases e.len(),
{
    if e.len() == 0 {
        0
    } else {
        ext_sum(e.drop_last()) + e.last()
    }
}

/// The scroll offset clamped so the content's tail stays flush with the viewport's end.
pub open spec fn clamped_scroll(e: Seq<u16>, scroll: int, main_extent: int) -> int {
    let over = ext_sum(e) - main_extent;
    let max_scroll = if over <= 0 {
        0
    } else if over > u16::MAX {
        u16::MAX as int
    } else {
        over
    };
    if scroll < max_scroll {
        scroll
    } else {
        max_scroll
    }
}

/// Among the first `k` children, those whose span `[start, start + extent)` in
/// content space overlaps `[vs, ve)`, as `(index, start, extent)`.
pub open spec fn visible_upto(e: Seq<u16>, k: int, vs: int, ve: int) -> Seq<(usize, u32, u16)>
    decreases k,
{
    if k <= 0 {
        Seq::empty()
    } else {
        let before = visible_upto(e, k - 1, vs, ve);
        let start = ext_sum(e.take(k - 1));
        let end = start + e[k - 1];
        if end > vs && start < ve {
            before.push(((k - 1) as usize, start as u32, e[k - 1]))
        } else {
            before
        }
    }
}

pub(crate) proof fn lemma_ext_sum_prefix(e: Seq<u16>, i: int, k: int)
    requires
        0 <= i <= k <= e.len(),
    ensures
        0 <= ext_sum(e.take(i)) <= ext_sum(e.take(k)) <= ext_sum(e),
{
    lemma_ext_sum_nonneg(e.take(i));
    lemma_prefix_le(e, i, k);
    lemma_prefix_le(e, k, e.len() as int);
    assert(e.take(e.len() as int) =~= e);
}

proof fn lemma_prefix_le(e: Seq<u16>, i: int, k: int)
    requires
        0 <= i <= k <= e.len(),
    ensures
        ext_sum(e.take(i)) <= ext_sum(e.take(k)),
    decreases k - i,
{
    if i < k {
        lemma_prefix_le(e, i, k - 1);
        assert(e.take(k).drop_last() =~= e.take(k - 1));
    }
}

proof fn lemma_ext_sum_nonneg(e: Seq<u16>)
    ensures
        0 <= ext_sum(e),
    decreases e.len(),
{
    if e.len() > 0 {
        lemma_ext_sum_nonneg(e.drop_last());
    }
}

/// Past the viewport's end no later child is visible.
proof fn lemma_visible_stops(e: Seq<u16>, k: int, vs: int, ve: int)
    requires
        0 <= k <= e.len(),
        ext_sum(e.take(k)) >= ve,
    ensures
        visible_upto(e, e.len() as int, vs, ve) == visible_upto(e, k, vs, ve),
    decreases e.len() - k,
{
    if k < e.len() {
        assert(e.take(k + 1).drop_last() =~= e.take(k));
        lemma_ext_sum_prefix(e, k + 1, k + 1);
        lemma_visible_stops(e, k + 1, vs, ve);
    }
}

/// Clamp `scroll` and list the children visible in a carousel viewport of
/// `main_extent` cells, as `(index, start in content space, extent)`.
pub fn carousel_visible_entries(extents: &[u16], scroll: u16, main_extent: u16) -> (r: (
    u16,
    Vec<(usize, u32, u16)>,
))
    requires
        ext_sum(extents@) <= u32::MAX,
    ensures
        r.0 == clamped_scroll(extents@, scroll as int, main_extent as int),
        r.1@ == visible_upto(
            extents@,
            extents@.len() as int,
            r.0 as int,
            r.0 + main_extent,
        ),
{
    let n = extents.len();
    let mut total: u32 = 0;
    let mut i: usize = 0;
    while i < n
        invariant
            n == extents@.len(),
            i <= n,
            total == ext_sum(extents@.take(i as int)),
            ext_sum(extents@) <= u32::MAX,
        decreases n - i,
    {
        proof {
            assert(extents@.take(i + 1).drop_last() =~= extents@.take(i as int));
            lemma_ext_sum_prefix(extents@, i + 1, i + 1);
        }
        total = total + extents[i] as u32;
        i = i + 1;
    }
    proof {
        assert(extents@.take(n as int) =~= extents@);
    }
    let over = total.saturating_sub(main_extent as u32);
    let max_scroll: u16 = if over > 65535 {
        65535
    } else {
        over as u16
    };
    let clamped = if scroll < max_scroll {
        scroll
    } else {
        max_scroll
    };
    let vp_start = clamped as u32;
    let vp_end = vp_start + main_extent as u32;
    let mut entries: Vec<(usize, u32, u16)> = Vec::new();
    let mut v_start: u32 = 0;
    let mut k: usize = 0;
    while k < n
        invariant
            n == extents@.len(),
            k <= n,
            v_start == ext_sum(extents@.take(k as int)),
            ext_sum(extents@) <= u32::MAX,
            entries@ == visible_upto(extents@, k as int, vp_start as int, vp_end as int),
        ensures
            entries@ == visible_upto(extents@, n as int, vp_start as int, vp_end as int),
        decreases n - k,
    {
        proof {
            assert(extents@.take(k + 1).drop_last() =~= extents@.take(k as int));
            lemma_ext_sum_prefix(extents@, k + 1, k + 1);
        }
        let ext = extents[k];
        let v_end = v_start + ext as u32;
        if v_end > vp_start && v_start < vp_end {
            entries.push((k, v_start, ext));
        }
        v_start = v_end;
        k = k + 1;
        if v_start >= vp_end {
            proof {
                lemma_visible_stops(extents@, k as int, vp_start as int, vp_end as int);
            }
            break;
        }
    }
    (clamped, entries)
}

} // verus!

verus! {

/// The sums the layout makes over a node's children stay within 32 bits, all through
/// the tree: every split's `Fill` weights, and every carousel's extents.
pub open spec fn tree_ok(node: Node) -> bool
    decreases node,
{
    match node {
        Node::Tile(_) => true,
        Node::Split { children, .. } => weight_sum(constraints_of(children@), children@.len() as int) <= u32::MAX
            && forall|i: int| 0 <= i < children@.len() ==> tree_ok(#[trigger] children@[i].1),
        Node::Carousel { children, .. } => ext_sum(children@.map_values(|c: (u16, Node)| c.0)) <= u32::MAX
            && forall|i: int| 0 <= i < children@.len() ==> tree_ok(#[trigger] children@[i].1),
    }
}

/// `v` clamped to `0..=65535`, as saturating `u16` arithmetic leaves it.
pub open spec fn clamp16(v: int) -> u16 {
    if v > 0xffff {
        0xffff
    } else if v < 0 {
        0
    } else {
        v as u16
    }
}

/// Laying out `node` in `area` stays within the arithmetic the layout uses: each
/// split's requests, at the extent it divides, sum within 32 bits and each child's
/// rect (placed at saturating positions) lays out; each visible carousel child starts
/// on screen at a coordinate that fits in 16 bits and lays out in its rect.
pub open spec fn lays_out(node: Node, area: Rect) -> bool
    decreases node,
{
    match node {
        Node::Tile(_) => true,
        Node::Split { orientation, children } => {
            let axis = resolve_spec(orientation, area).1;
            let sizes = partition_spec(constraints_of(children@), main_len(axis, area) as int);
            &&& request_sum(constraints_of(children@), main_len(axis, area) as int, children@.len() as int) <= u32::MAX
            &&& forall|i: int|
                0 <= i < children@.len() ==> lays_out(
                    #[trigger] children@[i].1,
                    child_rect_spec(axis, area, clamp16(main_start(axis, area) + sum16(sizes.take(i))), sizes[i]),
                )
        },
        Node::Carousel { orientation, scroll, children, .. } => {
            let axis = resolve_spec(orientation, area).1;
            let main_extent = main_len(axis, area);
            let extents = children@.map_values(|c: (u16, Node)| c.0);
            let clamped = clamped_scroll(extents, scroll as int, main_extent as int) as u16;
            let entries = visible_upto(extents, extents.len() as int, clamped as int, clamped + main_extent);
            forall|e: int|
                0 <= e < entries.len() && entries[e].0 < children@.len() ==> main_start(axis, area) + (if (
                #[trigger] entries[e]).1 > clamped as u32 {
                    entries[e].1 as int
                } else {
                    clamped as int
                }) - clamped <= 0xffff && lays_out(
                    children@[entries[e].0 as int].1,
                    entry_rect(axis, area, entries[e], clamped, main_extent),
                )
        },
    }
}

/// `r` lies inside `a`.
pub open spec fn within(r: Rect, a: Rect) -> bool {
    &&& a.x <= r.x
    &&& a.y <= r.y
    &&& r.x + r.width <= a.x + a.width
    &&& r.y + r.height <= a.y + a.height
}

proof fn lemma_sums_fit(cs: Seq<Constraint>, total: int, k: int)
    requires
        0 <= k <= cs.len(),
        0 <= total <= u16::MAX,
    ensures
        request_sum(cs, total, k) <= 65535 * k,
        weight_sum(cs, k) <= 65535 * k,
        0 <= weight_sum(cs, k),
    decreases k,
{
    if k > 0 {
        lemma_sums_fit(cs, total, k - 1);
        lemma_request_bounds(cs[k - 1], total);
    }
}

/// The requests and weights of at most 65536 children sum within 32 bits.
pub proof fn lemma_sums_fit_pub(cs: Seq<Constraint>, total: int)
    requires
        cs.len() <= 0x10000,
        0 <= total <= u16::MAX,
    ensures
        request_sum(cs, total, cs.len() as int) <= u32::MAX,
        weight_sum(cs, cs.len() as int) <= u32::MAX,
{
    lemma_sums_fit(cs, total, cs.len() as int);
}

pub(crate) proof fn lemma_ext_sum_bound(e: Seq<u16>)
    ensures
        ext_sum(e) <= 65535 * e.len(),
    decreases e.len(),
{
    if e.len() > 0 {
        lemma_ext_sum_bound(e.drop_last());
    }
}

pub(crate) proof fn lemma_visible_indices(e: Seq<u16>, k: int, vs: int, ve: int)
    requires
        0 <= k <= e.len(),
        e.len() <= usize::MAX,
        ext_sum(e) <= u32::MAX,
    ensures
        forall|a: int|
            0 <= a < visible_upto(e, k, vs, ve).len() ==> (#[trigger] visible_upto(e, k, vs, ve)[a]).0
                < k,
        forall|a: int, b: int|
            0 <= a < b < visible_upto(e, k, vs, ve).len() ==> (#[trigger] visible_upto(e, k, vs, ve)[a]).0
                < (#[trigger] visible_upto(e, k, vs, ve)[b]).0,
        forall|a: int|
            0 <= a < visible_upto(e, k, vs, ve).len() ==> {
                let t = #[trigger] visible_upto(e, k, vs, ve)[a];
                &&& t.1 == ext_sum(e.take(t.0 as int))
                &&& t.2 == e[t.0 as int]
                &&& t.1 + t.2 > vs
                &&& t.1 < ve
            },
    decreases k,
{
    if k > 0 {
        lemma_visible_indices(e, k - 1, vs, ve);
        let v = visible_upto(e, k, vs, ve);
        let p = visible_upto(e, k - 1, vs, ve);
        lemma_ext_sum_prefix(e, k - 1, k - 1);
        assert forall|a: int| 0 <= a < p.len() implies v[a] == p[a] by {}
    }
}

} // verus!

verus! {

/// The main-axis extents of a carousel's children.
pub(crate) fn extents_of(children: &Vec<(u16, Node)>) -> (r: Vec<u16>)
    ensures
        r@.len() == children@.len(),
        forall|i: int| 0 <= i < r@.len() ==> #[trigger] r@[i] == children@[i].0,
{
    let mut r: Vec<u16> = Vec::new();
    let mut i: usize = 0;
    while i < children.len()
        invariant
            i <= children@.len(),
            r@.len() == i,
            forall|j: int| 0 <= j < i ==> #[trigger] r@[j] == children@[j].0,
        decreases children@.len() - i,
    {
        r.push(children[i].0);
        i = i + 1;
    }
    r
}

/// No cell lies in both `a` and `b`.
pub open spec fn apart(a: Rect, b: Rect) -> bool {
    ||| a.width == 0 || a.height == 0 || b.width == 0 || b.height == 0
    ||| a.x + a.width <= b.x || b.x + b.width <= a.x
    ||| a.y + a.height <= b.y || b.y + b.height <= a.y
}

/// The rects of `s` from index `lo` on share no cell, pairwise.
pub open spec fn rects_apart(s: Seq<(TileId, Rect)>, lo: int) -> bool {
    forall|i: int, j: int| lo <= i < j < s.len() ==> apart(#[trigger] s[i].1, #[trigger] s[j].1)
}

/// `r` ends, along `axis`, at or before coordinate `mark`.
pub open spec fn ends_by(r: Rect, axis: Axis, mark: int) -> bool {
    match axis {
        Axis::Horizontal => r.x + r.width <= mark,
        Axis::Vertical => r.y + r.height <= mark,
    }
}

/// `r` starts, along `axis`, at or after coordinate `mark`.
pub open spec fn starts_from(r: Rect, axis: Axis, mark: int) -> bool {
    match axis {
        Axis::Horizontal => r.x >= mark,
        Axis::Vertical => r.y >= mark,
    }
}

/// Appending rects that lie inside a child starting at `mark` to rects that end by
/// `mark` keeps them all apart, and they all end where the child ends.
proof fn lemma_append_apart(
    out1: Seq<(TileId, Rect)>,
    out2: Seq<(TileId, Rect)>,
    lo: int,
    axis: Axis,
    mark: int,
    child: Rect,
    mark2: int,
)
    requires
        0 <= lo <= out1.len() <= out2.len(),
        out2.subrange(0, out1.len() as int) == out1,
        rects_apart(out1, lo),
        forall|k: int| lo <= k < out1.len() ==> ends_by(#[trigger] out1[k].1, axis, mark),
        rects_apart(out2, out1.len() as int),
        forall|k: int| out1.len() <= k < out2.len() ==> within(#[trigger] out2[k].1, child),
        starts_from(child, axis, mark),
        ends_by(child, axis, mark2),
        mark <= mark2,
    ensures
        rects_apart(out2, lo),
        forall|k: int| lo <= k < out2.len() ==> ends_by(#[trigger] out2[k].1, axis, mark2),
{
    assert forall|k: int| 0 <= k < out1.len() implies out2[k] == out1[k] by {
        assert(out2.subrange(0, out1.len() as int)[k] == out2[k]);
    }
    assert forall|i: int, j: int| lo <= i < j < out2.len() implies apart(#[trigger] out2[i].1, #[trigger] out2[j].1) by {
        if j < out1.len() {
            assert(apart(out1[i].1, out1[j].1));
        } else if i < out1.len() {
            assert(ends_by(out1[i].1, axis, mark));
            assert(within(out2[j].1, child));
        }
    }
    assert forall|k: int| lo <= k < out2.len() implies ends_by(#[trigger] out2[k].1, axis, mark2) by {
        if k < out1.len() {
            assert(ends_by(out1[k].1, axis, mark));
        } else {
            assert(within(out2[k].1, child));
        }
    }
}

/// The visible children of a carousel follow one another in content space.
proof fn lemma_visible_ordered(e: Seq<u16>, vs: int, ve: int)
    requires
        e.len() <= usize::MAX,
        ext_sum(e) <= u32::MAX,
    ensures
        forall|a: int, b: int|
            0 <= a < b < visible_upto(e, e.len() as int, vs, ve).len() ==> (#[trigger] visible_upto(
                e,
                e.len() as int,
                vs,
                ve,
            )[a]).1 + visible_upto(e, e.len() as int, vs, ve)[a].2 <= (#[trigger] visible_upto(
                e,
                e.len() as int,
                vs,
                ve,
            )[b]).1,
{
    let v = visible_upto(e, e.len() as int, vs, ve);
    lemma_visible_indices(e, e.len() as int, vs, ve);
    assert forall|a: int, b: int| 0 <= a < b < v.len() implies (#[trigger] v[a]).1 + v[a].2 <= (#[trigger] v[b]).1 by {
        let i = v[a].0 as int;
        let j = v[b].0 as int;
        assert(i < j);
        assert(e.take(i + 1).drop_last() =~= e.take(i));
        lemma_ext_sum_prefix(e, i + 1, j);
    }
}

/// The rect along `axis` of `area` that starts at `pos` and is `size` long, across
/// the whole of `area`.
pub open spec fn child_rect_spec(axis: Axis, area: Rect, pos: u16, size: u16) -> Rect {
    match axis {
        Axis::Horizontal => Rect { x: pos, y: area.y, width: size, height: area.height },
        Axis::Vertical => Rect { x: area.x, y: pos, width: area.width, height: size },
    }
}

/// The extent of `area` along `axis`.
pub open spec fn main_len(axis: Axis, area: Rect) -> u16 {
    match axis {
        Axis::Horizontal => area.width,
        Axis::Vertical => area.height,
    }
}

/// The coordinate where `area` starts along `axis`.
pub open spec fn main_start(axis: Axis, area: Rect) -> u16 {
    match axis {
        Axis::Horizontal => area.x,
        Axis::Vertical => area.y,
    }
}

/// The rect a visible carousel entry `t` (index, start in content space, extent) gets
/// in `area` with the content scrolled by `clamped` and `main_extent` cells shown:
/// its span clipped to the viewport, moved to screen coordinates.
pub open spec fn entry_rect(axis: Axis, area: Rect, t: (usize, u32, u16), clamped: u16, main_extent: u16) -> Rect {
    let vis_start = if t.1 > clamped as u32 {
        t.1
    } else {
        clamped as u32
    };
    let v_end = t.1 + t.2;
    let vp_end = clamped + main_extent;
    let vis_end = if v_end < vp_end {
        v_end
    } else {
        vp_end
    };
    child_rect_spec(
        axis,
        area,
        (main_start(axis, area) + (vis_start - clamped) as u16) as u16,
        (vis_end - vis_start) as u16,
    )
}

/// The `(id, rect)` of each visible leaf when `node` is laid out in `area`, in
/// depth-first order: a tile fills the area; a split's children get consecutive
/// rects of the sizes [`partition_spec`] gives along its resolved axis; a carousel's
/// children visible after its scroll is clamped get their spans clipped to the
/// viewport.
pub open spec fn solve_out(node: Node, area: Rect) -> Seq<(TileId, Rect)>
    decreases node, 0int,
{
    match node {
        Node::Tile(id) => seq![(id, area)],
        Node::Split { orientation, children } => if children@.len() == 0 {
            Seq::empty()
        } else {
            let axis = resolve_spec(orientation, area).1;
            let sizes = partition_spec(constraints_of(children@), main_len(axis, area) as int);
            proof {
                assert(decreases_to!(node => children));
                assert(decreases_to!(children => children@));
            }
            split_parts(children@, axis, area, sizes, children@.len() as int)
        },
        Node::Carousel { orientation, scroll, children, .. } => if children@.len() == 0 {
            Seq::empty()
        } else {
            let axis = resolve_spec(orientation, area).1;
            let main_extent = main_len(axis, area);
            let extents = children@.map_values(|c: (u16, Node)| c.0);
            let clamped = clamped_scroll(extents, scroll as int, main_extent as int) as u16;
            let entries = visible_upto(extents, extents.len() as int, clamped as int, clamped + main_extent);
            proof {
                assert(decreases_to!(node => children));
                assert(decreases_to!(children => children@));
            }
            carousel_parts(children@, entries, axis, area, clamped, main_extent, entries.len() as int)
        },
    }
}

/// `b` is `a` after it is laid out in `area`: every adaptive orientation met
/// records its choice, every carousel met has its scroll clamped, and the children
/// laid out are changed in turn; children a carousel does not show, and the nodes
/// of empty splits and carousels, stay as they were.
pub open spec fn solved_node(a: Node, b: Node, area: Rect) -> bool
    decreases a,
{
    match a {
        Node::Tile(_) => b == a,
        Node::Split { orientation, children } => match b {
            Node::Split { orientation: o2, children: c2 } => if children@.len() == 0 {
                o2 == orientation && c2@ == children@
            } else {
                let axis = resolve_spec(orientation, area).1;
                let sizes = partition_spec(constraints_of(children@), main_len(axis, area) as int);
                &&& o2 == resolve_spec(orientation, area).0
                &&& c2@.len() == children@.len()
                &&& forall|i: int|
                    0 <= i < children@.len() ==> (#[trigger] c2@[i]).0 == children@[i].0 && solved_node(
                        children@[i].1,
                        c2@[i].1,
                        child_rect_spec(
                            axis,
                            area,
                            clamp16(main_start(axis, area) + sum16(sizes.take(i))),
                            sizes[i],
                        ),
                    )
            },
            _ => false,
        },
        Node::Carousel { id, orientation, scroll, children } => match b {
            Node::Carousel { id: id2, orientation: o2, scroll: s2, children: c2 } => if children@.len() == 0 {
                id2 == id && o2 == orientation && s2 == scroll && c2@ == children@
            } else {
                let axis = resolve_spec(orientation, area).1;
                let main_extent = main_len(axis, area);
                let extents = children@.map_values(|c: (u16, Node)| c.0);
                let clamped = clamped_scroll(extents, scroll as int, main_extent as int) as u16;
                let entries = visible_upto(extents, extents.len() as int, clamped as int, clamped + main_extent);
                &&& id2 == id
                &&& o2 == resolve_spec(orientation, area).0
                &&& s2 == clamped
                &&& c2@.len() == children@.len()
                &&& forall|i: int| 0 <= i < children@.len() ==> (#[trigger] c2@[i]).0 == children@[i].0
                &&& forall|i: int|
                    0 <= i < children@.len() && (forall|e: int| 0 <= e < entries.len() ==> entries[e].0 != i)
                        ==> #[trigger] c2@[i] == children@[i]
                &&& forall|e: int|
                    0 <= e < entries.len() && entries[e].0 < children@.len() ==> solved_node(
                        children@[#[trigger] entries[e].0 as int].1,
                        c2@[entries[e].0 as int].1,
                        entry_rect(axis, area, entries[e], clamped, main_extent),
                    )
            },
            _ => false,
        },
    }
}

/// Some carousel in the tree under `node` has the id `id`.
pub open spec fn names_carousel(node: Node, id: TileId) -> bool
    decreases node,
{
    match node {
        Node::Tile(_) => false,
        Node::Split { children, .. } => exists|i: int|
            0 <= i < children@.len() && names_carousel(#[trigger] children@[i].1, id),
        Node::Carousel { id: cid, children, .. } => cid == id || exists|i: int|
            0 <= i < children@.len() && names_carousel(#[trigger] children@[i].1, id),
    }
}

/// The rect found for a tile id is the rect the layout gives that tile: where `id`
/// names no carousel, a region found for it is one of the layout's `(id, rect)`.
pub proof fn lemma_region_in_solve(node: Node, area: Rect, id: TileId)
    requires
        !names_carousel(node, id),
        region_spec(node, area, id) is Some,
    ensures
        solve_out(node, area).contains((id, region_spec(node, area, id)->0)),
    decreases node, 0int,
{
    match node {
        Node::Tile(t) => {
            assert(solve_out(node, area)[0] == (id, area));
        },
        Node::Split { orientation, children } => {
            let axis = resolve_spec(orientation, area).1;
            let sizes = partition_spec(constraints_of(children@), main_len(axis, area) as int);
            assert(decreases_to!(node => children));
            assert(decreases_to!(children => children@));
            assert forall|i: int| 0 <= i < children@.len() implies !names_carousel(#[trigger] children@[i].1, id) by {}
            lemma_split_region_in(children@, axis, area, sizes, id, children@.len() as int);
        },
        Node::Carousel { id: cid, orientation, scroll, children } => {
            let axis = resolve_spec(orientation, area).1;
            let main_extent = main_len(axis, area);
            let extents = children@.map_values(|c: (u16, Node)| c.0);
            let clamped = clamped_scroll(extents, scroll as int, main_extent as int) as u16;
            let entries = visible_upto(extents, extents.len() as int, clamped as int, clamped + main_extent);
            assert(decreases_to!(node => children));
            assert(decreases_to!(children => children@));
            assert forall|i: int| 0 <= i < children@.len() implies !names_carousel(#[trigger] children@[i].1, id) by {}
            lemma_carousel_region_in(children@, entries, axis, area, clamped, main_extent, id, entries.len() as int);
        },
    }
}

proof fn lemma_split_region_in(
    kids: Seq<(Constraint, Node)>,
    axis: Axis,
    area: Rect,
    sizes: Seq<u16>,
    id: TileId,
    k: int,
)
    requires
        forall|i: int| 0 <= i < kids.len() ==> !names_carousel(#[trigger] kids[i].1, id),
        split_region(kids, axis, area, sizes, id, k) is Some,
    ensures
        split_parts(kids, axis, area, sizes, k).contains((id, split_region(kids, axis, area, sizes, id, k)->0)),
    decreases kids, k,
{
    if 0 < k <= kids.len() {
        let rect = child_rect_spec(
            axis,
            area,
            clamp16(main_start(axis, area) + sum16(sizes.take(k - 1))),
            sizes[k - 1],
        );
        let prev = split_parts(kids, axis, area, sizes, k - 1);
        let here = solve_out(kids[k - 1].1, rect);
        if split_region(kids, axis, area, sizes, id, k - 1) is Some {
            lemma_split_region_in(kids, axis, area, sizes, id, k - 1);
            let w = choose|j: int| 0 <= j < prev.len() && prev[j] == (id, split_region(kids, axis, area, sizes, id, k)->0);
            assert((prev + here)[w] == prev[w]);
        } else {
            assert(decreases_to!(kids => kids[k - 1]));
            assert(decreases_to!(kids[k - 1] => kids[k - 1].1));
            lemma_region_in_solve(kids[k - 1].1, rect, id);
            let w = choose|j: int| 0 <= j < here.len() && here[j] == (id, region_spec(kids[k - 1].1, rect, id)->0);
            assert((prev + here)[prev.len() + w] == here[w]);
        }
    }
}

proof fn lemma_carousel_region_in(
    kids: Seq<(u16, Node)>,
    entries: Seq<(usize, u32, u16)>,
    axis: Axis,
    area: Rect,
    clamped: u16,
    main_extent: u16,
    id: TileId,
    k: int,
)
    requires
        forall|i: int| 0 <= i < kids.len() ==> !names_carousel(#[trigger] kids[i].1, id),
        carousel_region(kids, entries, axis, area, clamped, main_extent, id, k) is Some,
    ensures
        carousel_parts(kids, entries, axis, area, clamped, main_extent, k).contains(
            (id, carousel_region(kids, entries, axis, area, clamped, main_extent, id, k)->0),
        ),
    decreases kids, k,
{
    if 0 < k <= entries.len() {
        let prev = carousel_parts(kids, entries, axis, area, clamped, main_extent, k - 1);
        if carousel_region(kids, entries, axis, area, clamped, main_extent, id, k - 1) is Some {
            lemma_carousel_region_in(kids, entries, axis, area, clamped, main_extent, id, k - 1);
            let w = choose|j: int|
                0 <= j < prev.len() && prev[j] == (id, carousel_region(kids, entries, axis, area, clamped, main_extent, id, k)->0);
            if entries[k - 1].0 < kids.len() {
                let here = solve_out(
                    kids[entries[k - 1].0 as int].1,
                    entry_rect(axis, area, entries[k - 1], clamped, main_extent),
                );
                assert((prev + here)[w] == prev[w]);
            }
        } else if entries[k - 1].0 < kids.len() {
            let j = entries[k - 1].0 as int;
            let rect = entry_rect(axis, area, entries[k - 1], clamped, main_extent);
            let here = solve_out(kids[j].1, rect);
            assert(decreases_to!(kids => kids[j]));
            assert(decreases_to!(kids[j] => kids[j].1));
            lemma_region_in_solve(kids[j].1, rect, id);
            let w = choose|q: int| 0 <= q < here.len() && here[q] == (id, region_spec(kids[j].1, rect, id)->0);
            assert((prev + here)[prev.len() + w] == here[w]);
        }
    }
}

/// The rect of the first entry of `s` that names `id`; `None` when none does.
pub open spec fn first_rect(s: Seq<(TileId, Rect)>, id: TileId) -> Option<Rect>
    decreases s.len(),
{
    if s.len() == 0 {
        None
    } else if s[0].0 == id {
        Some(s[0].1)
    } else {
        first_rect(s.drop_first(), id)
    }
}

/// The first entry naming `id` in `a + b` is the first in `a`, else the first in `b`.
proof fn lemma_first_rect_concat(a: Seq<(TileId, Rect)>, b: Seq<(TileId, Rect)>, id: TileId)
    ensures
        first_rect(a + b, id) == (match first_rect(a, id) {
            Some(r) => Some(r),
            None => first_rect(b, id),
        }),
    decreases a.len(),
{
    if a.len() > 0 {
        assert((a + b)[0] == a[0]);
        assert((a + b).drop_first() =~= a.drop_first() + b);
        lemma_first_rect_concat(a.drop_first(), b, id);
    } else {
        assert(a + b =~= b);
    }
}

/// What the region lookup finds for an id that names no carousel is the rect of the
/// first leaf of that id in the layout, and nothing when no leaf carries that id.
pub proof fn lemma_region_is_first_solved(node: Node, area: Rect, id: TileId)
    requires
        !names_carousel(node, id),
    ensures
        region_spec(node, area, id) == first_rect(solve_out(node, area), id),
    decreases node, 0int,
{
    match node {
        Node::Tile(t) => {
            let s = solve_out(node, area);
            assert(s =~= seq![(t, area)]);
            assert(s.drop_first() =~= Seq::<(TileId, Rect)>::empty());
            assert(first_rect(s.drop_first(), id) is None);
            assert(s[0] == (t, area));
        },
        Node::Split { orientation, children } => {
            if children@.len() > 0 {
                let axis = resolve_spec(orientation, area).1;
                let sizes = partition_spec(constraints_of(children@), main_len(axis, area) as int);
                assert(decreases_to!(node => children));
                assert(decreases_to!(children => children@));
                assert forall|i: int| 0 <= i < children@.len() implies !names_carousel(#[trigger] children@[i].1, id) by {}
                lemma_split_first(children@, axis, area, sizes, id, children@.len() as int);
            }
        },
        Node::Carousel { id: cid, orientation, scroll, children } => {
            if children@.len() > 0 {
                let axis = resolve_spec(orientation, area).1;
                let main_extent = main_len(axis, area);
                let extents = children@.map_values(|c: (u16, Node)| c.0);
                let clamped = clamped_scroll(extents, scroll as int, main_extent as int) as u16;
                let entries = visible_upto(extents, extents.len() as int, clamped as int, clamped + main_extent);
                assert(decreases_to!(node => children));
                assert(decreases_to!(children => children@));
                assert forall|i: int| 0 <= i < children@.len() implies !names_carousel(#[trigger] children@[i].1, id) by {}
                lemma_carousel_first(children@, entries, axis, area, clamped, main_extent, id, entries.len() as int);
            }
        },
    }
}

proof fn lemma_split_first(kids: Seq<(Constraint, Node)>, axis: Axis, area: Rect, sizes: Seq<u16>, id: TileId, k: int)
    requires
        forall|i: int| 0 <= i < kids.len() ==> !names_carousel(#[trigger] kids[i].1, id),
    ensures
        split_region(kids, axis, area, sizes, id, k) == first_rect(split_parts(kids, axis, area, sizes, k), id),
    decreases kids, k,
{
    if 0 < k <= kids.len() {
        let rect = child_rect_spec(
            axis,
            area,
            clamp16(main_start(axis, area) + sum16(sizes.take(k - 1))),
            sizes[k - 1],
        );
        let prev = split_parts(kids, axis, area, sizes, k - 1);
        let here = solve_out(kids[k - 1].1, rect);
        lemma_split_first(kids, axis, area, sizes, id, k - 1);
        assert(decreases_to!(kids => kids[k - 1]));
        assert(decreases_to!(kids[k - 1] => kids[k - 1].1));
        lemma_region_is_first_solved(kids[k - 1].1, rect, id);
        lemma_first_rect_concat(prev, here, id);
    } else {
        assert(first_rect(Seq::<(TileId, Rect)>::empty(), id) is None);
    }
}

proof fn lemma_carousel_first(
    kids: Seq<(u16, Node)>,
    entries: Seq<(usize, u32, u16)>,
    axis: Axis,
    area: Rect,
    clamped: u16,
    main_extent: u16,
    id: TileId,
    k: int,
)
    requires
        forall|i: int| 0 <= i < kids.len() ==> !names_carousel(#[trigger] kids[i].1, id),
    ensures
        carousel_region(kids, entries, axis, area, clamped, main_extent, id, k) == first_rect(
            carousel_parts(kids, entries, axis, area, clamped, main_extent, k),
            id,
        ),
    decreases kids, k,
{
    if 0 < k <= entries.len() {
        lemma_carousel_first(kids, entries, axis, area, clamped, main_extent, id, k - 1);
        if entries[k - 1].0 < kids.len() {
            let j = entries[k - 1].0 as int;
            let rect = entry_rect(axis, area, entries[k - 1], clamped, main_extent);
            let prev = carousel_parts(kids, entries, axis, area, clamped, main_extent, k - 1);
            let here = solve_out(kids[j].1, rect);
            assert(decreases_to!(kids => kids[j]));
            assert(decreases_to!(kids[j] => kids[j].1));
            lemma_region_is_first_solved(kids[j].1, rect, id);
            lemma_first_rect_concat(prev, here, id);
        }
    } else {
        assert(first_rect(Seq::<(TileId, Rect)>::empty(), id) is None);
    }
}

/// Once a rect is found among the first `k` children, it stays the one found.
proof fn lemma_split_region_stays(kids: Seq<(Constraint, Node)>, axis: Axis, area: Rect, sizes: Seq<u16>, id: TileId, k: int, m: int)
    requires
        0 <= k <= m <= kids.len(),
        split_region(kids, axis, area, sizes, id, k) is Some,
    ensures
        split_region(kids, axis, area, sizes, id, m) == split_region(kids, axis, area, sizes, id, k),
    decreases m - k,
{
    if k < m {
        lemma_split_region_stays(kids, axis, area, sizes, id, k, m - 1);
    }
}

/// Once a rect is found among the first `k` entries, it stays the one found.
proof fn lemma_carousel_region_stays(
    kids: Seq<(u16, Node)>,
    entries: Seq<(usize, u32, u16)>,
    axis: Axis,
    area: Rect,
    clamped: u16,
    main_extent: u16,
    id: TileId,
    k: int,
    m: int,
)
    requires
        0 <= k <= m <= entries.len(),
        carousel_region(kids, entries, axis, area, clamped, main_extent, id, k) is Some,
    ensures
        carousel_region(kids, entries, axis, area, clamped, main_extent, id, m) == carousel_region(
            kids,
            entries,
            axis,
            area,
            clamped,
            main_extent,
            id,
            k,
        ),
    decreases m - k,
{
    if k < m {
        lemma_carousel_region_stays(kids, entries, axis, area, clamped, main_extent, id, k, m - 1);
    }
}

/// The rect the node `id` gets when `node` is laid out in `area`: a tile's area when
/// it is `id`; a carousel's whole area when it is `id`; else the first rect found
/// among a split's children, or among a carousel's visible children, each in its
/// rect as [`solve_out`] lays them out; `None` when there is none.
pub open spec fn region_spec(node: Node, area: Rect, id: TileId) -> Option<Rect>
    decreases node, 0int,
{
    match node {
        Node::Tile(t) => if t == id {
            Some(area)
        } else {
            None
        },
        Node::Split { orientation, children } => if children@.len() == 0 {
            None
        } else {
            let axis = resolve_spec(orientation, area).1;
            let sizes = partition_spec(constraints_of(children@), main_len(axis, area) as int);
            proof {
                assert(decreases_to!(node => children));
                assert(decreases_to!(children => children@));
            }
            split_region(children@, axis, area, sizes, id, children@.len() as int)
        },
        Node::Carousel { id: cid, orientation, scroll, children } => if cid == id {
            Some(area)
        } else if children@.len() == 0 {
            None
        } else {
            let axis = resolve_spec(orientation, area).1;
            let main_extent = main_len(axis, area);
            let extents = children@.map_values(|c: (u16, Node)| c.0);
            let clamped = clamped_scroll(extents, scroll as int, main_extent as int) as u16;
            let entries = visible_upto(extents, extents.len() as int, clamped as int, clamped + main_extent);
            proof {
                assert(decreases_to!(node => children));
                assert(decreases_to!(children => children@));
            }
            carousel_region(children@, entries, axis, area, clamped, main_extent, id, entries.len() as int)
        },
    }
}

/// The first rect of `id` found among the first `k` children of a split.
pub open spec fn split_region(
    kids: Seq<(Constraint, Node)>,
    axis: Axis,
    area: Rect,
    sizes: Seq<u16>,
    id: TileId,
    k: int,
) -> Option<Rect>
    decreases kids, k,
{
    if k <= 0 || k > kids.len() {
        None
    } else {
        match split_region(kids, axis, area, sizes, id, k - 1) {
            Some(r) => Some(r),
            None => {
                proof {
                    assert(decreases_to!(kids => kids[k - 1]));
                    assert(decreases_to!(kids[k - 1] => kids[k - 1].1));
                }
                region_spec(
                    kids[k - 1].1,
                    child_rect_spec(
                        axis,
                        area,
                        clamp16(main_start(axis, area) + sum16(sizes.take(k - 1))),
                        sizes[k - 1],
                    ),
                    id,
                )
            },
        }
    }
}

/// The first rect of `id` found among the first `k` visible entries of a carousel.
pub open spec fn carousel_region(
    kids: Seq<(u16, Node)>,
    entries: Seq<(usize, u32, u16)>,
    axis: Axis,
    area: Rect,
    clamped: u16,
    main_extent: u16,
    id: TileId,
    k: int,
) -> Option<Rect>
    decreases kids, k,
{
    if k <= 0 || k > entries.len() {
        None
    } else {
        match carousel_region(kids, entries, axis, area, clamped, main_extent, id, k - 1) {
            Some(r) => Some(r),
            None => if entries[k - 1].0 >= kids.len() {
                None
            } else {
                proof {
                    assert(decreases_to!(kids => kids[entries[k - 1].0 as int]));
                    assert(decreases_to!(kids[entries[k - 1].0 as int] => kids[entries[k - 1].0 as int].1));
                }
                region_spec(
                    kids[entries[k - 1].0 as int].1,
                    entry_rect(axis, area, entries[k - 1], clamped, main_extent),
                    id,
                )
            },
        }
    }
}

/// The leaves of the first `k` children of a split, each laid out in its rect: the
/// children's `sizes` laid end to end along `axis` from the start of `area`.
pub open spec fn split_parts(
    kids: Seq<(Constraint, Node)>,
    axis: Axis,
    area: Rect,
    sizes: Seq<u16>,
    k: int,
) -> Seq<(TileId, Rect)>
    decreases kids, k,
{
    if k <= 0 || k > kids.len() {
        Seq::empty()
    } else {
        proof {
            assert(decreases_to!(kids => kids[k - 1]));
            assert(decreases_to!(kids[k - 1] => kids[k - 1].1));
        }
        split_parts(kids, axis, area, sizes, k - 1) + solve_out(
            kids[k - 1].1,
            child_rect_spec(
                axis,
                area,
                clamp16(main_start(axis, area) + sum16(sizes.take(k - 1))),
                sizes[k - 1],
            ),
        )
    }
}

/// The leaves of the first `k` visible entries of a carousel, each child laid out in
/// its clipped rect.
pub open spec fn carousel_parts(
    kids: Seq<(u16, Node)>,
    entries: Seq<(usize, u32, u16)>,
    axis: Axis,
    area: Rect,
    clamped: u16,
    main_extent: u16,
    k: int,
) -> Seq<(TileId, Rect)>
    decreases kids, k,
{
    if k <= 0 || k > entries.len() {
        Seq::empty()
    } else if entries[k - 1].0 >= kids.len() {
        carousel_parts(kids, entries, axis, area, clamped, main_extent, k - 1)
    } else {
        proof {
            assert(decreases_to!(kids => kids[entries[k - 1].0 as int]));
            assert(decreases_to!(kids[entries[k - 1].0 as int] => kids[entries[k - 1].0 as int].1));
        }
        carousel_parts(kids, entries, axis, area, clamped, main_extent, k - 1) + solve_out(
            kids[entries[k - 1].0 as int].1,
            entry_rect(axis, area, entries[k - 1], clamped, main_extent),
        )
    }
}

/// The rect of the `i`-th child of a split along `axis` that starts at `pos`.
fn child_rect(axis: Axis, area: Rect, pos: u16, size: u16) -> (r: Rect)
    ensures
        r == (match axis {
            Axis::Horizontal => Rect { x: pos, y: area.y, width: size, height: area.height },
            Axis::Vertical => Rect { x: area.x, y: pos, width: area.width, height: size },
        }),
{
    match axis {
        Axis::Horizontal => Rect::new(pos, area.y, size, area.height),
        Axis::Vertical => Rect::new(area.x, pos, area.width, size),
    }
}

/// Solve the layout tree rooted at `node` within `area`: one `(id, rect)` per
/// visible leaf, in depth-first order, appended to `out`.  Every rect lies inside
/// `area`.  Adaptive orientations record their choice and carousel scroll offsets
/// are clamped in place.
#[verifier::rlimit(80)]
pub fn solve_into(node: &mut Node, area: Rect, out: &mut Vec<(TileId, Rect)>)
    requires
        tree_ok(*old(node)),
        lays_out(*old(node), area),
    ensures
        tree_ok(*final(node)),
        final(out)@.len() >= old(out)@.len(),
        final(out)@.subrange(0, old(out)@.len() as int) == old(out)@,
        forall|k: int|
            old(out)@.len() <= k < final(out)@.len() ==> within(#[trigger] final(out)@[k].1, area),
        area.fits() ==> rects_apart(final(out)@, old(out)@.len() as int),
        final(out)@ == old(out)@ + solve_out(*old(node), area),
        solved_node(*old(node), *final(node), area),
    decreases *old(node),
{
    let ghost out0 = out@;
    let ghost node0 = *node;
    match node {
        Node::Tile(id) => {
            out.push((*id, area));
            proof {
                assert(out@.subrange(0, out0.len() as int) =~= out0);
                assert(out@ =~= out0 + solve_out(node0, area));
            }
        },
        Node::Split { orientation, children } => {
            let ghost o0 = *orientation;
            let ghost c0 = children@;
            proof {
                assert(node0 == Node::Split { orientation: o0, children: *children });
            }
            if children.len() == 0 {
                proof {
                    assert(out@.subrange(0, out0.len() as int) =~= out0);
                    assert(out@ =~= out0 + solve_out(node0, area));
                }
                return;
            }
            let axis = orientation.resolve(area);
            let total = match axis {
                Axis::Horizontal => area.width,
                Axis::Vertical => area.height,
            };
            proof {
                lemma_sums_fit(constraints_of(children@), total as int, children@.len() as int);
            }
            let sizes = partition(children.as_slice(), total);
            let mut pos = match axis {
                Axis::Horizontal => area.x,
                Axis::Vertical => area.y,
            };
            let ghost kids0 = children@;
            let n = children.len();
            proof {
                assert(axis == resolve_spec(o0, area).1);
                assert(out@ =~= out0 + split_parts(kids0, axis, area, sizes@, 0));
                assert(kids0 == c0);
                assert(total == main_len(axis, area));
                assert(solve_out(node0, area) == split_parts(kids0, axis, area, sizes@, n as int));
            }
            let mut i: usize = 0;
            while i < n
                invariant
                    out@ == out0 + split_parts(kids0, axis, area, sizes@, i as int),
                    forall|j: int|
                        0 <= j < i ==> solved_node(
                            kids0[j].1,
                            #[trigger] children@[j].1,
                            child_rect_spec(
                                axis,
                                area,
                                clamp16(main_start(axis, area) + sum16(sizes@.take(j))),
                                sizes@[j],
                            ),
                        ),
                    n == children@.len(),
                    n == kids0.len(),
                    n == sizes@.len(),
                    i <= n,
                    forall|j: int|
                        0 <= j < n ==> lays_out(
                            #[trigger] kids0[j].1,
                            child_rect_spec(axis, area, clamp16(main_start(axis, area) + sum16(sizes@.take(j))), sizes@[j]),
                        ),
                    total == (match axis {
                        Axis::Horizontal => area.width,
                        Axis::Vertical => area.height,
                    }),
                    sum16(sizes@) <= total,
                    pos == clamp16((match axis {
                        Axis::Horizontal => area.x,
                        Axis::Vertical => area.y,
                    }) + sum16(sizes@.take(i as int))),
                    forall|j: int| i <= j < n ==> #[trigger] children@[j] == kids0[j],
                    forall|j: int| 0 <= j < n ==> tree_ok(#[trigger] kids0[j].1),
                    forall|j: int| 0 <= j < i ==> tree_ok(#[trigger] children@[j].1),
                    forall|j: int| 0 <= j < n ==> (#[trigger] children@[j]).0 == kids0[j].0,
                    out@.len() >= out0.len(),
                    out@.subrange(0, out0.len() as int) == out0,
                    forall|k: int| out0.len() <= k < out@.len() ==> within(#[trigger] out@[k].1, area),
                    area.fits() ==> rects_apart(out@, out0.len() as int),
                    area.fits() ==> forall|k: int| out0.len() <= k < out@.len() ==> ends_by(#[trigger] out@[k].1, axis, pos as int),
                    decreases_to!(*old(node) => kids0),
                decreases n - i,
            {
                let size = sizes[i];
                proof {
                    assert(sizes@.take(i + 1).drop_last() =~= sizes@.take(i as int));
                    lemma_sum16_prefix(sizes@, i + 1);
                    assert(decreases_to!(kids0 => kids0[i as int]));
                    assert(decreases_to!(kids0[i as int] => kids0[i as int].1));
                }
                let child_area = child_rect(axis, area, pos, size);
                proof {
                    assert(sum16(sizes@.take(i + 1)) == sum16(sizes@.take(i as int)) + size);
                    lemma_sum16_nonneg(sizes@.take(i as int));
                    match axis {
                        Axis::Horizontal => {
                            assert(within(child_area, area));
                        },
                        Axis::Vertical => {
                            assert(within(child_area, area));
                        },
                    }
                }
                let ghost out1 = out@;
                let ghost kids1_split = children@;
                solve_into(&mut children[i].1, child_area, out);
                proof {
                    assert forall|k: int| out0.len() <= k < out@.len() implies within(#[trigger] out@[k].1, area) by {
                        if k < out1.len() {
                            assert(out@.subrange(0, out1.len() as int)[k] == out1[k]);
                        } else {
                            assert(within(out@[k].1, child_area));
                        }
                    }
                    assert(out@.subrange(0, out0.len() as int) =~= out1.subrange(0, out0.len() as int));
                    if area.fits() {
                        lemma_append_apart(out1, out@, out0.len() as int, axis, pos as int, child_area, pos + size);
                    }
                    assert(child_area == child_rect_spec(
                        axis,
                        area,
                        clamp16(main_start(axis, area) + sum16(sizes@.take(i as int))),
                        sizes@[i as int],
                    ));
                    assert(out@ =~= out0 + split_parts(kids0, axis, area, sizes@, i + 1));
                    assert forall|j: int| 0 <= j < i + 1 implies solved_node(
                        kids0[j].1,
                        #[trigger] children@[j].1,
                        child_rect_spec(
                            axis,
                            area,
                            clamp16(main_start(axis, area) + sum16(sizes@.take(j))),
                            sizes@[j],
                        ),
                    ) by {
                        if j < i {
                            assert(children@[j] == kids1_split[j]);
                        }
                    }
                }
                pos = pos.saturating_add(size);
                i = i + 1;
            }
            proof {
                assert forall|j: int| 0 <= j < children@.len() implies tree_ok(#[trigger] children@[j].1) by {}
                assert(constraints_of(children@) =~= constraints_of(kids0));
                assert(out@ == out0 + solve_out(node0, area));
                assert(*orientation == resolve_spec(o0, area).0);
            }
        },
        Node::Carousel { orientation, scroll, children, .. } => {
            let ghost o0 = *orientation;
            let ghost s0 = *scroll;
            let ghost c0 = children@;
            proof {
                assert(node0 matches Node::Carousel { orientation: oo, scroll: ss, children: cc, .. } && oo == o0
                    && ss == s0 && cc@ == c0);
            }
            if children.len() == 0 {
                proof {
                    assert(out@.subrange(0, out0.len() as int) =~= out0);
                    assert(out@ =~= out0 + solve_out(node0, area));
                }
                return;
            }
            let axis = orientation.resolve(area);
            let main_extent = match axis {
                Axis::Horizontal => area.width,
                Axis::Vertical => area.height,
            };
            let extents = extents_of(children);
            proof {
                assert(extents@ =~= children@.map_values(|c: (u16, Node)| c.0));
            }
            let (clamped, entries) = carousel_visible_entries(extents.as_slice(), *scroll, main_extent);
            *scroll = clamped;
            proof {
                lemma_visible_indices(extents@, extents@.len() as int, clamped as int, clamped + main_extent);
            }
            let origin = match axis {
                Axis::Horizontal => area.x,
                Axis::Vertical => area.y,
            };
            let ghost kids0 = children@;
            let n = children.len();
            let ne = entries.len();
            let mut e: usize = 0;
            let ghost mut mark: int = origin as int;
            proof {
                lemma_visible_ordered(extents@, clamped as int, clamped + main_extent);
                assert(extents@ =~= c0.map_values(|c: (u16, Node)| c.0));
                assert(kids0 == c0);
                assert(axis == resolve_spec(o0, area).1);
                assert(main_extent == main_len(axis, area));
                assert(origin == main_start(axis, area));
                assert(solve_out(node0, area) == carousel_parts(kids0, entries@, axis, area, clamped, main_extent, ne as int));
                assert(out@ =~= out0 + carousel_parts(kids0, entries@, axis, area, clamped, main_extent, 0));
            }
            while e < ne
                invariant
                    n == children@.len(),
                    n == kids0.len(),
                    n == extents@.len(),
                    e <= ne,
                    ne == entries@.len(),
                    forall|a: int|
                        0 <= a < ne && entries@[a].0 < n ==> main_start(axis, area) + (if (#[trigger] entries@[a]).1
                            > clamped as u32 {
                            entries@[a].1 as int
                        } else {
                            clamped as int
                        }) - clamped <= 0xffff && lays_out(
                            kids0[entries@[a].0 as int].1,
                            entry_rect(axis, area, entries@[a], clamped, main_extent),
                        ),
                    main_extent == (match axis {
                        Axis::Horizontal => area.width,
                        Axis::Vertical => area.height,
                    }),
                    origin == (match axis {
                        Axis::Horizontal => area.x,
                        Axis::Vertical => area.y,
                    }),
                    forall|j: int| 0 <= j < n ==> #[trigger] extents@[j] == kids0[j].0,
                    forall|a: int| 0 <= a < ne ==> (#[trigger] entries@[a]).0 < n,
                    forall|a: int, b: int| 0 <= a < b < ne ==> (#[trigger] entries@[a]).0 < (#[trigger] entries@[b]).0,
                    forall|a: int|
                        0 <= a < ne ==> {
                            let t = #[trigger] entries@[a];
                            &&& t.1 + t.2 > clamped
                            &&& t.1 < clamped + main_extent
                        },
                    forall|j: int| (e < ne && j >= entries@[e as int].0) && j < n ==> #[trigger] children@[j] == kids0[j],
                    forall|j: int| 0 <= j < n ==> tree_ok(#[trigger] kids0[j].1),
                    forall|j: int| 0 <= j < n ==> tree_ok(#[trigger] children@[j].1),
                    forall|j: int| 0 <= j < n ==> (#[trigger] children@[j]).0 == kids0[j].0,
                    out@.len() >= out0.len(),
                    out@.subrange(0, out0.len() as int) == out0,
                    forall|k: int| out0.len() <= k < out@.len() ==> within(#[trigger] out@[k].1, area),
                    forall|a: int, b: int|
                        0 <= a < b < ne ==> (#[trigger] entries@[a]).1 + entries@[a].2 <= (#[trigger] entries@[b]).1,
                    area.fits() ==> rects_apart(out@, out0.len() as int),
                    area.fits() ==> forall|k: int| out0.len() <= k < out@.len() ==> ends_by(#[trigger] out@[k].1, axis, mark),
                    out@ == out0 + carousel_parts(kids0, entries@, axis, area, clamped, main_extent, e as int),
                    forall|j: int|
                        0 <= j < n && (forall|a: int| 0 <= a < e ==> entries@[a].0 != j) ==> #[trigger] children@[j]
                            == kids0[j],
                    forall|a: int|
                        0 <= a < e ==> solved_node(
                            kids0[(#[trigger] entries@[a]).0 as int].1,
                            children@[entries@[a].0 as int].1,
                            entry_rect(axis, area, entries@[a], clamped, main_extent),
                        ),
                    e < ne ==> mark <= origin + (if entries@[e as int].1 > clamped {
                        entries@[e as int].1 as int
                    } else {
                        clamped as int
                    }) - clamped,
                    decreases_to!(*old(node) => kids0),
                decreases ne - e,
            {
                let (child_idx, v_start, ext) = entries[e];
                let vis_start = if v_start > clamped as u32 {
                    v_start
                } else {
                    clamped as u32
                };
                let v_end = v_start + ext as u32;
                let vp_end = clamped as u32 + main_extent as u32;
                let vis_end = if v_end < vp_end {
                    v_end
                } else {
                    vp_end
                };
                let vis_len = (vis_end - vis_start) as u16;
                let screen_start = origin + (vis_start - clamped as u32) as u16;
                let child_area = child_rect(axis, area, screen_start, vis_len);
                proof {
                    assert(decreases_to!(kids0 => kids0[child_idx as int]));
                    assert(decreases_to!(kids0[child_idx as int] => kids0[child_idx as int].1));
                    assert(children@[child_idx as int] == kids0[child_idx as int]);
                }
                let ghost out1 = out@;
                let ghost kids1 = children@;
                solve_into(&mut children[child_idx].1, child_area, out);
                proof {
                    assert forall|k: int| out0.len() <= k < out@.len() implies within(#[trigger] out@[k].1, area) by {
                        if k < out1.len() {
                            assert(out@.subrange(0, out1.len() as int)[k] == out1[k]);
                        }
                    }
                    assert(out@.subrange(0, out0.len() as int) =~= out1.subrange(0, out0.len() as int));
                    assert forall|j: int| (e + 1 < ne && j >= entries@[e + 1].0) && j < n implies #[trigger] children@[j] == kids0[j] by {
                        assert(entries@[e as int].0 < entries@[e + 1].0);
                        assert(children@[j] == kids1[j]);
                    }
                    assert forall|j: int| 0 <= j < n implies tree_ok(#[trigger] children@[j].1) by {
                        if j != child_idx {
                            assert(children@[j] == kids1[j]);
                        }
                    }
                    let mark2 = origin + (vis_end - clamped);
                    if area.fits() {
                        lemma_append_apart(out1, out@, out0.len() as int, axis, mark, child_area, mark2);
                    }
                    if e + 1 < ne {
                        assert(entries@[e as int].1 + entries@[e as int].2 <= entries@[e + 1].1);
                    }
                    mark = mark2;
                    assert(child_area == entry_rect(axis, area, entries@[e as int], clamped, main_extent));
                    assert(out@ =~= out0 + carousel_parts(kids0, entries@, axis, area, clamped, main_extent, e + 1));
                    assert forall|j: int|
                        0 <= j < n && (forall|a: int| 0 <= a < e + 1 ==> entries@[a].0 != j) implies #[trigger] children@[j]
                            == kids0[j] by {
                        assert(entries@[e as int].0 != j);
                        assert(children@[j] == kids1[j]);
                    }
                    assert forall|a: int| 0 <= a < e + 1 implies solved_node(
                        kids0[(#[trigger] entries@[a]).0 as int].1,
                        children@[entries@[a].0 as int].1,
                        entry_rect(axis, area, entries@[a], clamped, main_extent),
                    ) by {
                        if a < e {
                            assert(entries@[a].0 < entries@[e as int].0);
                            assert(children@[entries@[a].0 as int] == kids1[entries@[a].0 as int]);
                        }
                    }
                }
                e = e + 1;
            }
            proof {
                assert(out@ == out0 + solve_out(node0, area));
                assert(children@.map_values(|c: (u16, Node)| c.0) =~= kids0.map_values(|c: (u16, Node)| c.0));
            }
        },
    }
}

/// Solve the layout tree rooted at `node` within `area`: one `(id, rect)` per
/// visible leaf tile, in depth-first order, every rect inside `area`.  Split
/// children are placed at saturating positions, so an area past the `u16` edge is
/// laid out too; when the area fits, no two rects overlap.
pub fn solve(node: &mut Node, area: Rect) -> (out: Vec<(TileId, Rect)>)
    requires
        tree_ok(*old(node)),
        lays_out(*old(node), area),
    ensures
        tree_ok(*final(node)),
        forall|k: int| 0 <= k < out@.len() ==> within(#[trigger] out@[k].1, area),
        area.fits() ==> rects_apart(out@, 0),
        out@ == solve_out(*old(node), area),
        solved_node(*old(node), *final(node), area),
{
    let mut out: Vec<(TileId, Rect)> = Vec::new();
    solve_into(node, area, &mut out);
    proof {
        assert(out@ =~= solve_out(*old(node), area));
    }
    out
}

} // verus!

verus! {

/// The rect the node `id` is given when `node` is laid out in `area`, descending as
/// [`solve_into`] does: a tile's rect, or a carousel's whole viewport; `None` when
/// `id` is absent or scrolled out of view.  A rect found lies inside `area`.
#[verifier::rlimit(80)]
fn region_of_impl(node: &mut Node, area: Rect, id: TileId) -> (r: Option<Rect>)
    requires
        tree_ok(*old(node)),
        lays_out(*old(node), area),
    ensures
        tree_ok(*final(node)),
        r matches Some(rect) ==> within(rect, area),
        *old(node) matches Node::Tile(t) ==> r == (if t == id { Some(area) } else { None::<Rect> }),
        *old(node) matches Node::Carousel { id: cid, .. } && cid == id ==> r == Some(area),
        r == region_spec(*old(node), area, id),
    decreases *old(node),
{
    let ghost node0 = *node;
    match node {
        Node::Tile(tid) => {
            if *tid == id {
                Some(area)
            } else {
                None
            }
        },
        Node::Split { orientation, children } => {
            let ghost o0 = *orientation;
            let ghost c0 = children@;
            proof {
                assert(node0 == Node::Split { orientation: o0, children: *children });
            }
            if children.len() == 0 {
                return None;
            }
            let axis = orientation.resolve(area);
            let total = match axis {
                Axis::Horizontal => area.width,
                Axis::Vertical => area.height,
            };
            proof {
                lemma_sums_fit(constraints_of(children@), total as int, children@.len() as int);
            }
            let sizes = partition(children.as_slice(), total);
            let mut pos = match axis {
                Axis::Horizontal => area.x,
                Axis::Vertical => area.y,
            };
            let ghost kids0 = children@;
            let n = children.len();
            let mut i: usize = 0;
            let mut result: Option<Rect> = None;
            proof {
                assert(kids0 == c0);
                assert(axis == resolve_spec(o0, area).1);
                assert(total == main_len(axis, area));
                assert(region_spec(node0, area, id) == split_region(kids0, axis, area, sizes@, id, n as int));
            }
            while i < n && result.is_none()
                invariant
                    result == split_region(kids0, axis, area, sizes@, id, i as int),
                    result is Some ==> split_region(kids0, axis, area, sizes@, id, n as int) == result,
                    result matches Some(rect) ==> within(rect, area),
                    n == children@.len(),
                    n == kids0.len(),
                    n == sizes@.len(),
                    i <= n,
                    forall|j: int|
                        0 <= j < n ==> lays_out(
                            #[trigger] kids0[j].1,
                            child_rect_spec(axis, area, clamp16(main_start(axis, area) + sum16(sizes@.take(j))), sizes@[j]),
                        ),
                    total == (match axis {
                        Axis::Horizontal => area.width,
                        Axis::Vertical => area.height,
                    }),
                    sum16(sizes@) <= total,
                    pos == clamp16((match axis {
                        Axis::Horizontal => area.x,
                        Axis::Vertical => area.y,
                    }) + sum16(sizes@.take(i as int))),
                    forall|j: int| i <= j < n ==> #[trigger] children@[j] == kids0[j],
                    forall|j: int| 0 <= j < n ==> tree_ok(#[trigger] kids0[j].1),
                    forall|j: int| 0 <= j < i ==> tree_ok(#[trigger] children@[j].1),
                    forall|j: int| 0 <= j < n ==> (#[trigger] children@[j]).0 == kids0[j].0,
                    decreases_to!(*old(node) => kids0),
                    *old(node) is Split,
                decreases n - i,
            {
                let size = sizes[i];
                proof {
                    assert(sizes@.take(i + 1).drop_last() =~= sizes@.take(i as int));
                    lemma_sum16_prefix(sizes@, i + 1);
                    assert(decreases_to!(kids0 => kids0[i as int]));
                    assert(decreases_to!(kids0[i as int] => kids0[i as int].1));
                }
                let child_area = child_rect(axis, area, pos, size);
                proof {
                    assert(sum16(sizes@.take(i + 1)) == sum16(sizes@.take(i as int)) + size);
                    lemma_sum16_nonneg(sizes@.take(i as int));
                    match axis {
                        Axis::Horizontal => {
                            assert(within(child_area, area));
                        },
                        Axis::Vertical => {
                            assert(within(child_area, area));
                        },
                    }
                }
                let found = region_of_impl(&mut children[i].1, child_area, id);
                proof {
                    if let Some(rect) = found {
                        assert(within(rect, area));
                    }
                    assert(split_region(kids0, axis, area, sizes@, id, i + 1) == found);
                    if found is Some {
                        lemma_split_region_stays(kids0, axis, area, sizes@, id, i + 1, n as int);
                    }
                }
                result = found;
                pos = pos.saturating_add(size);
                i = i + 1;
            }
            proof {
                assert forall|j: int| 0 <= j < children@.len() implies tree_ok(#[trigger] children@[j].1) by {
                    if j >= i {
                        assert(children@[j] == kids0[j]);
                    }
                }
                assert(constraints_of(children@) =~= constraints_of(kids0));
            }
            result
        },
        Node::Carousel { id: carousel_id, orientation, scroll, children } => {
            let ghost o0 = *orientation;
            let ghost s0 = *scroll;
            let ghost c0 = children@;
            proof {
                assert(node0 == Node::Carousel { id: *carousel_id, orientation: o0, scroll: s0, children: *children });
            }
            if *carousel_id == id {
                return Some(area);
            }
            if children.len() == 0 {
                return None;
            }
            let axis = orientation.resolve(area);
            let main_extent = match axis {
                Axis::Horizontal => area.width,
                Axis::Vertical => area.height,
            };
            let extents = extents_of(children);
            proof {
                assert(extents@ =~= children@.map_values(|c: (u16, Node)| c.0));
            }
            let (clamped, entries) = carousel_visible_entries(extents.as_slice(), *scroll, main_extent);
            *scroll = clamped;
            proof {
                lemma_visible_indices(extents@, extents@.len() as int, clamped as int, clamped + main_extent);
            }
            let origin = match axis {
                Axis::Horizontal => area.x,
                Axis::Vertical => area.y,
            };
            let ghost kids0 = children@;
            let n = children.len();
            let ne = entries.len();
            let mut e: usize = 0;
            let mut result: Option<Rect> = None;
            proof {
                assert(extents@ =~= c0.map_values(|c: (u16, Node)| c.0));
                assert(kids0 == c0);
                assert(axis == resolve_spec(o0, area).1);
                assert(main_extent == main_len(axis, area));
                assert(origin == main_start(axis, area));
                assert(region_spec(node0, area, id) == carousel_region(kids0, entries@, axis, area, clamped, main_extent, id, ne as int));
            }
            while e < ne && result.is_none()
                invariant
                    result == carousel_region(kids0, entries@, axis, area, clamped, main_extent, id, e as int),
                    result is Some ==> carousel_region(kids0, entries@, axis, area, clamped, main_extent, id, ne as int) == result,
                    result matches Some(rect) ==> within(rect, area),
                    n == children@.len(),
                    n == kids0.len(),
                    n == extents@.len(),
                    e <= ne,
                    ne == entries@.len(),
                    forall|a: int|
                        0 <= a < ne && entries@[a].0 < n ==> main_start(axis, area) + (if (#[trigger] entries@[a]).1
                            > clamped as u32 {
                            entries@[a].1 as int
                        } else {
                            clamped as int
                        }) - clamped <= 0xffff && lays_out(
                            kids0[entries@[a].0 as int].1,
                            entry_rect(axis, area, entries@[a], clamped, main_extent),
                        ),
                    main_extent == (match axis {
                        Axis::Horizontal => area.width,
                        Axis::Vertical => area.height,
                    }),
                    origin == (match axis {
                        Axis::Horizontal => area.x,
                        Axis::Vertical => area.y,
                    }),
                    forall|j: int| 0 <= j < n ==> #[trigger] extents@[j] == kids0[j].0,
                    forall|a: int| 0 <= a < ne ==> (#[trigger] entries@[a]).0 < n,
                    forall|a: int, b: int| 0 <= a < b < ne ==> (#[trigger] entries@[a]).0 < (#[trigger] entries@[b]).0,
                    forall|a: int|
                        0 <= a < ne ==> {
                            let t = #[trigger] entries@[a];
                            &&& t.1 + t.2 > clamped
                            &&& t.1 < clamped + main_extent
                        },
                    forall|j: int| (e < ne && j >= entries@[e as int].0) && j < n ==> #[trigger] children@[j] == kids0[j],
                    forall|j: int| 0 <= j < n ==> tree_ok(#[trigger] kids0[j].1),
                    forall|j: int| 0 <= j < n ==> tree_ok(#[trigger] children@[j].1),
                    forall|j: int| 0 <= j < n ==> (#[trigger] children@[j]).0 == kids0[j].0,
                    decreases_to!(*old(node) => kids0),
                    *old(node) matches Node::Carousel { id: cid, .. } && cid != id,
                decreases ne - e,
            {
                let (child_idx, v_start, ext) = entries[e];
                let vis_start = if v_start > clamped as u32 {
                    v_start
                } else {
                    clamped as u32
                };
                let v_end = v_start + ext as u32;
                let vp_end = clamped as u32 + main_extent as u32;
                let vis_end = if v_end < vp_end {
                    v_end
                } else {
                    vp_end
                };
                let vis_len = (vis_end - vis_start) as u16;
                let screen_start = origin + (vis_start - clamped as u32) as u16;
                let child_area = child_rect(axis, area, screen_start, vis_len);
                proof {
                    assert(decreases_to!(kids0 => kids0[child_idx as int]));
                    assert(decreases_to!(kids0[child_idx as int] => kids0[child_idx as int].1));
                    assert(children@[child_idx as int] == kids0[child_idx as int]);
                }
                let ghost kids1 = children@;
                let found = region_of_impl(&mut children[child_idx].1, child_area, id);
                proof {
                    assert forall|j: int| (e + 1 < ne && j >= entries@[e + 1].0) && j < n implies #[trigger] children@[j] == kids0[j] by {
                        assert(entries@[e as int].0 < entries@[e + 1].0);
                        assert(children@[j] == kids1[j]);
                    }
                    assert forall|j: int| 0 <= j < n implies tree_ok(#[trigger] children@[j].1) by {
                        if j != child_idx {
                            assert(children@[j] == kids1[j]);
                        }
                    }
                }
                proof {
                    if let Some(rect) = found {
                        assert(within(rect, child_area));
                    }
                    assert(child_area == entry_rect(axis, area, entries@[e as int], clamped, main_extent));
                    assert(carousel_region(kids0, entries@, axis, area, clamped, main_extent, id, e + 1) == found);
                    if found is Some {
                        lemma_carousel_region_stays(kids0, entries@, axis, area, clamped, main_extent, id, e + 1, ne as int);
                    }
                }
                result = found;
                e = e + 1;
            }
            proof {
                assert(children@.map_values(|c: (u16, Node)| c.0) =~= kids0.map_values(|c: (u16, Node)| c.0));
            }
            result
        },
    }
}

/// The rect allotted to the node `id` when `root` is laid out in `area` (see
/// [`region_of_impl`]).
pub fn region_of(root: &mut Node, area: Rect, id: TileId) -> (r: Option<Rect>)
    requires
        tree_ok(*old(root)),
        lays_out(*old(root), area),
    ensures
        tree_ok(*final(root)),
        r matches Some(rect) ==> within(rect, area),
        *old(root) matches Node::Tile(t) ==> r == (if t == id { Some(area) } else { None::<Rect> }),
        *old(root) matches Node::Carousel { id: cid, .. } && cid == id ==> r == Some(area),
        r == region_spec(*old(root), area, id),
{
    region_of_impl(root, area, id)
}


} // verus!

verus! {

/// `b` is a copy of `a`: the same shape, with the same ids, orientations, scroll
/// offsets, constraints and extents throughout.
pub open spec fn same_tree(a: Node, b: Node) -> bool
    decreases a,
{
    match a {
        Node::Tile(x) => b matches Node::Tile(y) && x == y,
        Node::Split { orientation, children } => match b {
            Node::Split { orientation: o2, children: c2 } => {
                &&& orientation == o2
                &&& children@.len() == c2@.len()
                &&& forall|i: int|
                    0 <= i < children@.len() ==> (#[trigger] children@[i]).0 == c2@[i].0 && same_tree(
                        children@[i].1,
                        c2@[i].1,
                    )
            },
            _ => false,
        },
        Node::Carousel { id, orientation, scroll, children } => match b {
            Node::Carousel { id: id2, orientation: o2, scroll: s2, children: c2 } => {
                &&& id == id2
                &&& orientation == o2
                &&& scroll == s2
                &&& children@.len() == c2@.len()
                &&& forall|i: int|
                    0 <= i < children@.len() ==> (#[trigger] children@[i]).0 == c2@[i].0 && same_tree(
                        children@[i].1,
                        c2@[i].1,
                    )
            },
            _ => false,
        },
    }
}

impl Node {
    /// A deep copy of the tree.
    fn duplicate(&self) -> (r: Node)
        ensures
            same_tree(*self, r),
        decreases self,
    {
        match self {
            Node::Tile(id) => Node::Tile(*id),
            Node::Split { orientation, children } => {
                let mut kids: Vec<(Constraint, Node)> = Vec::new();
                let mut i: usize = 0;
                proof {
                    assert(decreases_to!(*self => children@));
                }
                while i < children.len()
                    invariant
                        i <= children@.len(),
                        decreases_to!(*self => children@),
                        kids@.len() == i,
                        forall|j: int|
                            0 <= j < i ==> (#[trigger] children@[j]).0 == kids@[j].0 && same_tree(
                                children@[j].1,
                                kids@[j].1,
                            ),
                    decreases children@.len() - i,
                {
                    proof {
                        assert(decreases_to!(children@ => children@[i as int]));
                        assert(decreases_to!(children@[i as int] => children@[i as int].1));
                    }
                    let c = children[i].0;
                    let n = children[i].1.duplicate();
                    kids.push((c, n));
                    i = i + 1;
                }
                Node::Split { orientation: *orientation, children: kids }
            },
            Node::Carousel { id, orientation, scroll, children } => {
                let mut kids: Vec<(u16, Node)> = Vec::new();
                let mut i: usize = 0;
                proof {
                    assert(decreases_to!(*self => children@));
                }
                while i < children.len()
                    invariant
                        i <= children@.len(),
                        decreases_to!(*self => children@),
                        kids@.len() == i,
                        forall|j: int|
                            0 <= j < i ==> (#[trigger] children@[j]).0 == kids@[j].0 && same_tree(
                                children@[j].1,
                                kids@[j].1,
                            ),
                    decreases children@.len() - i,
                {
                    proof {
                        assert(decreases_to!(children@ => children@[i as int]));
                        assert(decreases_to!(children@[i as int] => children@[i as int].1));
                    }
                    let e = children[i].0;
                    let n = children[i].1.duplicate();
                    kids.push((e, n));
                    i = i + 1;
                }
                Node::Carousel { id: *id, orientation: *orientation, scroll: *scroll, children: kids }
            },
        }
    }
}

impl Clone for Node {
    fn clone(&self) -> (r: Self) {
        self.duplicate()
    }
}

} // verus!
