use vstd::prelude::*;

use crate::geometry::{max16, min16, sat_add, sat_sub, zero_rect, Rect};
use crate::sorting::{pairs_sorted, sort_pairs};

verus! {

broadcast use vstd::seq_lib::group_to_multiset_ensures;

/// A floating child's placement, relative to its parent's origin.
#[derive(Debug, Clone, Copy, PartialEq, Eq, Structural, Hash)]
pub struct FloatRect {
    pub x: u16,
    pub y: u16,
    pub width: u16,
    pub height: u16,
}

impl FloatRect {
    pub fn new(x: u16, y: u16, width: u16, height: u16) -> (r: Self)
        ensures
            r == (FloatRect { x, y, width, height }),
    {
        FloatRect { x, y, width, height }
    }
}

/// A tile floating over its parent at a parent-relative placement.
#[derive(Debug, Clone, Copy, PartialEq, Eq, Structural, Hash)]
pub struct FloatChild {
    pub id: u64,
    pub place: FloatRect,
}

impl FloatChild {
    pub fn new(id: u64, place: FloatRect) -> (c: Self)
        ensures
            c == (FloatChild { id, place }),
    {
        FloatChild { id, place }
    }
}

/// A layer of floating children, drawn over a parent tile.
#[derive(Debug, Clone, PartialEq, Eq)]
pub struct FloatLayer {
    pub children: Vec<FloatChild>,
}

/// A child's absolute rect: its placement offset by the parent's origin (saturating),
/// clipped to the parent.
pub open spec fn float_abs(parent: Rect, place: FloatRect) -> Rect {
    Rect {
        x: sat_add(parent.x, place.x),
        y: sat_add(parent.y, place.y),
        width: place.width,
        height: place.height,
    }.intersection_spec(parent)
}

impl FloatLayer {
    /// An empty layer.
    pub fn new() -> (l: Self)
        ensures
            l.children@.len() == 0,
    {
        FloatLayer { children: Vec::new() }
    }

    /// The layer with `child` appended.
    pub fn with_child(self, child: FloatChild) -> (l: Self)
        ensures
            l.children@ == self.children@.push(child),
    {
        let mut s = self;
        s.children.push(child);
        s
    }

    /// Each child's absolute rect, clipped to `parent`, in child order.
    pub fn solve(&self, parent: Rect) -> (out: Vec<(u64, Rect)>)
        ensures
            out@.len() == self.children@.len(),
            forall|i: int|
                0 <= i < out@.len() ==> out@[i] == (
                    self.children@[i].id,
                    float_abs(parent, self.children@[i].place),
                ),
    {
        let mut out: Vec<(u64, Rect)> = Vec::new();
        let mut i: usize = 0;
        while i < self.children.len()
            invariant
                0 <= i <= self.children@.len(),
                out@.len() == i,
                forall|k: int|
                    0 <= k < i ==> out@[k] == (
                        self.children@[k].id,
                        float_abs(parent, self.children@[k].place),
                    ),
            decreases self.children@.len() - i,
        {
            let c = self.children[i];
            let abs = Rect::new(
                parent.x.saturating_add(c.place.x),
                parent.y.saturating_add(c.place.y),
                c.place.width,
                c.place.height,
            );
            out.push((c.id, abs.intersection(parent)));
            i = i + 1;
        }
        out
    }
}

/// A free horizontal run `[start, end)` on one row.
#[derive(Debug, Clone, Copy, PartialEq, Eq, Structural, Hash)]
pub struct FreeInterval {
    pub row: u16,
    pub start: u16,
    pub end: u16,
}

impl FreeInterval {
    /// Number of columns in the run.
    pub fn width(self) -> (w: u16)
        requires
            self.start <= self.end,
        ensures
            w == self.end - self.start,
    {
        self.end - self.start
    }
}

/// `r` grown by `gutter` on every side (saturating) and clamped to `bounds`; the
/// empty rect at the origin when nothing is left.
pub open spec fn inflate_spec(r: Rect, gutter: u16, bounds: Rect) -> Rect {
    let x0 = max16(sat_sub(r.x, gutter), bounds.x);
    let y0 = max16(sat_sub(r.y, gutter), bounds.y);
    let x1 = min16(sat_add(r.right_spec(), gutter), bounds.right_spec());
    let y1 = min16(sat_add(r.bottom_spec(), gutter), bounds.bottom_spec());
    if x1 <= x0 || y1 <= y0 {
        zero_rect()
    } else {
        Rect { x: x0, y: y0, width: (x1 - x0) as u16, height: (y1 - y0) as u16 }
    }
}

fn inflate_clamped(r: Rect, gutter: u16, bounds: Rect) -> (o: Rect)
    ensures
        o == inflate_spec(r, gutter, bounds),
{
    let a = r.x.saturating_sub(gutter);
    let x0 = if a >= bounds.x {
        a
    } else {
        bounds.x
    };
    let b = r.y.saturating_sub(gutter);
    let y0 = if b >= bounds.y {
        b
    } else {
        bounds.y
    };
    let c = r.right().saturating_add(gutter);
    let br = bounds.right();
    let x1 = if c <= br {
        c
    } else {
        br
    };
    let d = r.bottom().saturating_add(gutter);
    let bb = bounds.bottom();
    let y1 = if d <= bb {
        d
    } else {
        bb
    };
    if x1 <= x0 || y1 <= y0 {
        Rect::default()
    } else {
        Rect::new(x0, y0, x1 - x0, y1 - y0)
    }
}

/// Column `c` lies in the half-open span `p`.
pub open spec fn span_covers(p: (u16, u16), c: int) -> bool {
    p.0 <= c < p.1
}

/// Column `c` lies in one of the spans.
pub open spec fn covered_by(blocked: Seq<(u16, u16)>, c: int) -> bool {
    exists|p: (u16, u16)| #[trigger] blocked.contains(p) && span_covers(p, c)
}

/// `out` is the sorted list of maximal free runs of `[lo, hi)` around the blocked
/// spans: each run is non-empty, inside `[lo, hi)` and free; runs are in order and
/// separated; every free column is in a run; and each run starts at `lo` or right
/// after a blocked column, and ends at `hi` or at a blocked column.
pub open spec fn free_runs(lo: int, hi: int, blocked: Seq<(u16, u16)>, out: Seq<(u16, u16)>) -> bool {
    &&& forall|k: int| 0 <= k < out.len() ==> lo <= #[trigger] out[k].0 < out[k].1 <= hi
    &&& forall|k: int| 0 <= k < out.len() - 1 ==> #[trigger] out[k].1 < out[k + 1].0
    &&& forall|k: int, c: int|
        0 <= k < out.len() && #[trigger] span_covers(out[k], c) ==> !covered_by(blocked, c)
    &&& forall|c: int|
        lo <= c < hi && !covered_by(blocked, c) ==> exists|k: int|
            0 <= k < out.len() && #[trigger] span_covers(out[k], c)
    &&& forall|k: int|
        0 <= k < out.len() ==> #[trigger] out[k].0 == lo || covered_by(blocked, out[k].0 - 1)
    &&& forall|k: int|
        0 <= k < out.len() ==> #[trigger] out[k].1 == hi || covered_by(blocked, out[k].1 as int)
}

/// The free runs of `[lo, hi)` around the `blocked` spans (which are sorted in place).
fn row_complement(lo: u16, hi: u16, blocked: &mut [(u16, u16)]) -> (out: Vec<(u16, u16)>)
    requires
        lo <= hi,
    ensures
        final(blocked)@.to_multiset() == old(blocked)@.to_multiset(),
        final(blocked)@.len() == old(blocked)@.len(),
        free_runs(lo as int, hi as int, old(blocked)@, out@),
{
    sort_pairs(blocked);
    let ghost s = blocked@;
    proof {
        assert forall|p: (u16, u16)| s.contains(p) == old(blocked)@.contains(p) by {
            vstd::seq_lib::to_multiset_contains(s, p);
            vstd::seq_lib::to_multiset_contains(old(blocked)@, p);
        }
    }
    let mut out: Vec<(u16, u16)> = Vec::new();
    let mut cursor = lo;
    let n = blocked.len();
    let mut i: usize = 0;
    while i < n
        invariant
            blocked@ == s,
            n == s.len(),
            pairs_sorted(s),
            0 <= i <= n,
            lo <= cursor <= hi,
            forall|k: int| 0 <= k < out@.len() ==> lo <= #[trigger] out@[k].0 < out@[k].1 <= cursor,
            forall|k: int| 0 <= k < out@.len() - 1 ==> #[trigger] out@[k].1 < out@[k + 1].0,
            out@.len() > 0 ==> out@[out@.len() - 1].1 < cursor,
            forall|k: int, c: int|
                0 <= k < out@.len() && #[trigger] span_covers(out@[k], c) ==> !covered_by(s, c),
            forall|c: int|
                lo <= c < cursor && !covered_by(s, c) ==> exists|k: int|
                    0 <= k < out@.len() && #[trigger] span_covers(out@[k], c),
            forall|k: int|
                0 <= k < out@.len() ==> #[trigger] out@[k].0 == lo || covered_by(s, out@[k].0 - 1),
            forall|k: int| 0 <= k < out@.len() ==> covered_by(s, #[trigger] out@[k].1 as int),
            cursor == lo || covered_by(s, cursor - 1),
            forall|j: int, c: int|
                0 <= j < i && cursor <= c < hi ==> !#[trigger] span_covers(s[j], c),
        decreases n - i,
    {
        let (ra, rb) = blocked[i];
        let a = if ra >= lo {
            ra
        } else {
            lo
        };
        let b = if rb <= hi {
            rb
        } else {
            hi
        };
        let ghost old_out = out@;
        let ghost old_cursor = cursor;
        proof {
            assert(s.contains(s[i as int]));
        }
        if b <= a {
        } else {
            if a > cursor {
                proof {
                    assert forall|c: int| cursor <= c < a implies !covered_by(s, c) by {
                        if covered_by(s, c) {
                            let p = choose|p: (u16, u16)| #[trigger]
                                s.contains(p) && span_covers(p, c);
                            let j = choose|j: int| 0 <= j < s.len() && s[j] == p;
                            if j < i {
                                assert(!span_covers(s[j], c));
                            } else {
                                if j != i {
                                    assert(crate::sorting::pair_le(s[i as int], s[j]));
                                }
                            }
                        }
                    }
                }
                out.push((cursor, a));
                proof {
                    let k = out@.len() - 1;
                    assert(span_covers(s[i as int], a as int));
                    assert forall|c: int| lo <= c < b && !covered_by(s, c) implies exists|k: int|
                        0 <= k < out@.len() && #[trigger] span_covers(out@[k], c) by {
                        if c < old_cursor {
                            let k0 = choose|k0: int|
                                0 <= k0 < old_out.len() && #[trigger] span_covers(old_out[k0], c);
                            assert(out@[k0] == old_out[k0]);
                        } else if c < a {
                            assert(span_covers(out@[k], c));
                        } else {
                            assert(span_covers(s[i as int], c));
                        }
                    }
                    assert forall|k2: int, c: int|
                        0 <= k2 < out@.len() && #[trigger] span_covers(out@[k2], c) implies !covered_by(
                        s,
                        c,
                    ) by {
                        if k2 < old_out.len() {
                            assert(out@[k2] == old_out[k2]);
                        }
                    }
                }
                cursor = b;
                proof {
                    assert(span_covers(s[i as int], b - 1));
                }
            } else {
                if b > cursor {
                    proof {
                        assert forall|c: int| lo <= c < b && !covered_by(s, c) implies exists|k: int|
                            0 <= k < out@.len() && #[trigger] span_covers(out@[k], c) by {
                            if c >= cursor {
                                assert(span_covers(s[i as int], c));
                            }
                        }
                        assert(span_covers(s[i as int], b - 1));
                    }
                    cursor = b;
                }
            }
        }
        i = i + 1;
    }
    let ghost mid_out = out@;
    if cursor < hi {
        proof {
            assert forall|c: int| cursor <= c < hi implies !covered_by(s, c) by {
                if covered_by(s, c) {
                    let p = choose|p: (u16, u16)| #[trigger] s.contains(p) && span_covers(p, c);
                    let j = choose|j: int| 0 <= j < s.len() && s[j] == p;
                    assert(!span_covers(s[j], c));
                }
            }
        }
        out.push((cursor, hi));
        proof {
            let k = out@.len() - 1;
            assert forall|c: int| lo <= c < hi && !covered_by(s, c) implies exists|k: int|
                0 <= k < out@.len() && #[trigger] span_covers(out@[k], c) by {
                if c < cursor {
                    let k0 = choose|k0: int|
                        0 <= k0 < mid_out.len() && #[trigger] span_covers(mid_out[k0], c);
                    assert(out@[k0] == mid_out[k0]);
                } else {
                    assert(span_covers(out@[k], c));
                }
            }
            assert forall|k2: int, c: int|
                0 <= k2 < out@.len() && #[trigger] span_covers(out@[k2], c) implies !covered_by(
                s,
                c,
            ) by {
                if k2 < mid_out.len() {
                    assert(out@[k2] == mid_out[k2]);
                }
            }
        }
    }
    assert(free_runs(lo as int, hi as int, s, out@));
    proof {
        assert forall|c: int| covered_by(s, c) == covered_by(old(blocked)@, c) by {
            if covered_by(s, c) {
                let p = choose|p: (u16, u16)| #[trigger] s.contains(p) && span_covers(p, c);
                assert(old(blocked)@.contains(p));
            }
            if covered_by(old(blocked)@, c) {
                let p = choose|p: (u16, u16)| #[trigger] old(blocked)@.contains(p) && span_covers(
                    p,
                    c,
                );
                assert(s.contains(p));
            }
        }
        assert forall|c: int|
            lo <= c < hi && !covered_by(old(blocked)@, c) implies exists|k: int|
                0 <= k < out@.len() && #[trigger] span_covers(out@[k], c) by {
            assert(covered_by(s, c) == covered_by(old(blocked)@, c));
        }
    }
    out
}


/// Cell `(c, row)` lies under one of the children grown by `gutter` and clamped to
/// `parent`.
pub open spec fn blocked_at(parent: Rect, children: Seq<Rect>, gutter: u16, row: int, c: int) -> bool {
    exists|i: int|
        0 <= i < children.len() && #[trigger] inflate_spec(children[i], gutter, parent).contains_spec(
            c,
            row,
        )
}

/// Cell `(c, row)` lies in one of the rects.
pub open spec fn rects_hit(rs: Seq<Rect>, row: int, c: int) -> bool {
    exists|j: int| 0 <= j < rs.len() && #[trigger] rs[j].contains_spec(c, row)
}

/// Cell `(c, row)` lies under one of the first `n` grown children.
pub open spec fn children_hit(parent: Rect, children: Seq<Rect>, gutter: u16, n: int, row: int, c: int) -> bool {
    exists|m: int|
        0 <= m < n && #[trigger] inflate_spec(children[m], gutter, parent).contains_spec(c, row)
}

/// The rows a scan over `rows` visits inside `parent`: `[max(start, parent.y),
/// min(end, parent.bottom))`.
pub open spec fn scan_first(parent: Rect, rows: std::ops::Range<u16>) -> u16 {
    max16(rows.start, parent.y)
}

pub open spec fn scan_last(parent: Rect, rows: std::ops::Range<u16>) -> u16 {
    min16(rows.end, parent.bottom_spec())
}

/// Column `c` lies in the run.
pub open spec fn iv_covers(iv: FreeInterval, c: int) -> bool {
    iv.start <= c < iv.end
}

/// `out` lists, row by row and left to right, the maximal runs of `[lo, hi)` free of
/// obstacles on each row of `[first, last)`.
pub open spec fn free_rows(
    parent: Rect,
    children: Seq<Rect>,
    gutter: u16,
    first: int,
    last: int,
    out: Seq<FreeInterval>,
) -> bool {
    let lo = parent.x as int;
    let hi = parent.right_spec() as int;
    &&& forall|k: int|
        0 <= k < out.len() ==> first <= #[trigger] out[k].row < last && lo <= out[k].start
            < out[k].end <= hi
    &&& forall|k: int|
        0 <= k < out.len() - 1 ==> (#[trigger] out[k].row < out[k + 1].row || (out[k].row
            == out[k + 1].row && out[k].end < out[k + 1].start))
    &&& forall|k: int, c: int|
        0 <= k < out.len() && #[trigger] iv_covers(out[k], c) ==> !blocked_at(
            parent,
            children,
            gutter,
            out[k].row as int,
            c,
        )
    &&& forall|row: int, c: int|
        first <= row < last && lo <= c < hi && !blocked_at(parent, children, gutter, row, c)
            ==> exists|k: int|
            0 <= k < out.len() && #[trigger] out[k].row == row && out[k].start <= c < out[k].end
    &&& forall|k: int|
        0 <= k < out.len() ==> #[trigger] out[k].start == lo || blocked_at(
            parent,
            children,
            gutter,
            out[k].row as int,
            out[k].start - 1,
        )
    &&& forall|k: int|
        0 <= k < out.len() ==> #[trigger] out[k].end == hi || blocked_at(
            parent,
            children,
            gutter,
            out[k].row as int,
            out[k].end as int,
        )
}

/// The runs of one row, tagged with the row.
pub open spec fn row_ivs(row: u16, runs: Seq<(u16, u16)>) -> Seq<FreeInterval> {
    runs.map_values(|p: (u16, u16)| FreeInterval { row, start: p.0, end: p.1 })
}

/// The non-empty grown children, as obstacles.
fn obstacles_of(parent: Rect, children: &[Rect], gutter: u16) -> (obs: Vec<Rect>)
    ensures
        forall|row: int, c: int|
            #[trigger] rects_hit(obs@, row, c) <==> blocked_at(parent, children@, gutter, row, c),
{
    let mut obstacles: Vec<Rect> = Vec::new();
    let mut i: usize = 0;
    while i < children.len()
        invariant
            0 <= i <= children@.len(),
            forall|row: int, c: int|
                #[trigger] rects_hit(obstacles@, row, c) <==> children_hit(
                    parent,
                    children@,
                    gutter,
                    i as int,
                    row,
                    c,
                ),
        decreases children@.len() - i,
    {
        let o = inflate_clamped(children[i], gutter, parent);
        let ghost old_obs = obstacles@;
        if !o.is_empty() {
            obstacles.push(o);
        }
        proof {
            assert forall|row: int, c: int|
                #[trigger] rects_hit(obstacles@, row, c) <==> children_hit(
                    parent,
                    children@,
                    gutter,
                    i + 1,
                    row,
                    c,
                ) by {
                assert(rects_hit(old_obs, row, c) == children_hit(
                    parent,
                    children@,
                    gutter,
                    i as int,
                    row,
                    c,
                ));
                if rects_hit(obstacles@, row, c) {
                    let j = choose|j: int|
                        0 <= j < obstacles@.len() && #[trigger] obstacles@[j].contains_spec(c, row);
                    if j < old_obs.len() {
                        assert(old_obs[j] == obstacles@[j]);
                        assert(rects_hit(old_obs, row, c));
                        let m = choose|m: int|
                            0 <= m < i && #[trigger] inflate_spec(
                                children@[m],
                                gutter,
                                parent,
                            ).contains_spec(c, row);
                    } else {
                        assert(inflate_spec(children@[i as int], gutter, parent).contains_spec(
                            c,
                            row,
                        ));
                    }
                }
                if children_hit(parent, children@, gutter, i + 1, row, c) {
                    let m = choose|m: int|
                        0 <= m < i + 1 && #[trigger] inflate_spec(
                            children@[m],
                            gutter,
                            parent,
                        ).contains_spec(c, row);
                    if m < i {
                        assert(children_hit(parent, children@, gutter, i as int, row, c));
                        let j = choose|j: int|
                            0 <= j < old_obs.len() && #[trigger] old_obs[j].contains_spec(c, row);
                        assert(old_obs[j] == obstacles@[j]);
                    } else {
                        assert(obstacles@[obstacles@.len() - 1].contains_spec(c, row));
                    }
                }
            }
        }
        i = i + 1;
    }
    proof {
        assert forall|row: int, c: int|
            #[trigger] rects_hit(obstacles@, row, c) <==> blocked_at(
                parent,
                children@,
                gutter,
                row,
                c,
            ) by {
            assert(children_hit(parent, children@, gutter, children@.len() as int, row, c)
                == blocked_at(parent, children@, gutter, row, c));
        }
    }
    obstacles
}

/// The column spans of the obstacles that cross `row`.
fn row_spans(obstacles: &Vec<Rect>, row: u16) -> (spans: Vec<(u16, u16)>)
    ensures
        forall|c: int| #[trigger] covered_by(spans@, c) <==> rects_hit(obstacles@, row as int, c),
{
    let mut blocked: Vec<(u16, u16)> = Vec::new();
    let mut j: usize = 0;
    while j < obstacles.len()
        invariant
            0 <= j <= obstacles@.len(),
            forall|c: int|
                #[trigger] covered_by(blocked@, c) <==> rects_hit(
                    obstacles@.subrange(0, j as int),
                    row as int,
                    c,
                ),
        decreases obstacles@.len() - j,
    {
        let o = obstacles[j];
        let ghost old_blocked = blocked@;
        if row >= o.y && row < o.bottom() {
            blocked.push((o.x, o.right()));
        }
        proof {
            let sub0 = obstacles@.subrange(0, j as int);
            let sub1 = obstacles@.subrange(0, j + 1);
            assert forall|c: int| #[trigger]
                covered_by(blocked@, c) <==> rects_hit(sub1, row as int, c) by {
                assert(covered_by(old_blocked, c) == rects_hit(sub0, row as int, c));
                if covered_by(blocked@, c) {
                    let p = choose|p: (u16, u16)| #[trigger] blocked@.contains(p) && span_covers(p, c);
                    let q = choose|q: int| 0 <= q < blocked@.len() && blocked@[q] == p;
                    if q < old_blocked.len() {
                        assert(old_blocked[q] == p);
                        assert(old_blocked.contains(p));
                        let jj = choose|jj: int|
                            0 <= jj < sub0.len() && #[trigger] sub0[jj].contains_spec(c, row as int);
                        assert(sub1[jj] == sub0[jj]);
                    } else {
                        assert(sub1[j as int].contains_spec(c, row as int));
                    }
                }
                if rects_hit(sub1, row as int, c) {
                    let m = choose|m: int|
                        0 <= m < sub1.len() && #[trigger] sub1[m].contains_spec(c, row as int);
                    if m < j {
                        assert(sub0[m] == sub1[m]);
                        assert(rects_hit(sub0, row as int, c));
                        let p = choose|p: (u16, u16)| #[trigger]
                            old_blocked.contains(p) && span_covers(p, c);
                        let q = choose|q: int| 0 <= q < old_blocked.len() && old_blocked[q] == p;
                        assert(blocked@[q] == p);
                        assert(blocked@.contains(p));
                    } else {
                        let p = (o.x, o.right_spec());
                        assert(blocked@[blocked@.len() - 1] == p);
                        assert(blocked@.contains(p));
                    }
                }
            }
        }
        j = j + 1;
    }
    proof {
        assert(obstacles@.subrange(0, obstacles@.len() as int) =~= obstacles@);
    }
    blocked
}

/// Append the runs of `row` to `out`.
fn push_row_runs(out: &mut Vec<FreeInterval>, row: u16, runs: &Vec<(u16, u16)>)
    ensures
        final(out)@ == old(out)@ + row_ivs(row, runs@),
{
    let ghost before = out@;
    let mut k: usize = 0;
    while k < runs.len()
        invariant
            0 <= k <= runs@.len(),
            out@ == before + row_ivs(row, runs@.subrange(0, k as int)),
        decreases runs@.len() - k,
    {
        let (a, b) = runs[k];
        out.push(FreeInterval { row, start: a, end: b });
        proof {
            assert(row_ivs(row, runs@.subrange(0, k + 1)) =~= row_ivs(
                row,
                runs@.subrange(0, k as int),
            ).push(FreeInterval { row, start: a, end: b }));
        }
        k = k + 1;
    }
    proof {
        assert(runs@.subrange(0, runs@.len() as int) =~= runs@);
    }
}

/// Appending one more row's runs extends the row-by-row listing by that row.
proof fn lemma_free_rows_extend(
    parent: Rect,
    children: Seq<Rect>,
    gutter: u16,
    first: int,
    row: u16,
    before: Seq<FreeInterval>,
    bl: Seq<(u16, u16)>,
    runs: Seq<(u16, u16)>,
)
    requires
        first <= row,
        free_rows(parent, children, gutter, first, row as int, before),
        before.len() > 0 ==> before[before.len() - 1].row < row,
        free_runs(parent.x as int, parent.right_spec() as int, bl, runs),
        forall|c: int| covered_by(bl, c) == blocked_at(parent, children, gutter, row as int, c),
    ensures
        free_rows(parent, children, gutter, first, row + 1, before + row_ivs(row, runs)),
        (before + row_ivs(row, runs)).len() > 0 ==> (before + row_ivs(row, runs))[(before
            + row_ivs(row, runs)).len() - 1].row <= row,
{
    let out = before + row_ivs(row, runs);
    let n0 = before.len();
    let lo = parent.x as int;
    let hi = parent.right_spec() as int;
    assert forall|q: int| n0 <= q < out.len() implies out[q] == (FreeInterval {
        row,
        start: runs[q - n0].0,
        end: runs[q - n0].1,
    }) by {}
    assert forall|q: int| 0 <= q < n0 implies out[q] == before[q] by {}
    assert forall|q: int| 0 <= q < out.len() - 1 implies (#[trigger] out[q].row < out[q + 1].row
        || (out[q].row == out[q + 1].row && out[q].end < out[q + 1].start)) by {
        if q + 1 < n0 {
        } else if q + 1 == n0 {
        } else {
            assert(runs[q - n0].1 < runs[q - n0 + 1].0);
        }
    }
    assert forall|q: int, c: int|
        0 <= q < out.len() && #[trigger] iv_covers(out[q], c) implies !blocked_at(
        parent,
        children,
        gutter,
        out[q].row as int,
        c,
    ) by {
        if q >= n0 {
            assert(span_covers(runs[q - n0], c));
        }
    }
    assert forall|r: int, c: int|
        first <= r < row + 1 && lo <= c < hi && !blocked_at(parent, children, gutter, r, c)
            implies exists|q: int|
        0 <= q < out.len() && #[trigger] out[q].row == r && out[q].start <= c < out[q].end by {
        if r < row {
            let q = choose|q: int|
                0 <= q < before.len() && #[trigger] before[q].row == r && before[q].start <= c
                    < before[q].end;
            assert(out[q] == before[q]);
        } else {
            assert(!covered_by(bl, c));
            let q = choose|q: int| 0 <= q < runs.len() && #[trigger] span_covers(runs[q], c);
            assert(out[n0 + q].row == r);
        }
    }
    assert forall|q: int| 0 <= q < out.len() implies #[trigger] out[q].start == lo || blocked_at(
        parent,
        children,
        gutter,
        out[q].row as int,
        out[q].start - 1,
    ) by {
        if q >= n0 {
            assert(runs[q - n0].0 == out[q].start);
        }
    }
    assert forall|q: int| 0 <= q < out.len() implies #[trigger] out[q].end == hi || blocked_at(
        parent,
        children,
        gutter,
        out[q].row as int,
        out[q].end as int,
    ) by {
        if q >= n0 {
            assert(runs[q - n0].1 == out[q].end);
        }
    }
    assert forall|q: int| 0 <= q < out.len() implies first <= #[trigger] out[q].row < row + 1 && lo
        <= out[q].start < out[q].end <= hi by {
        if q >= n0 {
            assert(runs[q - n0].1 == out[q].end);
        }
    }
}

/// The maximal free runs of each row of `parent` within `rows`, around the children
/// grown by `gutter` (and clamped to `parent`), row by row, left to right.
pub fn free_intervals_in_rows(
    parent: Rect,
    children: &[Rect],
    gutter: u16,
    rows: std::ops::Range<u16>,
) -> (out: Vec<FreeInterval>)
    ensures
        parent.is_empty_spec() ==> out@.len() == 0,
        free_rows(
            parent,
            children@,
            gutter,
            scan_first(parent, rows) as int,
            scan_last(parent, rows) as int,
            out@,
        ),
{
    let mut out: Vec<FreeInterval> = Vec::new();
    if parent.is_empty() {
        return out;
    }
    let obstacles = obstacles_of(parent, children, gutter);
    let first = if rows.start >= parent.y {
        rows.start
    } else {
        parent.y
    };
    let pb = parent.bottom();
    let last = if rows.end <= pb {
        rows.end
    } else {
        pb
    };
    let lo = parent.x;
    let hi = parent.right();
    let mut row = first;
    while row < last
        invariant
            first <= row,
            row <= last || (row == first && out@.len() == 0),
            first == scan_first(parent, rows),
            last == scan_last(parent, rows),
            lo == parent.x,
            hi == parent.right_spec(),
            lo <= hi,
            forall|r: int, c: int|
                #[trigger] rects_hit(obstacles@, r, c) <==> blocked_at(parent, children@, gutter, r, c),
            free_rows(parent, children@, gutter, first as int, row as int, out@),
            out@.len() > 0 ==> out@[out@.len() - 1].row < row,
        decreases last - row,
    {
        let mut blocked = row_spans(&obstacles, row);
        let ghost bl = blocked@;
        let runs = row_complement(lo, hi, blocked.as_mut_slice());
        let ghost before = out@;
        proof {
            assert forall|c: int|
                covered_by(bl, c) == blocked_at(parent, children@, gutter, row as int, c) by {
                assert(covered_by(bl, c) == rects_hit(obstacles@, row as int, c));
            }
            lemma_free_rows_extend(parent, children@, gutter, first as int, row, before, bl, runs@);
        }
        push_row_runs(&mut out, row, &runs);
        row = row + 1;
    }
    out
}

/// Some entry of `s` is the cell `(c, r)`.
pub open spec fn has_cell(s: Seq<(u16, u16)>, c: int, r: int) -> bool {
    exists|q: int| 0 <= q < s.len() && #[trigger] s[q] == (c as u16, r as u16) && 0 <= c <= u16::MAX
        && 0 <= r <= u16::MAX
}

/// Cells listed in strictly increasing row-major order.
pub open spec fn row_major_increasing(s: Seq<(u16, u16)>) -> bool {
    forall|q: int|
        0 <= q < s.len() - 1 ==> (#[trigger] s[q].1 < s[q + 1].1 || (s[q].1 == s[q + 1].1 && s[q].0
            < s[q + 1].0))
}

/// The cells of run `iv` clipped to columns `[ax, ar)`.
pub open spec fn run_cells(iv: FreeInterval, ax: u16, ar: u16) -> Seq<(u16, u16)> {
    let s = max16(iv.start, ax);
    let e = min16(iv.end, ar);
    if s < e {
        Seq::new((e - s) as nat, |t: int| ((s + t) as u16, iv.row))
    } else {
        Seq::empty()
    }
}

/// Append the cells of run `iv` clipped to `[ax, ar)`.
fn push_run_cells(out: &mut Vec<(u16, u16)>, iv: FreeInterval, ax: u16, ar: u16)
    ensures
        final(out)@ == old(out)@ + run_cells(iv, ax, ar),
{
    let start = if iv.start >= ax {
        iv.start
    } else {
        ax
    };
    let end = if iv.end <= ar {
        iv.end
    } else {
        ar
    };
    let ghost before = out@;
    let mut col = start;
    while col < end
        invariant
            start <= col,
            col <= end || end <= start,
            end <= start ==> col == start,
            out@.len() == before.len() + (col - start),
            forall|q: int| 0 <= q < before.len() ==> out@[q] == before[q],
            forall|t: int|
                before.len() <= t < out@.len() ==> out@[t] == (
                    (start + (t - before.len())) as u16,
                    iv.row,
                ),
        decreases end - col,
    {
        out.push((col, iv.row));
        col = col + 1;
    }
    proof {
        let rc = run_cells(iv, ax, ar);
        assert(start == max16(iv.start, ax));
        assert(end == min16(iv.end, ar));
        if start < end {
            assert(col == end);
            assert(rc.len() == end - start);
            assert forall|t: int| 0 <= t < rc.len() implies out@[before.len() + t] == rc[t] by {}
        } else {
            assert(rc.len() == 0);
            assert(out@.len() == before.len());
        }
        assert(out@ =~= before + rc);
    }
}

/// Every free cell (not under a grown child) of `parent ∩ window`, in row-major order.
pub fn free_cells_in_window(parent: Rect, children: &[Rect], gutter: u16, window: Rect) -> (out:
    Vec<(u16, u16)>)
    ensures
        row_major_increasing(out@),
        forall|c: int, r: int|
            #[trigger] has_cell(out@, c, r) <==> (parent.intersection_spec(window).contains_spec(
                c,
                r,
            ) && !blocked_at(parent, children@, gutter, r, c)),
{
    let mut out: Vec<(u16, u16)> = Vec::new();
    let area = parent.intersection(window);
    if area.is_empty() {
        return out;
    }
    let intervals = free_intervals_in_rows(parent, children, gutter, area.y..area.bottom());
    let ax = area.x;
    let ar = area.right();
    let mut k: usize = 0;
    while k < intervals.len()
        invariant
            0 <= k <= intervals@.len(),
            area == parent.intersection_spec(window),
            ax == area.x,
            ar == area.right_spec(),
            !area.is_empty_spec(),
            free_rows(
                parent,
                children@,
                gutter,
                area.y as int,
                area.bottom_spec() as int,
                intervals@,
            ),
            row_major_increasing(out@),
            out@.len() > 0 && k < intervals@.len() ==> (out@[out@.len() - 1].1 < intervals@[k as int].row
                || (out@[out@.len() - 1].1 == intervals@[k as int].row && out@[out@.len() - 1].0
                < intervals@[k as int].start)),
            forall|c: int, r: int|
                #[trigger] has_cell(out@, c, r) <==> (area.contains_spec(c, r) && exists|m: int|
                    0 <= m < k && #[trigger] intervals@[m].row == r && intervals@[m].start <= c
                        < intervals@[m].end),
        decreases intervals@.len() - k,
    {
        let iv = intervals[k];
        let ghost before = out@;
        push_run_cells(&mut out, iv, ax, ar);
        proof {
            lemma_cells_extend(area, intervals@, k as int, before, out@);
        }
        k = k + 1;
    }
    proof {
        assert forall|c: int, r: int|
            #[trigger] has_cell(out@, c, r) <==> (parent.intersection_spec(window).contains_spec(
                c,
                r,
            ) && !blocked_at(parent, children@, gutter, r, c)) by {
            if area.contains_spec(c, r) && !blocked_at(parent, children@, gutter, r, c) {
                let q = choose|q: int|
                    0 <= q < intervals@.len() && #[trigger] intervals@[q].row == r
                        && intervals@[q].start <= c < intervals@[q].end;
            }
            if area.contains_spec(c, r) && exists|m: int|
                0 <= m < intervals@.len() && #[trigger] intervals@[m].row == r
                    && intervals@[m].start <= c < intervals@[m].end {
                let m = choose|m: int|
                    0 <= m < intervals@.len() && #[trigger] intervals@[m].row == r
                        && intervals@[m].start <= c < intervals@[m].end;
                assert(iv_covers(intervals@[m], c));
            }
        }
    }
    out
}

/// Appending the clipped cells of the next run keeps the listing increasing and
/// extends its membership by that run.
#[verifier::rlimit(40)]
proof fn lemma_cells_extend(
    area: Rect,
    ivs: Seq<FreeInterval>,
    k: int,
    before: Seq<(u16, u16)>,
    after: Seq<(u16, u16)>,
)
    requires
        0 <= k < ivs.len(),
        forall|q: int|
            0 <= q < ivs.len() - 1 ==> (#[trigger] ivs[q].row < ivs[q + 1].row || (ivs[q].row
                == ivs[q + 1].row && ivs[q].end < ivs[q + 1].start)),
        forall|q: int| 0 <= q < ivs.len() ==> (#[trigger] ivs[q]).start < ivs[q].end,
        forall|q: int|
            0 <= q < ivs.len() ==> area.y <= (#[trigger] ivs[q]).row < area.bottom_spec(),
        after == before + run_cells(ivs[k], area.x, area.right_spec()),
        row_major_increasing(before),
        before.len() > 0 ==> (before[before.len() - 1].1 < ivs[k].row || (before[before.len()
            - 1].1 == ivs[k].row && before[before.len() - 1].0 < ivs[k].start)),
        forall|c: int, r: int|
            #[trigger] has_cell(before, c, r) <==> (area.contains_spec(c, r) && exists|m: int|
                0 <= m < k && #[trigger] ivs[m].row == r && ivs[m].start <= c < ivs[m].end),
    ensures
        row_major_increasing(after),
        after.len() > 0 && k + 1 < ivs.len() ==> (after[after.len() - 1].1 < ivs[k + 1].row || (
        after[after.len() - 1].1 == ivs[k + 1].row && after[after.len() - 1].0 < ivs[k + 1].start)),
        forall|c: int, r: int|
            #[trigger] has_cell(after, c, r) <==> (area.contains_spec(c, r) && exists|m: int|
                0 <= m < k + 1 && #[trigger] ivs[m].row == r && ivs[m].start <= c < ivs[m].end),
{
    let iv = ivs[k];
    let rc = run_cells(iv, area.x, area.right_spec());
    let n0 = before.len();
    assert forall|q: int| 0 <= q < after.len() - 1 implies (#[trigger] after[q].1 < after[q + 1].1
        || (after[q].1 == after[q + 1].1 && after[q].0 < after[q + 1].0)) by {
        if q + 1 < n0 {
            assert(after[q] == before[q] && after[q + 1] == before[q + 1]);
        } else if q + 1 == n0 {
            assert(after[q] == before[q]);
        } else {
        }
    }
    if k + 1 < ivs.len() && after.len() > 0 {
        if rc.len() == 0 {
            assert(after =~= before);
        }
    }
    assert forall|c: int, r: int| #[trigger] has_cell(after, c, r) implies (area.contains_spec(c, r)
        && exists|m: int|
        0 <= m < k + 1 && #[trigger] ivs[m].row == r && ivs[m].start <= c < ivs[m].end) by {
        let q = choose|q: int| 0 <= q < after.len() && #[trigger] after[q] == (c as u16, r as u16)
            && 0 <= c <= u16::MAX && 0 <= r <= u16::MAX;
        if q < n0 {
            assert(before[q] == after[q]);
            assert(has_cell(before, c, r));
        } else {
            assert(rc[q - n0] == after[q]);
            assert(ivs[k].row == r);
        }
    }
    assert forall|c: int, r: int|
        area.contains_spec(c, r) && (exists|m: int|
            0 <= m < k + 1 && #[trigger] ivs[m].row == r && ivs[m].start <= c < ivs[m].end) implies #[trigger] has_cell(
        after,
        c,
        r,
    ) by {
        let m = choose|m: int|
            0 <= m < k + 1 && #[trigger] ivs[m].row == r && ivs[m].start <= c < ivs[m].end;
        if m < k {
            assert(has_cell(before, c, r));
            let q = choose|q: int| 0 <= q < before.len() && #[trigger] before[q] == (c as u16, r as u16)
                && 0 <= c <= u16::MAX && 0 <= r <= u16::MAX;
            assert(after[q] == before[q]);
        } else {
            let s = max16(iv.start, area.x);
            let t = c - s;
            assert(rc[t] == (c as u16, r as u16));
            assert(after[n0 + t] == rc[t]);
        }
    }
}

} // verus!
