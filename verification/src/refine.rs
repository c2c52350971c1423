//! The integer terms of a layout's quality score, over the node rectangles: how many
//! pairs overlap, how many distinct columns and rows the nodes start in, and the
//! bounding box of them all.
use vstd::prelude::*;

use crate::geometry::Rect;

verus! {

/// The number of pairs `(i, j)` with `i < j < n` whose rects overlap (their
/// intersection is not empty).
pub open spec fn overlap_count(rs: Seq<Rect>, n: int) -> nat
    decreases n,
{
    if n <= 0 {
        0
    } else {
        overlap_count(rs, n - 1) + overlaps_before(rs, n - 1, n - 1)
    }
}

/// The number of `i < m` whose rect overlaps rect `j`.
pub open spec fn overlaps_before(rs: Seq<Rect>, j: int, m: int) -> nat
    decreases m,
{
    if m <= 0 {
        0
    } else {
        overlaps_before(rs, j, m - 1) + if rs[m - 1].intersection_spec(rs[j]).is_empty_spec() {
            0nat
        } else {
            1nat
        }
    }
}

/// The number of distinct values among the first `n` of `s`: the positions whose
/// value does not occur earlier.
pub open spec fn distinct_count(s: Seq<u16>, n: int) -> nat
    decreases n,
{
    if n <= 0 {
        0
    } else {
        distinct_count(s, n - 1) + if s.take(n - 1).contains(s[n - 1]) {
            0nat
        } else {
            1nat
        }
    }
}

/// The smallest left edge, smallest top edge, largest right edge and largest bottom
/// edge among the first `n` rects (right and bottom saturating), starting from
/// `(65535, 65535, 0, 0)`.
pub open spec fn bbox_upto(rs: Seq<Rect>, n: int) -> (u16, u16, u16, u16)
    decreases n,
{
    if n <= 0 {
        (u16::MAX, u16::MAX, 0, 0)
    } else {
        let b = bbox_upto(rs, n - 1);
        let r = rs[n - 1];
        (
            if r.x < b.0 { r.x } else { b.0 },
            if r.y < b.1 { r.y } else { b.1 },
            if r.right_spec() > b.2 { r.right_spec() } else { b.2 },
            if r.bottom_spec() > b.3 { r.bottom_spec() } else { b.3 },
        )
    }
}

/// The integer terms of a layout score.
#[derive(Debug, Clone, Copy, PartialEq, Eq)]
pub struct LayoutTerms {
    /// Pairs of node rects that overlap.
    pub overlap: usize,
    /// Distinct node columns plus distinct node rows.
    pub alignment: usize,
    /// The bounding box `(x0, y0, x1, y1)` of all nodes; `None` when there are none.
    pub bbox: Option<(u16, u16, u16, u16)>,
}

/// The number of rects among the first `m` that overlap rect `j`.
fn count_overlaps_before(rs: &Vec<Rect>, j: usize, m: usize) -> (c: usize)
    requires
        j < rs@.len(),
        m <= rs@.len(),
    ensures
        c == overlaps_before(rs@, j as int, m as int),
        c <= m,
{
    let mut c: usize = 0;
    let mut i: usize = 0;
    while i < m
        invariant
            j < rs@.len(),
            m <= rs@.len(),
            i <= m,
            c == overlaps_before(rs@, j as int, i as int),
            c <= i,
        decreases m - i,
    {
        if !rs[i].intersection(rs[j]).is_empty() {
            c = c + 1;
        }
        i = i + 1;
    }
    c
}

/// Whether `v` occurs among the first `m` of `s`.
fn occurs_before(s: &Vec<u16>, v: u16, m: usize) -> (r: bool)
    requires
        m <= s@.len(),
    ensures
        r == s@.take(m as int).contains(v),
{
    let mut i: usize = 0;
    while i < m
        invariant
            m <= s@.len(),
            i <= m,
            forall|k: int| 0 <= k < i ==> s@[k] != v,
        decreases m - i,
    {
        if s[i] == v {
            proof {
                assert(s@.take(m as int)[i as int] == v);
            }
            return true;
        }
        i = i + 1;
    }
    proof {
        assert forall|k: int| 0 <= k < s@.take(m as int).len() implies s@.take(m as int)[k] != v by {
            assert(s@.take(m as int)[k] == s@[k]);
        }
    }
    false
}

/// The number of distinct values in `s`.
fn count_distinct(s: &Vec<u16>) -> (c: usize)
    ensures
        c == distinct_count(s@, s@.len() as int),
        c <= s@.len(),
{
    let mut c: usize = 0;
    let mut i: usize = 0;
    while i < s.len()
        invariant
            i <= s@.len(),
            c == distinct_count(s@, i as int),
            c <= i,
        decreases s@.len() - i,
    {
        if !occurs_before(s, s[i], i) {
            c = c + 1;
        }
        i = i + 1;
    }
    c
}

/// The overlap, alignment and bounding-box terms of the layout whose nodes occupy
/// `rects`: the overlapping pairs, the distinct left edges plus the distinct top
/// edges, and the bounding box (`None` for no nodes).
pub fn layout_terms(rects: &Vec<Rect>) -> (t: LayoutTerms)
    requires
        rects@.len() * rects@.len() <= usize::MAX,
    ensures
        t.overlap == overlap_count(rects@, rects@.len() as int),
        t.alignment == distinct_count(rects@.map_values(|r: Rect| r.x), rects@.len() as int) + distinct_count(
            rects@.map_values(|r: Rect| r.y),
            rects@.len() as int,
        ),
        t.bbox == (if rects@.len() == 0 {
            None
        } else {
            Some(bbox_upto(rects@, rects@.len() as int))
        }),
{
    let n = rects.len();
    let mut overlap: usize = 0;
    let mut xs: Vec<u16> = Vec::new();
    let mut ys: Vec<u16> = Vec::new();
    let mut x0: u16 = u16::MAX;
    let mut y0: u16 = u16::MAX;
    let mut x1: u16 = 0;
    let mut y1: u16 = 0;
    let mut j: usize = 0;
    while j < n
        invariant
            n == rects@.len(),
            n * n <= usize::MAX,
            j <= n,
            overlap == overlap_count(rects@, j as int),
            overlap <= j * j,
            xs@ == rects@.take(j as int).map_values(|r: Rect| r.x),
            ys@ == rects@.take(j as int).map_values(|r: Rect| r.y),
            (x0, y0, x1, y1) == bbox_upto(rects@, j as int),
        decreases n - j,
    {
        let c = count_overlaps_before(rects, j, j);
        proof {
            assert(overlap + c <= (j + 1) * (j + 1)) by (nonlinear_arith)
                requires
                    overlap <= j * j,
                    c <= j,
            ;
            assert((j + 1) * (j + 1) <= n * n) by (nonlinear_arith)
                requires
                    j + 1 <= n,
            ;
        }
        overlap = overlap + c;
        let r = rects[j];
        xs.push(r.x);
        ys.push(r.y);
        if r.x < x0 {
            x0 = r.x;
        }
        if r.y < y0 {
            y0 = r.y;
        }
        if r.right() > x1 {
            x1 = r.right();
        }
        if r.bottom() > y1 {
            y1 = r.bottom();
        }
        proof {
            assert(rects@.take(j + 1).map_values(|r: Rect| r.x) =~= rects@.take(j as int).map_values(|r: Rect| r.x).push(r.x));
            assert(rects@.take(j + 1).map_values(|r: Rect| r.y) =~= rects@.take(j as int).map_values(|r: Rect| r.y).push(r.y));
        }
        j = j + 1;
    }
    proof {
        assert(rects@.take(n as int) =~= rects@);
    }
    let alignment_x = count_distinct(&xs);
    let alignment_y = count_distinct(&ys);
    proof {
        assert(xs@ =~= rects@.map_values(|r: Rect| r.x));
        assert(ys@ =~= rects@.map_values(|r: Rect| r.y));
    }
    let bbox = if n == 0 {
        None
    } else {
        Some((x0, y0, x1, y1))
    };
    proof {
        assert(n + n <= usize::MAX) by (nonlinear_arith)
            requires
                n * n <= usize::MAX,
                usize::MAX >= 0xffff,
        ;
    }
    LayoutTerms { overlap, alignment: alignment_x + alignment_y, bbox }
}

} // verus!
