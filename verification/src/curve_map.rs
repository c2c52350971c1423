use vstd::prelude::*;

use vstd::arithmetic::power2::{lemma_pow2_adds, lemma_pow2_strictly_increases, lemma_pow2_unfold, pow2};

use crate::border::{
    grid_after, lemma_grid_after_empty, lemma_grid_after_line, lemma_grid_after_trans, ops_cell, put_strokes,
    BorderStyle, CornerStyle, LineOp, LineWeight, Stroke,
};
use crate::buffer::{put_grapheme, Buffer, CellView};
use crate::geometry::{sat_add, Rect};
use crate::junction::{bare_cell, in_area, resolve, resolve_spec, EdgeGrid};
use crate::spacefill::Gilbert;
use crate::style::{Color, Modifier, Style};

verus! {

/// A grid step from one cell to a 4-adjacent neighbour.
#[derive(Debug, Clone, Copy, PartialEq, Eq, Structural)]
pub enum Dir {
    L,
    R,
    U,
    D,
}

/// The direction from cell `a` to cell `b`, or `None` when they are not 4-adjacent.
pub open spec fn dir_spec(a: (u32, u32), b: (u32, u32)) -> Option<Dir> {
    let dx = b.0 - a.0;
    let dy = b.1 - a.1;
    if dx == 1 && dy == 0 {
        Some(Dir::R)
    } else if dx == -1 && dy == 0 {
        Some(Dir::L)
    } else if dx == 0 && dy == 1 {
        Some(Dir::D)
    } else if dx == 0 && dy == -1 {
        Some(Dir::U)
    } else {
        None
    }
}

/// The two ports of cell `d` of a curve visiting `order`: toward its previous cell and
/// toward its next one, each `None` at an end of the curve or across a jump.
pub open spec fn ports_spec(order: Seq<(u32, u32)>, d: int) -> (Option<Dir>, Option<Dir>) {
    let prev = if d > 0 {
        dir_spec(order[d], order[d - 1])
    } else {
        None
    };
    let next = if d + 1 < order.len() {
        dir_spec(order[d], order[d + 1])
    } else {
        None
    };
    (prev, next)
}

/// The rounded glyph joining two ports: `─ │` for a straight, `╭ ╮ ╰ ╯` for a turn, a
/// single stroke for one port, `·` for none.
pub open spec fn glyph_spec(a: Option<Dir>, b: Option<Dir>) -> char {
    let l = a == Some(Dir::L) || b == Some(Dir::L);
    let r = a == Some(Dir::R) || b == Some(Dir::R);
    let u = a == Some(Dir::U) || b == Some(Dir::U);
    let dn = a == Some(Dir::D) || b == Some(Dir::D);
    if l && r {
        '─'
    } else if u && dn {
        '│'
    } else if r && u {
        '╰'
    } else if l && u {
        '╯'
    } else if r && dn {
        '╭'
    } else if l && dn {
        '╮'
    } else if l || r {
        '─'
    } else if u || dn {
        '│'
    } else {
        '·'
    }
}


/// Whether the rounded glyph `c` has an arm toward `x` (`─` left and right, `│` up
/// and down, and the arcs `╭` down-right, `╮` down-left, `╯` up-left, `╰` up-right).
pub open spec fn rounded_arm(c: char, x: Dir) -> bool {
    match x {
        Dir::L => c == '─' || c == '╮' || c == '╯',
        Dir::R => c == '─' || c == '╭' || c == '╰',
        Dir::U => c == '│' || c == '╯' || c == '╰',
        Dir::D => c == '│' || c == '╭' || c == '╮',
    }
}

/// A glyph joining two different ports has an arm toward exactly those two ports; a
/// glyph for a single port has an arm toward it.
pub proof fn lemma_glyph_arms(a: Option<Dir>, b: Option<Dir>)
    ensures
        a is Some && b is Some && a != b ==> forall|x: Dir|
            #[trigger] rounded_arm(glyph_spec(a, b), x) <==> (a == Some(x) || b == Some(x)),
        a is Some && b is None ==> rounded_arm(glyph_spec(a, b), a->0),
        a is None && b is Some ==> rounded_arm(glyph_spec(a, b), b->0),
{
    if a is Some && b is Some && a != b {
        assert forall|x: Dir| #[trigger] rounded_arm(glyph_spec(a, b), x) <==> (a == Some(x) || b == Some(
            x,
        )) by {
            match (a->0, b->0) {
                (Dir::L, Dir::R) | (Dir::R, Dir::L) => {},
                (Dir::U, Dir::D) | (Dir::D, Dir::U) => {},
                (Dir::R, Dir::U) | (Dir::U, Dir::R) => {},
                (Dir::L, Dir::U) | (Dir::U, Dir::L) => {},
                (Dir::R, Dir::D) | (Dir::D, Dir::R) => {},
                (Dir::L, Dir::D) | (Dir::D, Dir::L) => {},
                _ => {},
            }
        }
    }
}

/// The cell one step from `a` in direction `x` (`R` is `x + 1`, `D` is `y + 1`).
pub open spec fn step_toward(a: (u32, u32), x: Dir) -> (int, int) {
    match x {
        Dir::R => (a.0 + 1, a.1 as int),
        Dir::L => (a.0 - 1, a.1 as int),
        Dir::D => (a.0 as int, a.1 + 1),
        Dir::U => (a.0 as int, a.1 - 1),
    }
}

/// The direction from `a` to `b` is `x` exactly when `b` is one step from `a` in
/// direction `x`.
pub proof fn lemma_dir_geometry(a: (u32, u32), b: (u32, u32), x: Dir)
    ensures
        dir_spec(a, b) == Some(x) <==> (b.0 as int, b.1 as int) == step_toward(a, x),
{
}

/// The glyph of a curve cell whose previous and next cells are distinct grid
/// neighbours has an arm toward each of them and no other: the drawn curve joins up.
pub proof fn lemma_cell_glyph_arms(order: Seq<(u32, u32)>, d: int)
    requires
        0 < d < order.len() - 1,
        dir_spec(order[d], order[d - 1]) is Some,
        dir_spec(order[d], order[d + 1]) is Some,
        order[d - 1] != order[d + 1],
    ensures
        ({
            let p = ports_spec(order, d);
            &&& forall|x: Dir|
                #[trigger] rounded_arm(glyph_spec(p.0, p.1), x) <==> (dir_spec(order[d], order[d - 1])
                    == Some(x) || dir_spec(order[d], order[d + 1]) == Some(x))
            &&& forall|x: Dir|
                #[trigger] rounded_arm(glyph_spec(p.0, p.1), x) <==> ((order[d - 1].0 as int, order[d
                    - 1].1 as int) == step_toward(order[d], x) || (order[d + 1].0 as int, order[d
                    + 1].1 as int) == step_toward(order[d], x))
        }),
{
    let p = ports_spec(order, d);
    assert(p.0 != p.1);
    lemma_glyph_arms(p.0, p.1);
    assert forall|x: Dir| #[trigger] rounded_arm(glyph_spec(p.0, p.1), x) <==> ((order[d - 1].0 as int,
        order[d - 1].1 as int) == step_toward(order[d], x) || (order[d + 1].0 as int, order[d
        + 1].1 as int) == step_toward(order[d], x)) by {
        lemma_dir_geometry(order[d], order[d - 1], x);
        lemma_dir_geometry(order[d], order[d + 1], x);
    }
}

/// The direction from cell `a` to cell `b`, or `None` when they are not 4-adjacent.
fn dir_between(a: (u32, u32), b: (u32, u32)) -> (r: Option<Dir>)
    ensures
        r == dir_spec(a, b),
{
    let dx = b.0 as i64 - a.0 as i64;
    let dy = b.1 as i64 - a.1 as i64;
    if dx == 1 && dy == 0 {
        Some(Dir::R)
    } else if dx == -1 && dy == 0 {
        Some(Dir::L)
    } else if dx == 0 && dy == 1 {
        Some(Dir::D)
    } else if dx == 0 && dy == -1 {
        Some(Dir::U)
    } else {
        None
    }
}

/// The two ports of cell `d` of `g`.
fn ports(g: &Gilbert, d: usize) -> (r: (Option<Dir>, Option<Dir>))
    requires
        d < g.order().len(),
    ensures
        r == ports_spec(g.order(), d as int),
{
    let cur = g.d_to_xy(d);
    let prev = if d > 0 {
        dir_between(cur, g.d_to_xy(d - 1))
    } else {
        None
    };
    let n = g.len();
    let next = if d + 1 < n {
        dir_between(cur, g.d_to_xy(d + 1))
    } else {
        None
    };
    (prev, next)
}

/// The glyph joining two ports.
fn glyph_from_ports(a: Option<Dir>, b: Option<Dir>) -> (c: char)
    ensures
        c == glyph_spec(a, b),
{
    let l = a == Some(Dir::L) || b == Some(Dir::L);
    let r = a == Some(Dir::R) || b == Some(Dir::R);
    let u = a == Some(Dir::U) || b == Some(Dir::U);
    let dn = a == Some(Dir::D) || b == Some(Dir::D);
    if l && r {
        '─'
    } else if u && dn {
        '│'
    } else if r && u {
        '╰'
    } else if l && u {
        '╯'
    } else if r && dn {
        '╭'
    } else if l && dn {
        '╮'
    } else if l || r {
        '─'
    } else if u || dn {
        '│'
    } else {
        '·'
    }
}

/// Whether either port points right.
fn has_right(a: Option<Dir>, b: Option<Dir>) -> (r: bool)
    ensures
        r == (a == Some(Dir::R) || b == Some(Dir::R)),
{
    a == Some(Dir::R) || b == Some(Dir::R)
}

/// The rounded box-drawing glyph of cell `d`'s segment of the curve `g`.
pub fn cell_glyph(g: &Gilbert, d: usize) -> (c: char)
    requires
        d < g.order().len(),
    ensures
        c == ({
            let p = ports_spec(g.order(), d as int);
            glyph_spec(p.0, p.1)
        }),
{
    let (a, b) = ports(g, d);
    glyph_from_ports(a, b)
}

/// `floor(log2 n)`, with 0 for `n <= 1`.
pub open spec fn log2_floor(n: nat) -> nat
    decreases n,
{
    if n <= 1 {
        0
    } else {
        1 + log2_floor(n / 2)
    }
}

/// How many times 2 divides `n` (0 for `n == 0`).
pub open spec fn two_adic(n: nat) -> nat
    decreases n,
{
    if n == 0 || n % 2 == 1 {
        0
    } else {
        1 + two_adic(n / 2)
    }
}

/// A grid of `2^a × 2^b` cells fits: both exponents at least 1 and at most the axis
/// limits, and `2^(a+b)` divides the item count.
pub open spec fn fit_valid(aw: int, ah: int, kb: int, a: int, b: int) -> bool {
    1 <= a <= aw && 1 <= b <= ah && a + b <= kb
}

/// `|a - b|`.
pub open spec fn absdiff(a: int, b: int) -> int {
    if a >= b {
        a - b
    } else {
        b - a
    }
}

/// Grid `(a1, b1)` beats `(a2, b2)`: more cells, then squarer, then wider.
pub open spec fn fit_better(a1: int, b1: int, a2: int, b2: int) -> bool {
    a1 + b1 > a2 + b2 || (a1 + b1 == a2 + b2 && (absdiff(a1, b1) < absdiff(a2, b2) || (absdiff(
        a1,
        b1,
    ) == absdiff(a2, b2) && a1 > a2)))
}

/// `(a, b)` is the best fitting grid.
pub open spec fn fit_best(aw: int, ah: int, kb: int, a: int, b: int) -> bool {
    &&& fit_valid(aw, ah, kb, a, b)
    &&& forall|a2: int, b2: int| fit_valid(aw, ah, kb, a2, b2) ==> !fit_better(a2, b2, a, b)
}

/// The exponent limits of [`fit_dims`]: of the cells across `area` (two columns
/// each), of the rows, and of the item count's largest power-of-two divisor.
pub open spec fn fit_limits(area: Rect, cells: u128) -> (int, int, int) {
    let w_max: nat = if area.width / 2 >= 1 {
        (area.width / 2) as nat
    } else {
        1
    };
    let h_max: nat = if area.height >= 1 {
        area.height as nat
    } else {
        1
    };
    let kb: nat = if cells <= 1 {
        0
    } else {
        two_adic(cells as nat)
    };
    (log2_floor(w_max) as int, log2_floor(h_max) as int, kb as int)
}

/// `floor(log2 n)` of a positive `u32`.
fn ilog2(n: u32) -> (r: u32)
    requires
        n >= 1,
    ensures
        r == log2_floor(n as nat),
        r < 32,
{
    let mut m = n;
    let mut k: u32 = 0;
    proof {
        vstd::arithmetic::power2::lemma2_to64();
    }
    while m > 1
        invariant
            m >= 1,
            k + log2_floor(m as nat) == log2_floor(n as nat),
            m * pow2(k as nat) <= n,
        decreases m,
    {
        proof {
            lemma_pow2_unfold((k + 1) as nat);
            vstd::arithmetic::power2::lemma2_to64();
            if k + 1 >= 32 {
                if k + 1 > 32 {
                    lemma_pow2_strictly_increases(32, (k + 1) as nat);
                }
            }
            assert((m / 2) * pow2((k + 1) as nat) <= m * pow2(k as nat)) by (nonlinear_arith)
                requires
                    pow2((k + 1) as nat) == 2 * pow2(k as nat),
                    m >= 2,
            ;
            assert(2 * pow2(k as nat) <= n) by (nonlinear_arith)
                requires
                    m * pow2(k as nat) <= n,
                    m >= 2,
                    pow2(k as nat) >= 0,
            ;
        }
        m = m / 2;
        k = k + 1;
    }
    proof {
        vstd::arithmetic::power2::lemma2_to64();
        if k >= 32 {
            if k > 32 {
                lemma_pow2_strictly_increases(32, k as nat);
            }
            assert(m * pow2(k as nat) >= pow2(k as nat)) by (nonlinear_arith)
                requires
                    m >= 1,
                    pow2(k as nat) >= 0,
            ;
        }
    }
    k
}

/// How many times 2 divides `n`, for `n >= 2`.
fn trailing_zeros(n: u128) -> (r: u32)
    requires
        n >= 2,
    ensures
        r == two_adic(n as nat),
        r < 128,
{
    let mut m = n;
    let mut k: u32 = 0;
    proof {
        vstd::arithmetic::power2::lemma2_to64();
    }
    while m % 2 == 0
        invariant
            m >= 1,
            k + two_adic(m as nat) == two_adic(n as nat),
            m * pow2(k as nat) == n,
            k < 128,
        decreases m,
    {
        proof {
            lemma_pow2_unfold((k + 1) as nat);
            assert((m / 2) * pow2((k + 1) as nat) == n) by (nonlinear_arith)
                requires
                    m % 2 == 0,
                    m * pow2(k as nat) == n,
                    pow2((k + 1) as nat) == 2 * pow2(k as nat),
            ;
            if k + 1 >= 128 {
                vstd::arithmetic::power2::lemma2_to64();
                lemma_pow2_adds(64, 63);
                lemma_pow2_adds(64, 64);
                if k + 1 > 128 {
                    lemma_pow2_strictly_increases(128, (k + 1) as nat);
                }
                assert((m / 2) * pow2((k + 1) as nat) >= pow2((k + 1) as nat)) by (nonlinear_arith)
                    requires
                        m / 2 >= 1,
                        pow2((k + 1) as nat) >= 0,
                ;
            }
        }
        m = m / 2;
        k = k + 1;
    }
    k
}

/// The grid `(width, height)`, in cells two columns wide, for laying `cells` items on a
/// Gilbert curve filling `area`: `2^a × 2^b` for the best fitting exponents (most cells,
/// then squarest, then wider) where `2^(a+b)` divides `cells`, or `1 × 1` when none fits.
pub fn fit_dims(area: Rect, cells: u128) -> (r: (u32, u32))
    ensures
        ({
            let (aw, ah, kb) = fit_limits(area, cells);
            &&& (forall|a: int, b: int| !fit_valid(aw, ah, kb, a, b)) ==> r == (1u32, 1u32)
            &&& (exists|a: int, b: int| fit_valid(aw, ah, kb, a, b)) ==> exists|a: u32, b: u32|
                #![trigger fit_best(aw, ah, kb, a as int, b as int)]
                fit_best(aw, ah, kb, a as int, b as int) && a < 32 && b < 32 && r == (1u32 << a, 1u32 << b)
        }),
{
    let w_max: u32 = if area.width / 2 >= 1 {
        (area.width / 2) as u32
    } else {
        1
    };
    let h_max: u32 = if area.height >= 1 {
        area.height as u32
    } else {
        1
    };
    let aw = ilog2(w_max);
    let ah = ilog2(h_max);
    let kb: u32 = if cells <= 1 {
        0
    } else {
        trailing_zeros(cells)
    };
    let ghost lim = fit_limits(area, cells);
    assert(lim == (aw as int, ah as int, kb as int));
    let mut best: Option<(u32, u32)> = None;
    let mut a: u32 = 1;
    while a <= aw
        invariant
            aw < 32,
            ah < 32,
            kb < 128,
            1 <= a <= aw + 1,
            best matches Some(p) ==> fit_valid(aw as int, ah as int, kb as int, p.0 as int, p.1 as int),
            best is None ==> forall|a2: int, b2: int| a2 < a ==> !fit_valid(aw as int, ah as int, kb as int, a2, b2),
            best matches Some(p) ==> forall|a2: int, b2: int|
                a2 < a && fit_valid(aw as int, ah as int, kb as int, a2, b2) ==> !fit_better(a2, b2, p.0 as int, p.1 as int),
        decreases aw + 1 - a,
    {
        let mut b: u32 = 1;
        while b <= ah
            invariant
                aw < 32,
                ah < 32,
                kb < 128,
                1 <= a <= aw,
                1 <= b <= ah + 1,
                best matches Some(p) ==> fit_valid(aw as int, ah as int, kb as int, p.0 as int, p.1 as int),
                best is None ==> forall|a2: int, b2: int|
                    (a2 < a || (a2 == a && b2 < b)) ==> !fit_valid(aw as int, ah as int, kb as int, a2, b2),
                best matches Some(p) ==> forall|a2: int, b2: int|
                    (a2 < a || (a2 == a && b2 < b)) && fit_valid(aw as int, ah as int, kb as int, a2, b2) ==> !fit_better(
                        a2,
                        b2,
                        p.0 as int,
                        p.1 as int,
                    ),
            ensures
                best matches Some(p) ==> fit_valid(aw as int, ah as int, kb as int, p.0 as int, p.1 as int),
                best is None ==> forall|a2: int, b2: int| a2 <= a ==> !fit_valid(aw as int, ah as int, kb as int, a2, b2),
                best matches Some(p) ==> forall|a2: int, b2: int|
                    a2 <= a && fit_valid(aw as int, ah as int, kb as int, a2, b2) ==> !fit_better(a2, b2, p.0 as int, p.1 as int),
            decreases ah + 1 - b,
        {
            if a + b > kb {
                break;
            }
            let better = match best {
                None => true,
                Some((ba, bb)) => {
                    let d1 = if a >= b {
                        a - b
                    } else {
                        b - a
                    };
                    let d2 = if ba >= bb {
                        ba - bb
                    } else {
                        bb - ba
                    };
                    a + b > ba + bb || (a + b == ba + bb && (d1 < d2 || (d1 == d2 && a > ba)))
                },
            };
            if better {
                best = Some((a, b));
            }
            b = b + 1;
        }
        a = a + 1;
    }
    match best {
        Some((a, b)) => {
            let r = (1u32 << a, 1u32 << b);
            proof {
                assert(fit_best(lim.0, lim.1, lim.2, a as int, b as int));
                assert(fit_valid(lim.0, lim.1, lim.2, a as int, b as int));
            }
            r
        },
        None => (1, 1),
    }
}


/// Where cell `p` of the grid is drawn in `area`: two columns per cell, saturating.
pub open spec fn curve_pos(area: Rect, p: (u32, u32)) -> (int, int) {
    let twice: int = if (p.0 as u16) * 2 > u16::MAX {
        u16::MAX as int
    } else {
        (p.0 as u16) * 2
    };
    (sat_add(area.x, twice as u16) as int, sat_add(area.y, p.1 as u16) as int)
}

/// The cells after drawing the first `k` cells of the curve `order` into `area`: each
/// cell that fits is its glyph followed by `─` when the curve goes on to the right
/// (else a blank), both in the colours `cs` gives it.
pub open spec fn curve_fold(
    v: Seq<CellView>,
    barea: Rect,
    area: Rect,
    order: Seq<(u32, u32)>,
    cs: Seq<(Color, Color)>,
    k: int,
) -> Seq<CellView>
    decreases k,
{
    if k <= 0 {
        v
    } else {
        let prev = curve_fold(v, barea, area, order, cs, k - 1);
        let d = k - 1;
        let (x, y) = curve_pos(area, order[d]);
        if x + 1 >= sat_add(area.x, area.width) || y >= sat_add(area.y, area.height) {
            prev
        } else {
            let (a, b) = ports_spec(order, d);
            let style = Style { fg: cs[d].0, bg: cs[d].1, mods: Modifier { bits: 0 } };
            let spacer = if a == Some(Dir::R) || b == Some(Dir::R) {
                '─'
            } else {
                ' '
            };
            let v1 = put_grapheme(prev, barea, x, y, seq![glyph_spec(a, b)], style).0;
            put_grapheme(v1, barea, x + 1, y, seq![spacer], style).0
        }
    }
}

/// Paint the whole curve `g` into `area`: each cell `d` is its [`cell_glyph`] over the
/// colours `paint(d)` gives, filling both of its columns, the second continuing the
/// line with `─` when the curve goes right; cells outside `area` are skipped.
pub fn render<F: Fn(usize) -> (Color, Color)>(buf: &mut Buffer, area: Rect, g: &Gilbert, paint: F)
    requires
        old(buf).wf(),
        forall|d: usize| call_requires(paint, (d,)),
    ensures
        final(buf).wf(),
        final(buf).area == old(buf).area,
        area.width < 2 || area.height == 0 ==> final(buf).view() == old(buf).view(),
        area.width >= 2 && area.height > 0 ==> exists|cs: Seq<(Color, Color)>|
            #![trigger curve_fold(old(buf).view(), old(buf).area, area, g.order(), cs, cs.len() as int)]
            cs.len() == g.order().len() && (forall|d: int|
                0 <= d < cs.len() ==> call_ensures(paint, (d as usize,), #[trigger] cs[d]))
                && final(buf).view() == curve_fold(old(buf).view(), old(buf).area, area, g.order(), cs, cs.len() as int),
{
    if area.width < 2 || area.height == 0 {
        return;
    }
    let right = area.x.saturating_add(area.width);
    let bottom = area.y.saturating_add(area.height);
    let n = g.len();
    let ghost v0 = buf.view();
    let ghost mut cs: Seq<(Color, Color)> = Seq::empty();
    let mut d: usize = 0;
    while d < n
        invariant
            n == g.order().len(),
            buf.wf(),
            buf.area == old(buf).area,
            v0 == old(buf).view(),
            right == sat_add(area.x, area.width),
            bottom == sat_add(area.y, area.height),
            d <= n,
            cs.len() == d,
            forall|c: usize| call_requires(paint, (c,)),
            forall|j: int| 0 <= j < cs.len() ==> call_ensures(paint, (j as usize,), #[trigger] cs[j]),
            buf.view() == curve_fold(v0, buf.area, area, g.order(), cs, cs.len() as int),
        decreases n - d,
    {
        let (gx, gy) = g.d_to_xy(d);
        let twice: u32 = (gx as u16) as u32 * 2;
        let tx: u16 = if twice > 0xffff {
            0xffff
        } else {
            twice as u16
        };
        let x = area.x.saturating_add(tx);
        let y = area.y.saturating_add(gy as u16);
        let colors = paint(d);
        let ghost cs2 = cs.push(colors);
        proof {
            assert forall|j: int| 0 <= j < cs2.len() implies call_ensures(paint, (j as usize,), #[trigger] cs2[j]) by {
                if j < cs.len() {
                    assert(cs2[j] == cs[j]);
                }
            }
            lemma_curve_fold_prefix(v0, buf.area, area, g.order(), cs, cs2, cs.len() as int);
        }
        if !(x as u32 + 1 >= right as u32 || y >= bottom) {
            let (a, b) = ports(g, d);
            let style = Style::default().fg(colors.0).bg(colors.1);
            buf.set_char(x, y, glyph_from_ports(a, b), style);
            let spacer = if has_right(a, b) {
                '─'
            } else {
                ' '
            };
            buf.set_char(x + 1, y, spacer, style);
        }
        proof {
            cs = cs2;
        }
        d = d + 1;
    }
}

/// The curve drawn depends only on the colours of the cells drawn so far.
proof fn lemma_curve_fold_prefix(
    v: Seq<CellView>,
    barea: Rect,
    area: Rect,
    order: Seq<(u32, u32)>,
    cs: Seq<(Color, Color)>,
    cs2: Seq<(Color, Color)>,
    k: int,
)
    requires
        0 <= k <= cs.len(),
        k <= cs2.len(),
        forall|i: int| 0 <= i < k ==> cs[i] == cs2[i],
    ensures
        curve_fold(v, barea, area, order, cs, k) == curve_fold(v, barea, area, order, cs2, k),
    decreases k,
{
    if k > 0 {
        lemma_curve_fold_prefix(v, barea, area, order, cs, cs2, k - 1);
    }
}

/// A light corner rounded when `rounded` holds; any other glyph unchanged.
pub open spec fn round_corner(ch: char, rounded: bool) -> char {
    if !rounded {
        ch
    } else if ch == '┌' {
        '╭'
    } else if ch == '┐' {
        '╮'
    } else if ch == '└' {
        '╰'
    } else if ch == '┘' {
        '╯'
    } else {
        ch
    }
}

/// The strokes rendering the first `n` cells of row `y` from column `x0` of grid `g`,
/// corners rounded when `rounded` holds.
pub open spec fn outline_row_strokes(g: EdgeGrid, x0: int, y: int, n: nat, rounded: bool) -> Seq<Stroke>
    decreases n,
{
    if n == 0 {
        Seq::empty()
    } else {
        let prev = outline_row_strokes(g, x0, y, (n - 1) as nat, rounded);
        match resolve_spec(g.cell_at(x0 + n - 1, y)) {
            Some(ch) => prev.push((x0 + n - 1, y, seq![round_corner(ch, rounded)])),
            None => prev,
        }
    }
}

/// The strokes rendering the first `rows` rows of `area` from grid `g`.
pub open spec fn outline_strokes(g: EdgeGrid, area: Rect, rows: nat, rounded: bool) -> Seq<Stroke>
    decreases rows,
{
    if rows == 0 {
        Seq::empty()
    } else {
        outline_strokes(g, area, (rows - 1) as nat, rounded) + outline_row_strokes(
            g,
            area.x as int,
            area.y + rows - 1,
            area.width as nat,
            rounded,
        )
    }
}

/// Trace the outline of the region `inside` holds of, within `area`, as box-drawing
/// lines on the ring of cells just outside it: a horizontal arm where two outside
/// cells side by side have the region on exactly one side, a vertical one likewise;
/// light corners are rounded when the style asks.  The region's own cells are not
/// drawn.
pub fn draw_region_outline<F: Fn(u16, u16) -> bool>(buf: &mut Buffer, area: Rect, inside: F, style: &BorderStyle)
    requires
        old(buf).wf(),
        area.fits(),
        forall|x: u16, y: u16| call_requires(inside, (x, y)),
        decides(inside),
    ensures
        final(buf).wf(),
        final(buf).area == old(buf).area,
        area.width == 0 || area.height == 0 ==> final(buf).view() == old(buf).view(),
        exists|g: EdgeGrid|
            #![trigger g.region()]
            g.wf() && g.region() == area && (forall|x: int, y: int|
                in_area(area, x, y) ==> #[trigger] g.cell_at(x, y) == ops_cell(
                    area,
                    outline_ops(inside, area, area.height as int),
                    style.weight,
                    x,
                    y,
                    bare_cell(),
                )) && final(buf).view() == put_strokes(
                old(buf).view(),
                old(buf).area,
                outline_strokes(
                    g,
                    area,
                    area.height as nat,
                    style.weight == LineWeight::Light && style.corners == CornerStyle::Rounded,
                ),
                style.style,
            ),
{
    let mut grid = EdgeGrid::new(area);
    if area.width == 0 || area.height == 0 {
        proof {
            assert(outline_strokes(grid, area, area.height as nat, style.weight == LineWeight::Light
                && style.corners == CornerStyle::Rounded) =~= Seq::<Stroke>::empty()) by {
                if area.height > 0 {
                    lemma_outline_empty_rows(grid, area, area.height as nat, style.weight == LineWeight::Light
                        && style.corners == CornerStyle::Rounded);
                }
            }
            assert(grid.region() == area);
        }
        return;
    }
    let x0: i64 = area.x as i64;
    let y0: i64 = area.y as i64;
    let x1: i64 = x0 + area.width as i64;
    let y1: i64 = y0 + area.height as i64;
    let ghost g0 = grid;
    proof {
        lemma_grid_after_empty(g0, style.weight);
        assert(outline_ops(inside, area, 0) =~= Seq::<LineOp>::empty());
    }
    let mut y = y0;
    while y < y1
        invariant
            decides(inside),
            forall|x: int, y: int| in_area(area, x, y) ==> #[trigger] g0.cell_at(x, y) == bare_cell(),
            g0.region() == area,
            grid_after(g0, grid, outline_ops(inside, area, y - y0), style.weight),
            grid.wf(),
            grid.region() == area,
            area.fits(),
            x1 == area.x + area.width,
            y1 == area.y + area.height,
            x0 == area.x,
            y0 == area.y,
            y0 <= y <= y1,
            forall|px: u16, py: u16| call_requires(inside, (px, py)),
        decreases y1 - y,
    {
        let mut x = x0;
        proof {
            assert(outline_ops(inside, area, y - y0) + outline_row_ops(inside, x0 as int, y as int, 0) =~= outline_ops(
                inside,
                area,
                y - y0,
            ));
        }
        while x < x1
            invariant
                decides(inside),
                g0.region() == area,
                grid_after(
                    g0,
                    grid,
                    outline_ops(inside, area, y - y0) + outline_row_ops(inside, x0 as int, y as int, x - x0),
                    style.weight,
                ),
                grid.wf(),
                grid.region() == area,
                area.fits(),
                x1 == area.x + area.width,
                y1 == area.y + area.height,
                x0 <= x <= x1,
                y0 <= y < y1,
                y0 == area.y,
                x0 == area.x,
                forall|px: u16, py: u16| call_requires(inside, (px, py)),
            decreases x1 - x,
        {
            let ghost ga = grid;
            let ghost pre = outline_ops(inside, area, y - y0) + outline_row_ops(inside, x0 as int, y as int, x - x0);
            let ghost ops = outline_cell_ops(inside, x as int, y as int);
            let ghost hs: Seq<LineOp> = if !held(inside, x as int, y as int) && !held(inside, x + 1, y as int) && ((held(inside, x as int, y - 1) || held(
                inside,
                x + 1,
                y - 1,
            )) != (held(inside, x as int, y + 1) || held(inside, x + 1, y + 1))) {
                seq![(false, x as u16, (x + 1) as u16, y as u16)]
            } else {
                Seq::empty()
            };
            let ghost vs: Seq<LineOp> = if !held(inside, x as int, y as int) && !held(inside, x as int, y + 1) && ((held(inside, x - 1, y as int) || held(
                inside,
                x - 1,
                y + 1,
            )) != (held(inside, x + 1, y as int) || held(inside, x + 1, y + 1))) {
                seq![(true, y as u16, (y + 1) as u16, x as u16)]
            } else {
                Seq::empty()
            };
            let mut hdone = false;
            if !ins(&inside, x, y) && !ins(&inside, x + 1, y) {
                let above = ins(&inside, x, y - 1) || ins(&inside, x + 1, y - 1);
                let below = ins(&inside, x, y + 1) || ins(&inside, x + 1, y + 1);
                if above != below {
                    grid.add_h_line(x as u16, x as u16 + 1, y as u16, style.weight);
                    hdone = true;
                    proof {
                        lemma_grid_after_line(ga, grid, (false, x as u16, (x + 1) as u16, y as u16), style.weight);
                    }
                }
            }
            proof {
                if !hdone {
                    lemma_grid_after_empty(ga, style.weight);
                }
                assert(grid_after(ga, grid, hs, style.weight));
            }
            let ghost gb = grid;
            let mut vdone = false;
            if !ins(&inside, x, y) && !ins(&inside, x, y + 1) {
                let left = ins(&inside, x - 1, y) || ins(&inside, x - 1, y + 1);
                let right = ins(&inside, x + 1, y) || ins(&inside, x + 1, y + 1);
                if left != right {
                    grid.add_v_line(y as u16, y as u16 + 1, x as u16, style.weight);
                    vdone = true;
                    proof {
                        lemma_grid_after_line(gb, grid, (true, y as u16, (y + 1) as u16, x as u16), style.weight);
                    }
                }
            }
            proof {
                if !vdone {
                    lemma_grid_after_empty(gb, style.weight);
                }
                assert(grid_after(gb, grid, vs, style.weight));
                lemma_grid_after_trans(g0, ga, gb, pre, hs, style.weight);
                lemma_grid_after_trans(g0, gb, grid, pre + hs, vs, style.weight);
                assert(ops == hs + vs);
                assert(pre + hs + vs =~= outline_ops(inside, area, y - y0) + outline_row_ops(
                    inside,
                    x0 as int,
                    y as int,
                    x + 1 - x0,
                ));
            }
            x = x + 1;
        }
        proof {
            assert(outline_ops(inside, area, y + 1 - y0) =~= outline_ops(inside, area, y - y0) + outline_row_ops(
                inside,
                x0 as int,
                y as int,
                x - x0,
            ));
        }
        y = y + 1;
    }
    proof {
        assert forall|x: int, y: int| in_area(area, x, y) implies #[trigger] grid.cell_at(x, y) == ops_cell(
            area,
            outline_ops(inside, area, area.height as int),
            style.weight,
            x,
            y,
            bare_cell(),
        ) by {
            assert(g0.cell_at(x, y) == bare_cell());
        }
    }
    let rounded = match (style.weight, style.corners) {
        (LineWeight::Light, CornerStyle::Rounded) => true,
        _ => false,
    };
    let ghost g = grid;
    let ghost v0 = buf.view();
    let ghost barea = buf.area;
    let mut row = area.y;
    while row < area.y + area.height
        invariant
            buf.wf(),
            buf.area == barea,
            area.fits(),
            grid == g,
            g.wf(),
            g.region() == area,
            area.y <= row <= area.y + area.height,
            rounded == (style.weight == LineWeight::Light && style.corners == CornerStyle::Rounded),
            buf.view() == put_strokes(v0, barea, outline_strokes(g, area, (row - area.y) as nat, rounded), style.style),
        decreases area.y + area.height - row,
    {
        let mut col = area.x;
        while col < area.x + area.width
            invariant
                buf.wf(),
                buf.area == barea,
                area.fits(),
                grid == g,
                g.wf(),
                g.region() == area,
                area.y <= row < area.y + area.height,
                area.x <= col <= area.x + area.width,
                buf.view() == put_strokes(
                    v0,
                    barea,
                    outline_strokes(g, area, (row - area.y) as nat, rounded) + outline_row_strokes(
                        g,
                        area.x as int,
                        row as int,
                        (col - area.x) as nat,
                        rounded,
                    ),
                    style.style,
                ),
            decreases area.x + area.width - col,
        {
            let ghost before = outline_strokes(g, area, (row - area.y) as nat, rounded) + outline_row_strokes(
                g,
                area.x as int,
                row as int,
                (col - area.x) as nat,
                rounded,
            );
            let ghost after = outline_strokes(g, area, (row - area.y) as nat, rounded) + outline_row_strokes(
                g,
                area.x as int,
                row as int,
                (col + 1 - area.x) as nat,
                rounded,
            );
            match grid.get(col, row) {
                Some(cell) => match resolve(cell) {
                    Some(ch) => {
                        let ch2 = if rounded {
                            if ch == '┌' {
                                '╭'
                            } else if ch == '┐' {
                                '╮'
                            } else if ch == '└' {
                                '╰'
                            } else if ch == '┘' {
                                '╯'
                            } else {
                                ch
                            }
                        } else {
                            ch
                        };
                        buf.set_char(col, row, ch2, style.style);
                        proof {
                            assert(after =~= before.push((col as int, row as int, seq![ch2])));
                            assert(after.drop_last() =~= before);
                        }
                    },
                    None => {
                        proof {
                            assert(after =~= before);
                        }
                    },
                },
                None => {},
            }
            col = col + 1;
        }
        proof {
            assert(outline_strokes(g, area, (row + 1 - area.y) as nat, rounded) =~= outline_strokes(
                g,
                area,
                (row - area.y) as nat,
                rounded,
            ) + outline_row_strokes(g, area.x as int, row as int, area.width as nat, rounded));
        }
        row = row + 1;
    }
}

/// A grid over an area with no columns renders nothing.
proof fn lemma_outline_empty_rows(g: EdgeGrid, area: Rect, rows: nat, rounded: bool)
    requires
        area.width == 0,
    ensures
        outline_strokes(g, area, rows, rounded) =~= Seq::<Stroke>::empty(),
    decreases rows,
{
    if rows > 0 {
        lemma_outline_empty_rows(g, area, (rows - 1) as nat, rounded);
    }
}

/// `f` answers each point one way: whatever it returns is whether it can return `true`.
pub open spec fn decides<F: Fn(u16, u16) -> bool>(f: F) -> bool {
    forall|x: u16, y: u16, b: bool| #[trigger] call_ensures(f, (x, y), b) ==> b == call_ensures(f, (x, y), true)
}

/// The region `inside` holds `(x, y)`: a point of the coordinate space for which it
/// answers `true`.
pub open spec fn held<F: Fn(u16, u16) -> bool>(inside: F, x: int, y: int) -> bool {
    0 <= x <= 0xffff && 0 <= y <= 0xffff && call_ensures(inside, (x as u16, y as u16), true)
}

/// Whether `(x, y)` is a cell of the coordinate space that the region holds.
fn ins<F: Fn(u16, u16) -> bool>(inside: &F, x: i64, y: i64) -> (r: bool)
    requires
        forall|px: u16, py: u16| call_requires(*inside, (px, py)),
        decides(*inside),
    ensures
        if 0 <= x <= 0xffff && 0 <= y <= 0xffff {
            call_ensures(*inside, (x as u16, y as u16), r)
        } else {
            !r
        },
        r == held(*inside, x as int, y as int),
{
    if x < 0 || x > 0xffff || y < 0 || y > 0xffff {
        return false;
    }
    inside(x as u16, y as u16)
}

/// The outline lines laid for cell `(x, y)`: a horizontal one to the next column when
/// the cell and its right neighbour are outside and the region lies on exactly one
/// side of the pair vertically, a vertical one to the next row likewise.
pub open spec fn outline_cell_ops<F: Fn(u16, u16) -> bool>(inside: F, x: int, y: int) -> Seq<LineOp> {
    let h: Seq<LineOp> = if !held(inside, x, y) && !held(inside, x + 1, y) && ((held(inside, x, y - 1) || held(
        inside,
        x + 1,
        y - 1,
    )) != (held(inside, x, y + 1) || held(inside, x + 1, y + 1))) {
        seq![(false, x as u16, (x + 1) as u16, y as u16)]
    } else {
        Seq::empty()
    };
    let v: Seq<LineOp> = if !held(inside, x, y) && !held(inside, x, y + 1) && ((held(inside, x - 1, y) || held(
        inside,
        x - 1,
        y + 1,
    )) != (held(inside, x + 1, y) || held(inside, x + 1, y + 1))) {
        seq![(true, y as u16, (y + 1) as u16, x as u16)]
    } else {
        Seq::empty()
    };
    h + v
}

/// The outline lines of the first `n` cells of row `y` from column `x0`.
pub open spec fn outline_row_ops<F: Fn(u16, u16) -> bool>(inside: F, x0: int, y: int, n: int) -> Seq<LineOp>
    decreases n,
{
    if n <= 0 {
        Seq::empty()
    } else {
        outline_row_ops(inside, x0, y, n - 1) + outline_cell_ops(inside, x0 + n - 1, y)
    }
}

/// The outline lines of the first `rows` rows of `area`, row by row.
pub open spec fn outline_ops<F: Fn(u16, u16) -> bool>(inside: F, area: Rect, rows: int) -> Seq<LineOp>
    decreases rows,
{
    if rows <= 0 {
        Seq::empty()
    } else {
        outline_ops(inside, area, rows - 1) + outline_row_ops(inside, area.x as int, area.y + rows - 1, area.width as int)
    }
}
} // verus!
