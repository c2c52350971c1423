use vstd::prelude::*;

verus! {

/// Largest coordinate a Gilbert rectangle may reach.
pub open spec fn coord_bound() -> int {
    0x3FFF_FFFE
}

pub open spec fn sgn_spec(v: int) -> int {
    if v > 0 {
        1
    } else if v < 0 {
        -1
    } else {
        0
    }
}

pub open spec fn iabs(v: int) -> int {
    if v < 0 {
        -v
    } else {
        v
    }
}

/// Each axis vector is grid-aligned: at most one non-zero component.
pub open spec fn axes_ok(ax: int, ay: int, bx: int, by: int) -> bool {
    (ax == 0 || ay == 0) && (bx == 0 || by == 0)
}

/// The first (halved) major step of a split along the major axis.
pub open spec fn split_major(ax: int, ay: int) -> (int, int) {
    let w = iabs(ax + ay);
    let ax2 = ax / 2;
    let ay2 = ay / 2;
    if iabs(ax2 + ay2) % 2 != 0 && w > 2 {
        (ax2 + sgn_spec(ax), ay2 + sgn_spec(ay))
    } else {
        (ax2, ay2)
    }
}

/// The Gilbert visiting order of the rectangle rooted at `(x, y)`, spanned by the
/// major axis vector `(ax, ay)` and the minor axis vector `(bx, by)`: a single run
/// when either extent is 1; otherwise the rectangle is split in two along the major
/// axis when it is more than 1.5 times as long as it is wide, else into three pieces
/// (down the minor axis, across, and back up), each piece ordered the same way.
pub open spec fn gseq(x: int, y: int, ax: int, ay: int, bx: int, by: int) -> Seq<(int, int)>
    decreases iabs(ax + ay) + iabs(bx + by),
{
    let w = iabs(ax + ay);
    let h = iabs(bx + by);
    let dax = sgn_spec(ax);
    let day = sgn_spec(ay);
    let dbx = sgn_spec(bx);
    let dby = sgn_spec(by);
    if !axes_ok(ax, ay, bx, by) || w == 0 || h == 0 {
        Seq::empty()
    } else if h == 1 {
        Seq::new(w as nat, |i: int| (x + i * dax, y + i * day))
    } else if w == 1 {
        Seq::new(h as nat, |i: int| (x + i * dbx, y + i * dby))
    } else {
        let ax2 = ax / 2;
        let ay2 = ay / 2;
        let bx2 = bx / 2;
        let by2 = by / 2;
        if 2 * w > 3 * h {
            let (ax2, ay2) = split_major(ax, ay);
            gseq(x, y, ax2, ay2, bx, by) + gseq(x + ax2, y + ay2, ax - ax2, ay - ay2, bx, by)
        } else {
            let (bx2, by2) = split_major(bx, by);
            gseq(x, y, bx2, by2, ax2, ay2) + gseq(x + bx2, y + by2, ax, ay, bx - bx2, by - by2)
                + gseq(
                x + (ax - dax) + (bx2 - dbx),
                y + (ay - day) + (by2 - dby),
                -bx2,
                -by2,
                -(ax - ax2),
                -(ay - ay2),
            )
        }
    }
}

/// A cell within `[0, coord_bound()]` on both axes.
pub open spec fn cell_ok(px: int, py: int) -> bool {
    0 <= px <= coord_bound() && 0 <= py <= coord_bound()
}

/// A well-formed rectangle: aligned non-empty axes and all four corners in range.
pub open spec fn box_ok(x: int, y: int, ax: int, ay: int, bx: int, by: int) -> bool {
    let dax = sgn_spec(ax);
    let day = sgn_spec(ay);
    let dbx = sgn_spec(bx);
    let dby = sgn_spec(by);
    &&& axes_ok(ax, ay, bx, by)
    &&& iabs(ax + ay) >= 1
    &&& iabs(bx + by) >= 1
    &&& cell_ok(x, y)
    &&& cell_ok(x + (ax - dax), y + (ay - day))
    &&& cell_ok(x + (bx - dbx), y + (by - dby))
    &&& cell_ok(x + (ax - dax) + (bx - dbx), y + (ay - day) + (by - dby))
}

/// The cells of a spec order as `u32` pairs.
pub open spec fn as_cells(s: Seq<(int, int)>) -> Seq<(u32, u32)> {
    s.map_values(|p: (int, int)| (p.0 as u32, p.1 as u32))
}

/// `-1`, `0` or `+1`: the sign of `x`.
fn sgn(x: i32) -> (r: i32)
    ensures
        r == sgn_spec(x as int),
{
    (if x > 0 {
        1i32
    } else {
        0
    }) - (if x < 0 {
        1i32
    } else {
        0
    })
}

/// `v` halved, rounding toward negative infinity (an arithmetic shift right by one).
fn half(v: i32) -> (r: i32)
    requires
        v > i32::MIN,
    ensures
        r == v as int / 2,
{
    if v >= 0 {
        v / 2
    } else {
        (v - 1) / 2
    }
}

fn iabs_exec(v: i32) -> (r: i32)
    requires
        v > i32::MIN,
    ensures
        r == iabs(v as int),
{
    if v < 0 {
        -v
    } else {
        v
    }
}

/// The straight run of `n` cells from `(x, y)` in unit steps `(dx, dy)`.
pub open spec fn run_seq(x: int, y: int, dx: int, dy: int, n: int) -> Seq<(int, int)> {
    Seq::new(n as nat, |i: int| (x + i * dx, y + i * dy))
}

/// Append a straight run of `n` cells from `(x, y)` in unit steps `(dx, dy)`.
fn push_run(x: i32, y: i32, dx: i32, dy: i32, n: i32, out: &mut Vec<(u32, u32)>)
    requires
        n >= 1,
        -1 <= dx <= 1,
        -1 <= dy <= 1,
        cell_ok(x as int, y as int),
        cell_ok(x + (n - 1) * dx, y + (n - 1) * dy),
    ensures
        final(out)@ == old(out)@ + as_cells(run_seq(x as int, y as int, dx as int, dy as int, n as int)),
{
    let ghost g = run_seq(x as int, y as int, dx as int, dy as int, n as int);
    let ghost before = out@;
    let mut px = x;
    let mut py = y;
    let mut i: i32 = 0;
    while i < n
        invariant
            n >= 1,
            -1 <= dx <= 1,
            -1 <= dy <= 1,
            cell_ok(x as int, y as int),
            cell_ok(x + (n - 1) * dx, y + (n - 1) * dy),
            g == run_seq(x as int, y as int, dx as int, dy as int, n as int),
            0 <= i <= n,
            px == x + i * dx,
            py == y + i * dy,
            out@ == before + as_cells(g.subrange(0, i as int)),
        decreases n - i,
    {
        proof {
            assert(g.subrange(0, i + 1) =~= g.subrange(0, i as int).push(g[i as int]));
            assert(as_cells(g.subrange(0, i + 1)) =~= as_cells(g.subrange(0, i as int)).push(
                (px as u32, py as u32),
            ));
            assert((i + 1) * dx == i * dx + dx) by (nonlinear_arith);
            assert((i + 1) * dy == i * dy + dy) by (nonlinear_arith);
            assert(x + i * dx <= x + (n - 1) * dx || x + i * dx <= x) by (nonlinear_arith)
                requires
                    0 <= i < n,
                    -1 <= dx <= 1,
            ;
            assert(x + i * dx >= x + (n - 1) * dx || x + i * dx >= x) by (nonlinear_arith)
                requires
                    0 <= i < n,
                    -1 <= dx <= 1,
            ;
            assert(y + i * dy <= y + (n - 1) * dy || y + i * dy <= y) by (nonlinear_arith)
                requires
                    0 <= i < n,
                    -1 <= dy <= 1,
            ;
            assert(y + i * dy >= y + (n - 1) * dy || y + i * dy >= y) by (nonlinear_arith)
                requires
                    0 <= i < n,
                    -1 <= dy <= 1,
            ;
        }
        out.push((px as u32, py as u32));
        px = px + dx;
        py = py + dy;
        i = i + 1;
    }
    proof {
        assert(g.subrange(0, n as int) =~= g);
    }
}

/// The two-way split of a rectangle more than 1.5 times longer than wide: both
/// halves are well-formed, and the order is the first half's then the second's.
proof fn lemma_split_two(x: int, y: int, ax: int, ay: int, bx: int, by: int)
    requires
        box_ok(x, y, ax, ay, bx, by),
        iabs(ax + ay) >= 2,
        iabs(bx + by) >= 2,
        2 * iabs(ax + ay) > 3 * iabs(bx + by),
    ensures
        ({
            let (ax2, ay2) = split_major(ax, ay);
            &&& box_ok(x, y, ax2, ay2, bx, by)
            &&& box_ok(x + ax2, y + ay2, ax - ax2, ay - ay2, bx, by)
            &&& gseq(x, y, ax, ay, bx, by) == gseq(x, y, ax2, ay2, bx, by) + gseq(
                x + ax2,
                y + ay2,
                ax - ax2,
                ay - ay2,
                bx,
                by,
            )
        }),
{
}

/// `v` lies between 0 and `e`, inclusive, on either side.
pub open spec fn between(v: int, e: int) -> bool {
    (0 <= v <= e) || (e <= v <= 0)
}

/// Every cell of a well-formed box is in range: any offset along the major axis
/// plus any offset along the minor axis from the root stays inside the corners.
proof fn lemma_box_cell(
    x: int,
    y: int,
    ax: int,
    ay: int,
    bx: int,
    by: int,
    px: int,
    py: int,
    qx: int,
    qy: int,
)
    requires
        box_ok(x, y, ax, ay, bx, by),
        between(px, ax - sgn_spec(ax)),
        between(py, ay - sgn_spec(ay)),
        between(qx, bx - sgn_spec(bx)),
        between(qy, by - sgn_spec(by)),
    ensures
        cell_ok(x + px + qx, y + py + qy),
{
}

/// Halving (and the odd-split adjustment) keeps an axis's direction and stays within it.
proof fn lemma_halves(ax: int, ay: int)
    requires
        ax == 0 || ay == 0,
        iabs(ax + ay) >= 2,
    ensures
        sgn_spec(ax / 2) == sgn_spec(ax),
        sgn_spec(ay / 2) == sgn_spec(ay),
        between(ax / 2, ax - sgn_spec(ax)),
        between(ay / 2, ay - sgn_spec(ay)),
        between(ax / 2 - sgn_spec(ax), ax - sgn_spec(ax)),
        between(ay / 2 - sgn_spec(ay), ay - sgn_spec(ay)),
        sgn_spec(split_major(ax, ay).0) == sgn_spec(ax),
        sgn_spec(split_major(ax, ay).1) == sgn_spec(ay),
        between(split_major(ax, ay).0, ax - sgn_spec(ax)),
        between(split_major(ax, ay).1, ay - sgn_spec(ay)),
        between(split_major(ax, ay).0 - sgn_spec(ax), ax - sgn_spec(ax)),
        between(split_major(ax, ay).1 - sgn_spec(ay), ay - sgn_spec(ay)),
        iabs(split_major(ax, ay).0 + split_major(ax, ay).1) >= 1,
        iabs(ax - split_major(ax, ay).0 + ay - split_major(ax, ay).1) >= 1,
        iabs(ax / 2 + ay / 2) >= 1,
        iabs(ax - ax / 2 + ay - ay / 2) >= 1,
{
}

/// The first piece of a three-way split is well-formed.
proof fn lemma_piece_one(x: int, y: int, ax: int, ay: int, bx: int, by: int)
    requires
        box_ok(x, y, ax, ay, bx, by),
        iabs(ax + ay) >= 2,
        iabs(bx + by) >= 2,
    ensures
        box_ok(x, y, split_major(bx, by).0, split_major(bx, by).1, ax / 2, ay / 2),
{
    lemma_halves(ax, ay);
    lemma_halves(bx, by);
    let (bx2, by2) = split_major(bx, by);
    let dax = sgn_spec(ax);
    let day = sgn_spec(ay);
    let dbx = sgn_spec(bx);
    let dby = sgn_spec(by);
    lemma_box_cell(x, y, ax, ay, bx, by, 0, 0, bx2 - dbx, by2 - dby);
    lemma_box_cell(x, y, ax, ay, bx, by, ax / 2 - dax, ay / 2 - day, 0, 0);
    lemma_box_cell(x, y, ax, ay, bx, by, ax / 2 - dax, ay / 2 - day, bx2 - dbx, by2 - dby);
}

/// The second piece of a three-way split is well-formed.
proof fn lemma_piece_two(x: int, y: int, ax: int, ay: int, bx: int, by: int)
    requires
        box_ok(x, y, ax, ay, bx, by),
        iabs(ax + ay) >= 2,
        iabs(bx + by) >= 2,
    ensures
        box_ok(
            x + split_major(bx, by).0,
            y + split_major(bx, by).1,
            ax,
            ay,
            bx - split_major(bx, by).0,
            by - split_major(bx, by).1,
        ),
{
    lemma_halves(ax, ay);
    lemma_halves(bx, by);
    let (bx2, by2) = split_major(bx, by);
    let dax = sgn_spec(ax);
    let day = sgn_spec(ay);
    let dbx = sgn_spec(bx);
    let dby = sgn_spec(by);
    lemma_box_cell(x, y, ax, ay, bx, by, 0, 0, bx2, by2);
    lemma_box_cell(x, y, ax, ay, bx, by, ax - dax, ay - day, bx2, by2);
    lemma_box_cell(x, y, ax, ay, bx, by, 0, 0, bx - dbx, by - dby);
    lemma_box_cell(x, y, ax, ay, bx, by, ax - dax, ay - day, bx - dbx, by - dby);
}

/// The third piece of a three-way split is well-formed.
proof fn lemma_piece_three(x: int, y: int, ax: int, ay: int, bx: int, by: int)
    requires
        box_ok(x, y, ax, ay, bx, by),
        iabs(ax + ay) >= 2,
        iabs(bx + by) >= 2,
    ensures
        box_ok(
            x + (ax - sgn_spec(ax)) + (split_major(bx, by).0 - sgn_spec(bx)),
            y + (ay - sgn_spec(ay)) + (split_major(bx, by).1 - sgn_spec(by)),
            -split_major(bx, by).0,
            -split_major(bx, by).1,
            -(ax - ax / 2),
            -(ay - ay / 2),
        ),
{
    lemma_halves(ax, ay);
    lemma_halves(bx, by);
    let (bx2, by2) = split_major(bx, by);
    let dax = sgn_spec(ax);
    let day = sgn_spec(ay);
    let dbx = sgn_spec(bx);
    let dby = sgn_spec(by);
    lemma_box_cell(x, y, ax, ay, bx, by, ax - dax, ay - day, bx2 - dbx, by2 - dby);
    lemma_box_cell(x, y, ax, ay, bx, by, ax - dax, ay - day, 0, 0);
    lemma_box_cell(x, y, ax, ay, bx, by, ax / 2, ay / 2, bx2 - dbx, by2 - dby);
    lemma_box_cell(x, y, ax, ay, bx, by, ax / 2, ay / 2, 0, 0);
}

/// The three pieces of a three-way split are well-formed.
proof fn lemma_split_three_boxes(x: int, y: int, ax: int, ay: int, bx: int, by: int)
    requires
        box_ok(x, y, ax, ay, bx, by),
        iabs(ax + ay) >= 2,
        iabs(bx + by) >= 2,
    ensures
        ({
            let ax2 = ax / 2;
            let ay2 = ay / 2;
            let (bx2, by2) = split_major(bx, by);
            let dax = sgn_spec(ax);
            let day = sgn_spec(ay);
            let dbx = sgn_spec(bx);
            let dby = sgn_spec(by);
            &&& box_ok(x, y, bx2, by2, ax2, ay2)
            &&& box_ok(x + bx2, y + by2, ax, ay, bx - bx2, by - by2)
            &&& box_ok(
                x + (ax - dax) + (bx2 - dbx),
                y + (ay - day) + (by2 - dby),
                -bx2,
                -by2,
                -(ax - ax2),
                -(ay - ay2),
            )
        }),
{
    lemma_piece_one(x, y, ax, ay, bx, by);
    lemma_piece_two(x, y, ax, ay, bx, by);
    lemma_piece_three(x, y, ax, ay, bx, by);
}

/// The three-way split of a rectangle at most 1.5 times longer than wide orders it as
/// its pieces' orders in turn.
proof fn lemma_split_three(x: int, y: int, ax: int, ay: int, bx: int, by: int)
    requires
        box_ok(x, y, ax, ay, bx, by),
        iabs(ax + ay) >= 2,
        iabs(bx + by) >= 2,
        2 * iabs(ax + ay) <= 3 * iabs(bx + by),
    ensures
        ({
            let ax2 = ax / 2;
            let ay2 = ay / 2;
            let (bx2, by2) = split_major(bx, by);
            let dax = sgn_spec(ax);
            let day = sgn_spec(ay);
            let dbx = sgn_spec(bx);
            let dby = sgn_spec(by);
            gseq(x, y, ax, ay, bx, by) == gseq(x, y, bx2, by2, ax2, ay2) + gseq(
                x + bx2,
                y + by2,
                ax,
                ay,
                bx - bx2,
                by - by2,
            ) + gseq(
                x + (ax - dax) + (bx2 - dbx),
                y + (ay - day) + (by2 - dby),
                -bx2,
                -by2,
                -(ax - ax2),
                -(ay - ay2),
            )
        }),
{
}

/// Append the Gilbert order of the rectangle at `(x, y)` spanned by `(ax, ay)` and
/// `(bx, by)` to `out`.
fn gen2d(x: i32, y: i32, ax: i32, ay: i32, bx: i32, by: i32, out: &mut Vec<(u32, u32)>)
    requires
        box_ok(x as int, y as int, ax as int, ay as int, bx as int, by as int),
    ensures
        final(out)@ == old(out)@ + as_cells(
            gseq(x as int, y as int, ax as int, ay as int, bx as int, by as int),
        ),
    decreases iabs(ax + ay) + iabs(bx + by), 1int,
{
    let w = iabs_exec(ax + ay);
    let h = iabs_exec(bx + by);
    let dax = sgn(ax);
    let day = sgn(ay);
    let dbx = sgn(bx);
    let dby = sgn(by);
    if h == 1 {
        proof {
            assert(gseq(x as int, y as int, ax as int, ay as int, bx as int, by as int) =~= run_seq(
                x as int,
                y as int,
                dax as int,
                day as int,
                w as int,
            ));
        }
        push_run(x, y, dax, day, w, out);
        return;
    }
    if w == 1 {
        proof {
            assert(gseq(x as int, y as int, ax as int, ay as int, bx as int, by as int) =~= run_seq(
                x as int,
                y as int,
                dbx as int,
                dby as int,
                h as int,
            ));
        }
        push_run(x, y, dbx, dby, h, out);
        return;
    }
    if 2 * (w as i64) > 3 * (h as i64) {
        gen2d_two(x, y, ax, ay, bx, by, out);
    } else {
        gen2d_three(x, y, ax, ay, bx, by, out);
    }
}

/// The two-way split step of [`gen2d`].
fn gen2d_two(x: i32, y: i32, ax: i32, ay: i32, bx: i32, by: i32, out: &mut Vec<(u32, u32)>)
    requires
        box_ok(x as int, y as int, ax as int, ay as int, bx as int, by as int),
        iabs(ax + ay) >= 2,
        iabs(bx + by) >= 2,
        2 * iabs(ax + ay) > 3 * iabs(bx + by),
    ensures
        final(out)@ == old(out)@ + as_cells(
            gseq(x as int, y as int, ax as int, ay as int, bx as int, by as int),
        ),
    decreases iabs(ax + ay) + iabs(bx + by), 0int,
{
    let w = iabs_exec(ax + ay);
    let dax = sgn(ax);
    let day = sgn(ay);
    let mut ax2 = half(ax);
    let mut ay2 = half(ay);
    let w2 = iabs_exec(ax2 + ay2);
    if w2 % 2 != 0 && w > 2 {
        ax2 = ax2 + dax;
        ay2 = ay2 + day;
    }
    proof {
        lemma_split_two(x as int, y as int, ax as int, ay as int, bx as int, by as int);
    }
    gen2d(x, y, ax2, ay2, bx, by, out);
    gen2d(x + ax2, y + ay2, ax - ax2, ay - ay2, bx, by, out);
    proof {
        let s1 = gseq(x as int, y as int, ax2 as int, ay2 as int, bx as int, by as int);
        let s2 = gseq(
            (x + ax2) as int,
            (y + ay2) as int,
            (ax - ax2) as int,
            (ay - ay2) as int,
            bx as int,
            by as int,
        );
        assert(as_cells(s1 + s2) =~= as_cells(s1) + as_cells(s2));
    }
}

/// The three-way split step of [`gen2d`].
#[verifier::rlimit(80)]
fn gen2d_three(x: i32, y: i32, ax: i32, ay: i32, bx: i32, by: i32, out: &mut Vec<(u32, u32)>)
    requires
        box_ok(x as int, y as int, ax as int, ay as int, bx as int, by as int),
        iabs(ax + ay) >= 2,
        iabs(bx + by) >= 2,
        2 * iabs(ax + ay) <= 3 * iabs(bx + by),
    ensures
        final(out)@ == old(out)@ + as_cells(
            gseq(x as int, y as int, ax as int, ay as int, bx as int, by as int),
        ),
    decreases iabs(ax + ay) + iabs(bx + by), 0int,
{
    let h = iabs_exec(bx + by);
    let dax = sgn(ax);
    let day = sgn(ay);
    let dbx = sgn(bx);
    let dby = sgn(by);
    let ax2 = half(ax);
    let ay2 = half(ay);
    let mut bx2 = half(bx);
    let mut by2 = half(by);
    let h2 = iabs_exec(bx2 + by2);
    if h2 % 2 != 0 && h > 2 {
        bx2 = bx2 + dbx;
        by2 = by2 + dby;
    }
    proof {
        lemma_split_three(x as int, y as int, ax as int, ay as int, bx as int, by as int);
        lemma_split_three_boxes(x as int, y as int, ax as int, ay as int, bx as int, by as int);
    }
    gen2d(x, y, bx2, by2, ax2, ay2, out);
    gen2d(x + bx2, y + by2, ax, ay, bx - bx2, by - by2, out);
    gen2d(
        x + (ax - dax) + (bx2 - dbx),
        y + (ay - day) + (by2 - dby),
        -bx2,
        -by2,
        -(ax - ax2),
        -(ay - ay2),
        out,
    );
    proof {
        let s1 = gseq(x as int, y as int, bx2 as int, by2 as int, ax2 as int, ay2 as int);
        let s2 = gseq(
            (x + bx2) as int,
            (y + by2) as int,
            ax as int,
            ay as int,
            (bx - bx2) as int,
            (by - by2) as int,
        );
        let s3 = gseq(
            (x + (ax - dax) + (bx2 - dbx)) as int,
            (y + (ay - day) + (by2 - dby)) as int,
            -bx2 as int,
            -by2 as int,
            -(ax - ax2) as int,
            -(ay - ay2) as int,
        );
        assert(as_cells(s1 + s2 + s3) =~= as_cells(s1) + as_cells(s2) + as_cells(s3));
    }
}

/// A Gilbert order holds exactly `|a| · |b|` cells.
pub proof fn lemma_gseq_len(x: int, y: int, ax: int, ay: int, bx: int, by: int)
    requires
        box_ok(x, y, ax, ay, bx, by),
    ensures
        gseq(x, y, ax, ay, bx, by).len() == iabs(ax + ay) * iabs(bx + by),
    decreases iabs(ax + ay) + iabs(bx + by), 1int,
{
    let w = iabs(ax + ay);
    let h = iabs(bx + by);
    if h == 1 {
        assert(w * h == w) by (nonlinear_arith)
            requires
                h == 1,
        ;
    } else if w == 1 {
        assert(w * h == h) by (nonlinear_arith)
            requires
                w == 1,
        ;
    } else if 2 * w > 3 * h {
        lemma_len_two(x, y, ax, ay, bx, by);
    } else {
        lemma_len_three(x, y, ax, ay, bx, by);
    }
}

proof fn lemma_len_two(x: int, y: int, ax: int, ay: int, bx: int, by: int)
    requires
        box_ok(x, y, ax, ay, bx, by),
        iabs(ax + ay) >= 2,
        iabs(bx + by) >= 2,
        2 * iabs(ax + ay) > 3 * iabs(bx + by),
    ensures
        gseq(x, y, ax, ay, bx, by).len() == iabs(ax + ay) * iabs(bx + by),
    decreases iabs(ax + ay) + iabs(bx + by), 0int,
{
    let w = iabs(ax + ay);
    let h = iabs(bx + by);
    lemma_split_two(x, y, ax, ay, bx, by);
    let (ax2, ay2) = split_major(ax, ay);
    lemma_halves(ax, ay);
    lemma_gseq_len(x, y, ax2, ay2, bx, by);
    lemma_gseq_len(x + ax2, y + ay2, ax - ax2, ay - ay2, bx, by);
    let w2 = iabs(ax2 + ay2);
    assert(iabs(ax - ax2 + (ay - ay2)) == w - w2);
    assert(w2 * h + (w - w2) * h == w * h) by (nonlinear_arith);
}

proof fn lemma_len_three(x: int, y: int, ax: int, ay: int, bx: int, by: int)
    requires
        box_ok(x, y, ax, ay, bx, by),
        iabs(ax + ay) >= 2,
        iabs(bx + by) >= 2,
        2 * iabs(ax + ay) <= 3 * iabs(bx + by),
    ensures
        gseq(x, y, ax, ay, bx, by).len() == iabs(ax + ay) * iabs(bx + by),
    decreases iabs(ax + ay) + iabs(bx + by), 0int,
{
    let w = iabs(ax + ay);
    let h = iabs(bx + by);
    lemma_split_three(x, y, ax, ay, bx, by);
    lemma_split_three_boxes(x, y, ax, ay, bx, by);
    lemma_halves(ax, ay);
    lemma_halves(bx, by);
    let ax2 = ax / 2;
    let ay2 = ay / 2;
    let (bx2, by2) = split_major(bx, by);
    let dax = sgn_spec(ax);
    let day = sgn_spec(ay);
    let dbx = sgn_spec(bx);
    let dby = sgn_spec(by);
    lemma_gseq_len(x, y, bx2, by2, ax2, ay2);
    lemma_gseq_len(x + bx2, y + by2, ax, ay, bx - bx2, by - by2);
    lemma_gseq_len(
        x + (ax - dax) + (bx2 - dbx),
        y + (ay - day) + (by2 - dby),
        -bx2,
        -by2,
        -(ax - ax2),
        -(ay - ay2),
    );
    let w2 = iabs(ax2 + ay2);
    let h2 = iabs(bx2 + by2);
    assert(iabs(bx - bx2 + (by - by2)) == h - h2);
    assert(iabs(-bx2 + -by2) == h2);
    assert(iabs(-(ax - ax2) + -(ay - ay2)) == w - w2);
    assert(h2 * w2 + w * (h - h2) + h2 * (w - w2) == w * h) by (nonlinear_arith);
}

/// The cells of `s` follow each other in unit steps.
pub open spec fn steps_ok(s: Seq<(int, int)>) -> bool {
    forall|i: int| 0 <= i < s.len() - 1 ==> iabs(#[trigger] s[i].0 - s[i + 1].0) + iabs(s[i].1 - s[i + 1].1) == 1
}

/// A box whose Gilbert order joins up in unit steps: its major extent is even or its
/// minor extent odd, a major extent of 1 comes with a minor extent of 1, and a major
/// axis pointing backwards has an even extent (or 1).
pub open spec fn joinable(ax: int, ay: int, bx: int, by: int) -> bool {
    let w = iabs(ax + ay);
    let h = iabs(bx + by);
    &&& (w % 2 == 0 || h % 2 == 1)
    &&& (w == 1 ==> h == 1)
    &&& ((ax < 0 || ay < 0) ==> (w % 2 == 0 || w == 1))
}

/// The extents of an axis's halves: the plain half and the split point.
proof fn lemma_half_sizes(ax: int, ay: int)
    requires
        ax == 0 || ay == 0,
        iabs(ax + ay) >= 2,
    ensures
        ({
            let w = iabs(ax + ay);
            let h1 = iabs(ax / 2 + ay / 2);
            let s1 = iabs(split_major(ax, ay).0 + split_major(ax, ay).1);
            &&& (ax >= 0 && ay >= 0) ==> (2 * h1 == w || 2 * h1 == w - 1)
            &&& (ax < 0 || ay < 0) ==> (2 * h1 == w || 2 * h1 == w + 1)
            &&& (w > 2 ==> s1 % 2 == 0)
            &&& (w == 2 ==> s1 == 1 && h1 == 1)
            &&& (s1 == h1 || s1 == h1 + 1)
            &&& iabs(ax - split_major(ax, ay).0 + ay - split_major(ax, ay).1) == w - s1
            &&& iabs(ax - ax / 2 + ay - ay / 2) == w - h1
            &&& iabs(-split_major(ax, ay).0 + -split_major(ax, ay).1) == s1
            &&& iabs(-(ax - ax / 2) + -(ay - ay / 2)) == w - h1
        }),
{
    lemma_halves(ax, ay);
}

/// Two unit-step orders joined by a unit step make one.
proof fn lemma_steps_concat(s1: Seq<(int, int)>, s2: Seq<(int, int)>)
    requires
        steps_ok(s1),
        steps_ok(s2),
        s1.len() >= 1,
        s2.len() >= 1,
        iabs(s1[s1.len() - 1].0 - s2[0].0) + iabs(s1[s1.len() - 1].1 - s2[0].1) == 1,
    ensures
        steps_ok(s1 + s2),
{
    let s = s1 + s2;
    assert forall|i: int| 0 <= i < s.len() - 1 implies iabs(#[trigger] s[i].0 - s[i + 1].0) + iabs(s[i].1 - s[i + 1].1)
        == 1 by {
        if i < s1.len() - 1 {
            assert(s[i] == s1[i] && s[i + 1] == s1[i + 1]);
        } else if i == s1.len() - 1 {
            assert(s[i] == s1[i] && s[i + 1] == s2[0]);
        } else {
            assert(s[i] == s2[i - s1.len()] && s[i + 1] == s2[i - s1.len() + 1]);
        }
    }
}

/// A joinable box's Gilbert order runs in unit steps from its root to the far end of
/// its major axis.
pub proof fn lemma_gseq_path(x: int, y: int, ax: int, ay: int, bx: int, by: int)
    requires
        box_ok(x, y, ax, ay, bx, by),
        joinable(ax, ay, bx, by),
    ensures
        ({
            let s = gseq(x, y, ax, ay, bx, by);
            &&& s.len() >= 1
            &&& s[0] == (x, y)
            &&& s[s.len() - 1] == (x + ax - sgn_spec(ax), y + ay - sgn_spec(ay))
            &&& steps_ok(s)
        }),
    decreases iabs(ax + ay) + iabs(bx + by), 1int,
{
    let w = iabs(ax + ay);
    let h = iabs(bx + by);
    lemma_gseq_len(x, y, ax, ay, bx, by);
    assert(w * h >= 1) by (nonlinear_arith)
        requires
            w >= 1,
            h >= 1,
    ;
    let s = gseq(x, y, ax, ay, bx, by);
    if h == 1 {
        let dax = sgn_spec(ax);
        let day = sgn_spec(ay);
        assert(s[w - 1] == (x + (w - 1) * dax, y + (w - 1) * day));
        assert((w - 1) * dax == ax - dax && (w - 1) * day == ay - day) by (nonlinear_arith)
            requires
                ax == 0 || ay == 0,
                w == iabs(ax + ay),
                dax == sgn_spec(ax),
                day == sgn_spec(ay),
        ;
        assert forall|i: int| 0 <= i < s.len() - 1 implies iabs(#[trigger] s[i].0 - s[i + 1].0) + iabs(
            s[i].1 - s[i + 1].1,
        ) == 1 by {
            assert(s[i] == (x + i * dax, y + i * day));
            assert(s[i + 1] == (x + (i + 1) * dax, y + (i + 1) * day));
            assert((i + 1) * dax == i * dax + dax && (i + 1) * day == i * day + day) by (nonlinear_arith);
        }
    } else if 2 * w > 3 * h {
        lemma_path_two(x, y, ax, ay, bx, by);
    } else {
        lemma_path_three(x, y, ax, ay, bx, by);
    }
}

/// The two halves of a joinable box split two ways are joinable.
#[verifier::rlimit(80)]
#[verifier::spinoff_prover]
proof fn lemma_two_joinable(ax: int, ay: int, bx: int, by: int)
    requires
        ax == 0 || ay == 0,
        joinable(ax, ay, bx, by),
        iabs(bx + by) >= 2,
        2 * iabs(ax + ay) > 3 * iabs(bx + by),
    ensures
        joinable(split_major(ax, ay).0, split_major(ax, ay).1, bx, by),
        joinable(ax - split_major(ax, ay).0, ay - split_major(ax, ay).1, bx, by),
{
    lemma_halves(ax, ay);
    lemma_half_sizes(ax, ay);
}

#[verifier::rlimit(50)]
#[verifier::spinoff_prover]
proof fn lemma_path_two(x: int, y: int, ax: int, ay: int, bx: int, by: int)
    requires
        box_ok(x, y, ax, ay, bx, by),
        joinable(ax, ay, bx, by),
        iabs(bx + by) >= 2,
        2 * iabs(ax + ay) > 3 * iabs(bx + by),
    ensures
        ({
            let s = gseq(x, y, ax, ay, bx, by);
            &&& s.len() >= 1
            &&& s[0] == (x, y)
            &&& s[s.len() - 1] == (x + ax - sgn_spec(ax), y + ay - sgn_spec(ay))
            &&& steps_ok(s)
        }),
    decreases iabs(ax + ay) + iabs(bx + by), 0int,
{
    let w = iabs(ax + ay);
    let h = iabs(bx + by);
    lemma_split_two(x, y, ax, ay, bx, by);
    lemma_halves(ax, ay);
    let (ax2, ay2) = split_major(ax, ay);
    lemma_two_joinable(ax, ay, bx, by);
    lemma_gseq_path(x, y, ax2, ay2, bx, by);
    lemma_gseq_path(x + ax2, y + ay2, ax - ax2, ay - ay2, bx, by);
    let s1 = gseq(x, y, ax2, ay2, bx, by);
    let s2 = gseq(x + ax2, y + ay2, ax - ax2, ay - ay2, bx, by);
    assert(sgn_spec(ax - ax2) == sgn_spec(ax) && sgn_spec(ay - ay2) == sgn_spec(ay));
    lemma_steps_concat(s1, s2);
    let s = s1 + s2;
    assert(s[0] == s1[0]);
    assert(s[s.len() - 1] == s2[s2.len() - 1]);
}

/// The three pieces of a joinable box split three ways are joinable.
#[verifier::rlimit(80)]
#[verifier::spinoff_prover]
proof fn lemma_three_joinable(ax: int, ay: int, bx: int, by: int)
    requires
        ax == 0 || ay == 0,
        bx == 0 || by == 0,
        joinable(ax, ay, bx, by),
        iabs(ax + ay) >= 2,
        iabs(bx + by) >= 2,
        2 * iabs(ax + ay) <= 3 * iabs(bx + by),
    ensures
        joinable(split_major(bx, by).0, split_major(bx, by).1, ax / 2, ay / 2),
        joinable(ax, ay, bx - split_major(bx, by).0, by - split_major(bx, by).1),
        joinable(-split_major(bx, by).0, -split_major(bx, by).1, -(ax - ax / 2), -(ay - ay / 2)),
{
    let w = iabs(ax + ay);
    let h = iabs(bx + by);
    let (bx2, by2) = split_major(bx, by);
    lemma_half_sizes(ax, ay);
    lemma_half_sizes(bx, by);
    let w2 = iabs(ax / 2 + ay / 2);
    let h2 = iabs(bx2 + by2);
    assert(h == 2 ==> w == 2 && w2 == 1);
    assert(iabs(bx - bx2 + by - by2) == h - h2);
    assert(iabs(-bx2 + -by2) == h2);
    assert(iabs(-(ax - ax / 2) + -(ay - ay / 2)) == w - w2);
    lemma_halves(bx, by);
    assert(sgn_spec(bx2) == sgn_spec(bx) && sgn_spec(by2) == sgn_spec(by));
}

#[verifier::rlimit(50)]
#[verifier::spinoff_prover]
proof fn lemma_path_three(x: int, y: int, ax: int, ay: int, bx: int, by: int)
    requires
        box_ok(x, y, ax, ay, bx, by),
        joinable(ax, ay, bx, by),
        iabs(bx + by) >= 2,
        2 * iabs(ax + ay) <= 3 * iabs(bx + by),
    ensures
        ({
            let s = gseq(x, y, ax, ay, bx, by);
            &&& s.len() >= 1
            &&& s[0] == (x, y)
            &&& s[s.len() - 1] == (x + ax - sgn_spec(ax), y + ay - sgn_spec(ay))
            &&& steps_ok(s)
        }),
    decreases iabs(ax + ay) + iabs(bx + by), 0int,
{
    let w = iabs(ax + ay);
    let h = iabs(bx + by);
    assert(w >= 2);
    lemma_split_three(x, y, ax, ay, bx, by);
    lemma_split_three_boxes(x, y, ax, ay, bx, by);
    lemma_halves(ax, ay);
    lemma_halves(bx, by);
    let ax2 = ax / 2;
    let ay2 = ay / 2;
    let (bx2, by2) = split_major(bx, by);
    let dax = sgn_spec(ax);
    let day = sgn_spec(ay);
    let dbx = sgn_spec(bx);
    let dby = sgn_spec(by);
    lemma_three_joinable(ax, ay, bx, by);
    lemma_gseq_path(x, y, bx2, by2, ax2, ay2);
    lemma_gseq_path(x + bx2, y + by2, ax, ay, bx - bx2, by - by2);
    let x3 = x + (ax - dax) + (bx2 - dbx);
    let y3 = y + (ay - day) + (by2 - dby);
    lemma_gseq_path(x3, y3, -bx2, -by2, -(ax - ax2), -(ay - ay2));
    let s1 = gseq(x, y, bx2, by2, ax2, ay2);
    let s2 = gseq(x + bx2, y + by2, ax, ay, bx - bx2, by - by2);
    let s3 = gseq(x3, y3, -bx2, -by2, -(ax - ax2), -(ay - ay2));
    assert(sgn_spec(-bx2) == -dbx && sgn_spec(-by2) == -dby);
    lemma_steps_concat(s1, s2);
    lemma_steps_concat(s1 + s2, s3);
    let s = s1 + s2 + s3;
    assert(s[0] == s1[0]);
    assert(s[s.len() - 1] == s3[s3.len() - 1]);
    assert((s1 + s2)[(s1 + s2).len() - 1] == s2[s2.len() - 1]);
}

/// The full Gilbert order of a `width × height` grid, as cells.
pub open spec fn gilbert_spec(width: int, height: int) -> Seq<(int, int)> {
    if width <= 0 || height <= 0 {
        Seq::empty()
    } else if width >= height {
        gseq(0, 0, width, 0, 0, height)
    } else {
        gseq(0, 0, 0, height, width, 0)
    }
}

/// The full Gilbert visiting order for a `width × height` grid: `cells[d]` is the
/// grid position of line index `d`. Empty if either dimension is 0.
pub fn gilbert_cells(width: u32, height: u32) -> (out: Vec<(u32, u32)>)
    requires
        width <= coord_bound(),
        height <= coord_bound(),
    ensures
        out@ == as_cells(gilbert_spec(width as int, height as int)),
{
    let mut out: Vec<(u32, u32)> = Vec::new();
    if width == 0 || height == 0 {
        proof {
            assert(as_cells(Seq::<(int, int)>::empty()) =~= Seq::<(u32, u32)>::empty());
        }
        return out;
    }
    if width >= height {
        gen2d(0, 0, width as i32, 0, 0, height as i32, &mut out);
    } else {
        gen2d(0, 0, 0, height as i32, width as i32, 0, &mut out);
    }
    proof {
        assert(out@ =~= as_cells(gilbert_spec(width as int, height as int)));
    }
    out
}

/// Each cell of a straight run along the first axis of a well-formed box is in range.
proof fn lemma_run_cell(x: int, y: int, ax: int, ay: int, bx: int, by: int, i: int)
    requires
        box_ok(x, y, ax, ay, bx, by),
        0 <= i < iabs(ax + ay),
    ensures
        cell_ok(x + i * sgn_spec(ax), y + i * sgn_spec(ay)),
{
    let dax = sgn_spec(ax);
    let day = sgn_spec(ay);
    assert(between(i * dax, ax - dax)) by (nonlinear_arith)
        requires
            dax == sgn_spec(ax),
            ax == 0 || ay == 0,
            0 <= i < iabs(ax + ay),
    ;
    assert(between(i * day, ay - day)) by (nonlinear_arith)
        requires
            day == sgn_spec(ay),
            ax == 0 || ay == 0,
            0 <= i < iabs(ax + ay),
    ;
    lemma_box_cell(x, y, ax, ay, bx, by, i * dax, i * day, 0, 0);
}

/// The cell at position `idx` of the Gilbert order of the rectangle at `(x, y)`
/// spanned by `(ax, ay)` and `(bx, by)`, found by descending into the piece that
/// holds it and subtracting the areas of the pieces skipped.
fn d2xy(x: i32, y: i32, ax: i32, ay: i32, bx: i32, by: i32, idx: i64) -> (r: (i32, i32))
    requires
        box_ok(x as int, y as int, ax as int, ay as int, bx as int, by as int),
        0 <= idx < iabs(ax + ay) * iabs(bx + by),
    ensures
        r.0 == gseq(x as int, y as int, ax as int, ay as int, bx as int, by as int)[idx as int].0,
        r.1 == gseq(x as int, y as int, ax as int, ay as int, bx as int, by as int)[idx as int].1,
        cell_ok(r.0 as int, r.1 as int),
    decreases iabs(ax + ay) + iabs(bx + by), 1int,
{
    proof {
        lemma_gseq_len(x as int, y as int, ax as int, ay as int, bx as int, by as int);
    }
    let w = iabs_exec(ax + ay);
    let h = iabs_exec(bx + by);
    let dax = sgn(ax);
    let day = sgn(ay);
    let dbx = sgn(bx);
    let dby = sgn(by);
    if h == 1 {
        proof {
            assert(idx < w) by (nonlinear_arith)
                requires
                    idx < w * h,
                    h == 1,
            ;
        }
        proof {
            lemma_run_cell(x as int, y as int, ax as int, ay as int, bx as int, by as int, idx as int);
        }
        let i = idx as i32;
        return (step_along(x, dax, i), step_along(y, day, i));
    }
    if w == 1 {
        proof {
            assert(idx < h) by (nonlinear_arith)
                requires
                    idx < w * h,
                    w == 1,
            ;
        }
        proof {
            lemma_run_cell(x as int, y as int, bx as int, by as int, ax as int, ay as int, idx as int);
        }
        let i = idx as i32;
        return (step_along(x, dbx, i), step_along(y, dby, i));
    }
    if 2 * (w as i64) > 3 * (h as i64) {
        d2xy_two(x, y, ax, ay, bx, by, idx)
    } else {
        d2xy_three(x, y, ax, ay, bx, by, idx)
    }
}

/// `v` moved `i` unit steps in direction `d` (one of -1, 0, 1).
fn step_along(v: i32, d: i32, i: i32) -> (r: i32)
    requires
        -1 <= d <= 1,
        0 <= i,
        0 <= v + i * d <= coord_bound(),
    ensures
        r == v + i * d,
{
    if d > 0 {
        proof {
            assert(i * d == i) by (nonlinear_arith)
                requires
                    d == 1,
            ;
        }
        v + i
    } else if d < 0 {
        proof {
            assert(i * d == -i) by (nonlinear_arith)
                requires
                    d == -1,
            ;
        }
        v - i
    } else {
        proof {
            assert(i * d == 0) by (nonlinear_arith)
                requires
                    d == 0,
            ;
        }
        v
    }
}

/// The two-way split step of [`d2xy`].
#[verifier::rlimit(40)]
fn d2xy_two(x: i32, y: i32, ax: i32, ay: i32, bx: i32, by: i32, idx: i64) -> (r: (i32, i32))
    requires
        box_ok(x as int, y as int, ax as int, ay as int, bx as int, by as int),
        iabs(ax + ay) >= 2,
        iabs(bx + by) >= 2,
        2 * iabs(ax + ay) > 3 * iabs(bx + by),
        0 <= idx < iabs(ax + ay) * iabs(bx + by),
    ensures
        r.0 == gseq(x as int, y as int, ax as int, ay as int, bx as int, by as int)[idx as int].0,
        r.1 == gseq(x as int, y as int, ax as int, ay as int, bx as int, by as int)[idx as int].1,
        cell_ok(r.0 as int, r.1 as int),
    decreases iabs(ax + ay) + iabs(bx + by), 0int,
{
    let w = iabs_exec(ax + ay);
    let h = iabs_exec(bx + by);
    let dax = sgn(ax);
    let day = sgn(ay);
    let mut ax2 = half(ax);
    let mut ay2 = half(ay);
    let w2 = iabs_exec(ax2 + ay2);
    if w2 % 2 != 0 && w > 2 {
        ax2 = ax2 + dax;
        ay2 = ay2 + day;
    }
    proof {
        lemma_split_two(x as int, y as int, ax as int, ay as int, bx as int, by as int);
        lemma_halves(ax as int, ay as int);
        lemma_gseq_len(x as int, y as int, ax2 as int, ay2 as int, bx as int, by as int);
        lemma_gseq_len(
            (x + ax2) as int,
            (y + ay2) as int,
            (ax - ax2) as int,
            (ay - ay2) as int,
            bx as int,
            by as int,
        );
        assert(iabs(ax2 + ay2) <= w);
        assert(iabs(ax2 + ay2) * h <= w * h) by (nonlinear_arith)
            requires
                iabs(ax2 + ay2) <= w,
                h >= 0,
        ;
        assert(w * h <= 0x3FFF_FFFF * 0x3FFF_FFFF) by (nonlinear_arith)
            requires
                0 <= w <= 0x3FFF_FFFF,
                0 <= h <= 0x3FFF_FFFF,
        ;
    }
    let a1 = iabs_exec(ax2 + ay2) as i64 * h as i64;
    if idx < a1 {
        d2xy(x, y, ax2, ay2, bx, by, idx)
    } else {
        proof {
            assert(iabs(ax - ax2 + (ay - ay2)) == w - iabs(ax2 + ay2));
            assert((w - iabs(ax2 + ay2)) * h == w * h - iabs(ax2 + ay2) * h) by (nonlinear_arith);
        }
        d2xy(x + ax2, y + ay2, ax - ax2, ay - ay2, bx, by, idx - a1)
    }
}

/// The three-way split step of [`d2xy`].
#[verifier::rlimit(60)]
fn d2xy_three(x: i32, y: i32, ax: i32, ay: i32, bx: i32, by: i32, idx: i64) -> (r: (i32, i32))
    requires
        box_ok(x as int, y as int, ax as int, ay as int, bx as int, by as int),
        iabs(ax + ay) >= 2,
        iabs(bx + by) >= 2,
        2 * iabs(ax + ay) <= 3 * iabs(bx + by),
        0 <= idx < iabs(ax + ay) * iabs(bx + by),
    ensures
        r.0 == gseq(x as int, y as int, ax as int, ay as int, bx as int, by as int)[idx as int].0,
        r.1 == gseq(x as int, y as int, ax as int, ay as int, bx as int, by as int)[idx as int].1,
        cell_ok(r.0 as int, r.1 as int),
    decreases iabs(ax + ay) + iabs(bx + by), 0int,
{
    let w = iabs_exec(ax + ay);
    let h = iabs_exec(bx + by);
    let dax = sgn(ax);
    let day = sgn(ay);
    let dbx = sgn(bx);
    let dby = sgn(by);
    let ax2 = half(ax);
    let ay2 = half(ay);
    let mut bx2 = half(bx);
    let mut by2 = half(by);
    let h2 = iabs_exec(bx2 + by2);
    if h2 % 2 != 0 && h > 2 {
        bx2 = bx2 + dbx;
        by2 = by2 + dby;
    }
    let ghost s1 = gseq(x as int, y as int, bx2 as int, by2 as int, ax2 as int, ay2 as int);
    let ghost s2 = gseq(
        (x + bx2) as int,
        (y + by2) as int,
        ax as int,
        ay as int,
        (bx - bx2) as int,
        (by - by2) as int,
    );
    let ghost s3 = gseq(
        (x + (ax - dax) + (bx2 - dbx)) as int,
        (y + (ay - day) + (by2 - dby)) as int,
        -bx2 as int,
        -by2 as int,
        -(ax - ax2) as int,
        -(ay - ay2) as int,
    );
    let h2v = iabs_exec(bx2 + by2);
    let w2v = iabs_exec(ax2 + ay2);
    proof {
        lemma_split_three(x as int, y as int, ax as int, ay as int, bx as int, by as int);
        lemma_split_three_boxes(x as int, y as int, ax as int, ay as int, bx as int, by as int);
        lemma_halves(ax as int, ay as int);
        lemma_halves(bx as int, by as int);
        lemma_gseq_len(x as int, y as int, bx2 as int, by2 as int, ax2 as int, ay2 as int);
        lemma_gseq_len(
            (x + bx2) as int,
            (y + by2) as int,
            ax as int,
            ay as int,
            (bx - bx2) as int,
            (by - by2) as int,
        );
        lemma_gseq_len(
            (x + (ax - dax) + (bx2 - dbx)) as int,
            (y + (ay - day) + (by2 - dby)) as int,
            -bx2 as int,
            -by2 as int,
            -(ax - ax2) as int,
            -(ay - ay2) as int,
        );
        assert(iabs(bx - bx2 + (by - by2)) == h - h2v);
        assert(iabs(-bx2 + -by2) == h2v);
        assert(iabs(-(ax - ax2) + -(ay - ay2)) == w - w2v);
        assert(h2v * w2v + w * (h - h2v) + h2v * (w - w2v) == w * h) by (nonlinear_arith);
        assert(0 <= h2v * w2v <= w * h) by (nonlinear_arith)
            requires
                0 <= h2v <= h,
                0 <= w2v <= w,
        ;
        assert(0 <= w * (h - h2v) <= w * h) by (nonlinear_arith)
            requires
                0 <= h2v <= h,
                0 <= w,
        ;
        assert(w * h <= 0x3FFF_FFFF * 0x3FFF_FFFF) by (nonlinear_arith)
            requires
                0 <= w <= 0x3FFF_FFFF,
                0 <= h <= 0x3FFF_FFFF,
        ;
    }
    let a1 = h2v as i64 * w2v as i64;
    let a2 = w as i64 * (h - h2v) as i64;
    if idx < a1 {
        d2xy(x, y, bx2, by2, ax2, ay2, idx)
    } else if idx < a1 + a2 {
        d2xy(x + bx2, y + by2, ax, ay, bx - bx2, by - by2, idx - a1)
    } else {
        d2xy(
            x + (ax - dax) + (bx2 - dbx),
            y + (ay - day) + (by2 - dby),
            -bx2,
            -by2,
            -(ax - ax2),
            -(ay - ay2),
            idx - a1 - a2,
        )
    }
}

/// The cell of line index `d` on the `width × height` Gilbert curve, resolved without
/// materialising the whole order; `(0, 0)` for an empty grid or an index past the end.
pub fn gilbert_d2xy(width: u32, height: u32, d: u64) -> (r: (u32, u32))
    requires
        width <= coord_bound(),
        height <= coord_bound(),
    ensures
        d < width * height ==> r == as_cells(gilbert_spec(width as int, height as int))[d as int],
        d >= width * height ==> r == (0u32, 0u32),
{
    if width == 0 || height == 0 {
        proof {
            assert(width * height == 0) by (nonlinear_arith)
                requires
                    width == 0 || height == 0,
            ;
        }
        return (0, 0);
    }
    proof {
        assert(width * height <= 0x3FFF_FFFE * 0x3FFF_FFFE) by (nonlinear_arith)
            requires
                width <= 0x3FFF_FFFE,
                height <= 0x3FFF_FFFE,
        ;
    }
    let area = width as u64 * height as u64;
    if d >= area {
        return (0, 0);
    }
    let (x, y) = if width >= height {
        d2xy(0, 0, width as i32, 0, 0, height as i32, d as i64)
    } else {
        proof {
            assert(height * width == width * height) by (nonlinear_arith);
        }
        d2xy(0, 0, 0, height as i32, width as i32, 0, d as i64)
    };
    proof {
        lemma_gseq_len(0, 0, width as int, 0, 0, height as int);
        lemma_gseq_len(0, 0, 0, height as int, width as int, 0);
    }
    (x as u32, y as u32)
}

/// The two axis vectors point along different coordinates.
pub open spec fn orth(ax: int, ay: int, bx: int, by: int) -> bool {
    (ax == 0 || bx == 0) && (ay == 0 || by == 0)
}

/// `(px, py)` lies in the rectangle rooted at `(x, y)` spanned by `(ax, ay)` and `(bx, by)`.
pub open spec fn in_box(px: int, py: int, x: int, y: int, ax: int, ay: int, bx: int, by: int) -> bool {
    &&& between(px - x, (ax - sgn_spec(ax)) + (bx - sgn_spec(bx)))
    &&& between(py - y, (ay - sgn_spec(ay)) + (by - sgn_spec(by)))
}

/// The two halves of a two-way split tile the rectangle without overlap.
proof fn lemma_two_partition(x: int, y: int, ax: int, ay: int, bx: int, by: int, px: int, py: int)
    requires
        box_ok(x, y, ax, ay, bx, by),
        orth(ax, ay, bx, by),
        iabs(ax + ay) >= 2,
    ensures
        ({
            let (ax2, ay2) = split_major(ax, ay);
            &&& orth(ax2, ay2, bx, by)
            &&& orth(ax - ax2, ay - ay2, bx, by)
            &&& in_box(px, py, x, y, ax, ay, bx, by) <==> (in_box(px, py, x, y, ax2, ay2, bx, by)
                || in_box(px, py, x + ax2, y + ay2, ax - ax2, ay - ay2, bx, by))
            &&& !(in_box(px, py, x, y, ax2, ay2, bx, by) && in_box(
                px,
                py,
                x + ax2,
                y + ay2,
                ax - ax2,
                ay - ay2,
                bx,
                by,
            ))
        }),
{
    lemma_halves(ax, ay);
}

/// The three pieces of a three-way split tile the rectangle without overlap.
#[verifier::rlimit(40)]
proof fn lemma_three_partition(x: int, y: int, ax: int, ay: int, bx: int, by: int, px: int, py: int)
    requires
        box_ok(x, y, ax, ay, bx, by),
        orth(ax, ay, bx, by),
        iabs(ax + ay) >= 2,
        iabs(bx + by) >= 2,
    ensures
        ({
            let ax2 = ax / 2;
            let ay2 = ay / 2;
            let (bx2, by2) = split_major(bx, by);
            let dax = sgn_spec(ax);
            let day = sgn_spec(ay);
            let dbx = sgn_spec(bx);
            let dby = sgn_spec(by);
            let x3 = x + (ax - dax) + (bx2 - dbx);
            let y3 = y + (ay - day) + (by2 - dby);
            &&& orth(bx2, by2, ax2, ay2)
            &&& orth(ax, ay, bx - bx2, by - by2)
            &&& orth(-bx2, -by2, -(ax - ax2), -(ay - ay2))
            &&& in_box(px, py, x, y, ax, ay, bx, by) <==> (in_box(px, py, x, y, bx2, by2, ax2, ay2)
                || in_box(px, py, x + bx2, y + by2, ax, ay, bx - bx2, by - by2) || in_box(
                px,
                py,
                x3,
                y3,
                -bx2,
                -by2,
                -(ax - ax2),
                -(ay - ay2),
            ))
            &&& !(in_box(px, py, x, y, bx2, by2, ax2, ay2) && in_box(
                px,
                py,
                x + bx2,
                y + by2,
                ax,
                ay,
                bx - bx2,
                by - by2,
            ))
            &&& !(in_box(px, py, x, y, bx2, by2, ax2, ay2) && in_box(
                px,
                py,
                x3,
                y3,
                -bx2,
                -by2,
                -(ax - ax2),
                -(ay - ay2),
            ))
            &&& !(in_box(px, py, x + bx2, y + by2, ax, ay, bx - bx2, by - by2) && in_box(
                px,
                py,
                x3,
                y3,
                -bx2,
                -by2,
                -(ax - ax2),
                -(ay - ay2),
            ))
        }),
{
    lemma_halves(ax, ay);
    lemma_halves(bx, by);
}

/// The `i`-th cell of a straight run lies in its (one cell wide) box, and distinct
/// positions of the run are distinct cells.
proof fn lemma_run_facts(x: int, y: int, ax: int, ay: int, bx: int, by: int, i: int, j: int)
    requires
        box_ok(x, y, ax, ay, bx, by),
        orth(ax, ay, bx, by),
        iabs(bx + by) == 1,
        0 <= i < iabs(ax + ay),
        0 <= j < iabs(ax + ay),
    ensures
        in_box(x + i * sgn_spec(ax), y + i * sgn_spec(ay), x, y, ax, ay, bx, by),
        i != j ==> (x + i * sgn_spec(ax), y + i * sgn_spec(ay)) != (x + j * sgn_spec(ax), y + j
            * sgn_spec(ay)),
{
    let dax = sgn_spec(ax);
    let day = sgn_spec(ay);
    assert(between(i * dax, ax - dax)) by (nonlinear_arith)
        requires
            dax == sgn_spec(ax),
            ax == 0 || ay == 0,
            0 <= i < iabs(ax + ay),
    ;
    assert(between(i * day, ay - day)) by (nonlinear_arith)
        requires
            day == sgn_spec(ay),
            ax == 0 || ay == 0,
            0 <= i < iabs(ax + ay),
    ;
    assert(i != j ==> i * dax != j * dax || i * day != j * day) by (nonlinear_arith)
        requires
            dax == sgn_spec(ax),
            day == sgn_spec(ay),
            iabs(ax + ay) >= 1,
    ;
}

/// Every cell of a straight run's box is one of the run's cells.
proof fn lemma_run_covers(x: int, y: int, ax: int, ay: int, bx: int, by: int, px: int, py: int)
    requires
        box_ok(x, y, ax, ay, bx, by),
        orth(ax, ay, bx, by),
        iabs(bx + by) == 1,
        in_box(px, py, x, y, ax, ay, bx, by),
    ensures
        ({
            let i = iabs(px - x) + iabs(py - y);
            &&& 0 <= i < iabs(ax + ay)
            &&& px == x + i * sgn_spec(ax)
            &&& py == y + i * sgn_spec(ay)
        }),
{
    let dax = sgn_spec(ax);
    let day = sgn_spec(ay);
    let i = iabs(px - x) + iabs(py - y);
    assert(bx - sgn_spec(bx) == 0 && by - sgn_spec(by) == 0);
    assert(0 <= i < iabs(ax + ay));
    assert(px == x + i * dax) by (nonlinear_arith)
        requires
            dax == sgn_spec(ax),
            ax == 0 || ay == 0,
            between(px - x, ax - dax),
            between(py - y, ay - day),
            day == sgn_spec(ay),
            i == iabs(px - x) + iabs(py - y),
    ;
    assert(py == y + i * day) by (nonlinear_arith)
        requires
            day == sgn_spec(ay),
            ax == 0 || ay == 0,
            between(px - x, ax - dax),
            between(py - y, ay - day),
            dax == sgn_spec(ax),
            i == iabs(px - x) + iabs(py - y),
    ;
}

/// Every cell of a Gilbert order lies in its rectangle.
proof fn lemma_gseq_in_box(x: int, y: int, ax: int, ay: int, bx: int, by: int, i: int)
    requires
        box_ok(x, y, ax, ay, bx, by),
        orth(ax, ay, bx, by),
        0 <= i < gseq(x, y, ax, ay, bx, by).len(),
    ensures
        in_box(
            gseq(x, y, ax, ay, bx, by)[i].0,
            gseq(x, y, ax, ay, bx, by)[i].1,
            x,
            y,
            ax,
            ay,
            bx,
            by,
        ),
    decreases iabs(ax + ay) + iabs(bx + by),
{
    let w = iabs(ax + ay);
    let h = iabs(bx + by);
    let c = gseq(x, y, ax, ay, bx, by)[i];
    if h == 1 {
        lemma_run_facts(x, y, ax, ay, bx, by, i, i);
    } else if w == 1 {
        lemma_run_facts(x, y, bx, by, ax, ay, i, i);
    } else if 2 * w > 3 * h {
        lemma_split_two(x, y, ax, ay, bx, by);
        lemma_two_partition(x, y, ax, ay, bx, by, c.0, c.1);
        let (ax2, ay2) = split_major(ax, ay);
        let l1 = gseq(x, y, ax2, ay2, bx, by).len();
        if i < l1 {
            lemma_gseq_in_box(x, y, ax2, ay2, bx, by, i);
        } else {
            lemma_gseq_in_box(x + ax2, y + ay2, ax - ax2, ay - ay2, bx, by, i - l1);
        }
    } else {
        lemma_split_three(x, y, ax, ay, bx, by);
        lemma_split_three_boxes(x, y, ax, ay, bx, by);
        lemma_three_partition(x, y, ax, ay, bx, by, c.0, c.1);
        let ax2 = ax / 2;
        let ay2 = ay / 2;
        let (bx2, by2) = split_major(bx, by);
        let x3 = x + (ax - sgn_spec(ax)) + (bx2 - sgn_spec(bx));
        let y3 = y + (ay - sgn_spec(ay)) + (by2 - sgn_spec(by));
        let l1 = gseq(x, y, bx2, by2, ax2, ay2).len();
        let l2 = gseq(x + bx2, y + by2, ax, ay, bx - bx2, by - by2).len();
        if i < l1 {
            lemma_gseq_in_box(x, y, bx2, by2, ax2, ay2, i);
        } else if i < l1 + l2 {
            lemma_gseq_in_box(x + bx2, y + by2, ax, ay, bx - bx2, by - by2, i - l1);
        } else {
            lemma_gseq_in_box(x3, y3, -bx2, -by2, -(ax - ax2), -(ay - ay2), i - l1 - l2);
        }
    }
}

/// No cell occurs twice in a Gilbert order.
proof fn lemma_gseq_distinct(x: int, y: int, ax: int, ay: int, bx: int, by: int, i: int, j: int)
    requires
        box_ok(x, y, ax, ay, bx, by),
        orth(ax, ay, bx, by),
        0 <= i < j,
        j < gseq(x, y, ax, ay, bx, by).len(),
    ensures
        gseq(x, y, ax, ay, bx, by)[i] != gseq(x, y, ax, ay, bx, by)[j],
    decreases iabs(ax + ay) + iabs(bx + by), 1int,
{
    let w = iabs(ax + ay);
    let h = iabs(bx + by);
    let s = gseq(x, y, ax, ay, bx, by);
    if h == 1 {
        lemma_run_facts(x, y, ax, ay, bx, by, i, j);
    } else if w == 1 {
        lemma_run_facts(x, y, bx, by, ax, ay, i, j);
    } else if 2 * w > 3 * h {
        lemma_split_two(x, y, ax, ay, bx, by);
        lemma_two_partition(x, y, ax, ay, bx, by, s[i].0, s[i].1);
        let (ax2, ay2) = split_major(ax, ay);
        let l1 = gseq(x, y, ax2, ay2, bx, by).len();
        if j < l1 {
            lemma_gseq_distinct(x, y, ax2, ay2, bx, by, i, j);
        } else if i >= l1 {
            lemma_gseq_distinct(x + ax2, y + ay2, ax - ax2, ay - ay2, bx, by, i - l1, j - l1);
        } else {
            lemma_gseq_in_box(x, y, ax2, ay2, bx, by, i);
            lemma_gseq_in_box(x + ax2, y + ay2, ax - ax2, ay - ay2, bx, by, j - l1);
        }
    } else {
        lemma_gseq_distinct_three(x, y, ax, ay, bx, by, i, j);
    }
}

/// [`lemma_gseq_distinct`] for a three-way split.
proof fn lemma_gseq_distinct_three(
    x: int,
    y: int,
    ax: int,
    ay: int,
    bx: int,
    by: int,
    i: int,
    j: int,
)
    requires
        box_ok(x, y, ax, ay, bx, by),
        orth(ax, ay, bx, by),
        iabs(ax + ay) >= 2,
        iabs(bx + by) >= 2,
        2 * iabs(ax + ay) <= 3 * iabs(bx + by),
        0 <= i < j,
        j < gseq(x, y, ax, ay, bx, by).len(),
    ensures
        gseq(x, y, ax, ay, bx, by)[i] != gseq(x, y, ax, ay, bx, by)[j],
    decreases iabs(ax + ay) + iabs(bx + by), 0int,
{
    let s = gseq(x, y, ax, ay, bx, by);
    lemma_split_three(x, y, ax, ay, bx, by);
    lemma_split_three_boxes(x, y, ax, ay, bx, by);
    lemma_three_partition(x, y, ax, ay, bx, by, s[i].0, s[i].1);
    let ax2 = ax / 2;
    let ay2 = ay / 2;
    let (bx2, by2) = split_major(bx, by);
    let x3 = x + (ax - sgn_spec(ax)) + (bx2 - sgn_spec(bx));
    let y3 = y + (ay - sgn_spec(ay)) + (by2 - sgn_spec(by));
    let l1 = gseq(x, y, bx2, by2, ax2, ay2).len();
    let l2 = gseq(x + bx2, y + by2, ax, ay, bx - bx2, by - by2).len();
    lemma_halves(ax, ay);
    lemma_halves(bx, by);
    if j < l1 {
        lemma_gseq_distinct(x, y, bx2, by2, ax2, ay2, i, j);
    } else if i >= l1 && j < l1 + l2 {
        lemma_gseq_distinct(x + bx2, y + by2, ax, ay, bx - bx2, by - by2, i - l1, j - l1);
    } else if i >= l1 + l2 {
        lemma_gseq_distinct(x3, y3, -bx2, -by2, -(ax - ax2), -(ay - ay2), i - l1 - l2, j - l1 - l2);
    } else {
        if i < l1 {
            lemma_gseq_in_box(x, y, bx2, by2, ax2, ay2, i);
        } else {
            lemma_gseq_in_box(x + bx2, y + by2, ax, ay, bx - bx2, by - by2, i - l1);
        }
        if j < l1 + l2 {
            lemma_gseq_in_box(x + bx2, y + by2, ax, ay, bx - bx2, by - by2, j - l1);
        } else {
            lemma_gseq_in_box(x3, y3, -bx2, -by2, -(ax - ax2), -(ay - ay2), j - l1 - l2);
        }
    }
}

/// Every cell of a rectangle occurs in its Gilbert order.
#[verifier::rlimit(40)]
proof fn lemma_gseq_covers(x: int, y: int, ax: int, ay: int, bx: int, by: int, px: int, py: int)
    requires
        box_ok(x, y, ax, ay, bx, by),
        orth(ax, ay, bx, by),
        in_box(px, py, x, y, ax, ay, bx, by),
    ensures
        exists|i: int|
            0 <= i < gseq(x, y, ax, ay, bx, by).len() && #[trigger] gseq(x, y, ax, ay, bx, by)[i]
                == (px, py),
    decreases iabs(ax + ay) + iabs(bx + by), 1int,
{
    let w = iabs(ax + ay);
    let h = iabs(bx + by);
    let s = gseq(x, y, ax, ay, bx, by);
    if h == 1 {
        lemma_run_covers(x, y, ax, ay, bx, by, px, py);
        let i = iabs(px - x) + iabs(py - y);
        assert(s[i] == (px, py));
    } else if w == 1 {
        lemma_run_covers(x, y, bx, by, ax, ay, px, py);
        let i = iabs(px - x) + iabs(py - y);
        assert(s[i] == (px, py));
    } else if 2 * w > 3 * h {
        lemma_split_two(x, y, ax, ay, bx, by);
        lemma_two_partition(x, y, ax, ay, bx, by, px, py);
        let (ax2, ay2) = split_major(ax, ay);
        let s1 = gseq(x, y, ax2, ay2, bx, by);
        let s2 = gseq(x + ax2, y + ay2, ax - ax2, ay - ay2, bx, by);
        if in_box(px, py, x, y, ax2, ay2, bx, by) {
            lemma_gseq_covers(x, y, ax2, ay2, bx, by, px, py);
            let i = choose|i: int| 0 <= i < s1.len() && #[trigger] s1[i] == (px, py);
            assert(s[i] == (px, py));
        } else {
            lemma_gseq_covers(x + ax2, y + ay2, ax - ax2, ay - ay2, bx, by, px, py);
            let i = choose|i: int| 0 <= i < s2.len() && #[trigger] s2[i] == (px, py);
            assert(s[s1.len() + i] == (px, py));
        }
    } else {
        lemma_gseq_covers_three(x, y, ax, ay, bx, by, px, py);
    }
}

/// [`lemma_gseq_covers`] for a three-way split.
#[verifier::rlimit(40)]
proof fn lemma_gseq_covers_three(
    x: int,
    y: int,
    ax: int,
    ay: int,
    bx: int,
    by: int,
    px: int,
    py: int,
)
    requires
        box_ok(x, y, ax, ay, bx, by),
        orth(ax, ay, bx, by),
        iabs(ax + ay) >= 2,
        iabs(bx + by) >= 2,
        2 * iabs(ax + ay) <= 3 * iabs(bx + by),
        in_box(px, py, x, y, ax, ay, bx, by),
    ensures
        exists|i: int|
            0 <= i < gseq(x, y, ax, ay, bx, by).len() && #[trigger] gseq(x, y, ax, ay, bx, by)[i]
                == (px, py),
    decreases iabs(ax + ay) + iabs(bx + by), 0int,
{
    let s = gseq(x, y, ax, ay, bx, by);
    lemma_split_three(x, y, ax, ay, bx, by);
    lemma_split_three_boxes(x, y, ax, ay, bx, by);
    lemma_three_partition(x, y, ax, ay, bx, by, px, py);
    let ax2 = ax / 2;
    let ay2 = ay / 2;
    let (bx2, by2) = split_major(bx, by);
    let x3 = x + (ax - sgn_spec(ax)) + (bx2 - sgn_spec(bx));
    let y3 = y + (ay - sgn_spec(ay)) + (by2 - sgn_spec(by));
    let s1 = gseq(x, y, bx2, by2, ax2, ay2);
    let s2 = gseq(x + bx2, y + by2, ax, ay, bx - bx2, by - by2);
    let s3 = gseq(x3, y3, -bx2, -by2, -(ax - ax2), -(ay - ay2));
    lemma_halves(ax, ay);
    lemma_halves(bx, by);
    if in_box(px, py, x, y, bx2, by2, ax2, ay2) {
        lemma_gseq_covers(x, y, bx2, by2, ax2, ay2, px, py);
        let i = choose|i: int| 0 <= i < s1.len() && #[trigger] s1[i] == (px, py);
        assert(s[i] == (px, py));
    } else if in_box(px, py, x + bx2, y + by2, ax, ay, bx - bx2, by - by2) {
        lemma_gseq_covers(x + bx2, y + by2, ax, ay, bx - bx2, by - by2, px, py);
        let i = choose|i: int| 0 <= i < s2.len() && #[trigger] s2[i] == (px, py);
        assert(s[s1.len() + i] == (px, py));
    } else {
        lemma_gseq_covers(x3, y3, -bx2, -by2, -(ax - ax2), -(ay - ay2), px, py);
        let i = choose|i: int| 0 <= i < s3.len() && #[trigger] s3[i] == (px, py);
        assert(s[s1.len() + s2.len() + i] == (px, py));
    }
}

/// Every cell of the `width × height` Gilbert order lies on the grid.
pub proof fn lemma_gilbert_in_grid(width: int, height: int, d: int)
    requires
        0 < width <= coord_bound(),
        0 < height <= coord_bound(),
        0 <= d < gilbert_spec(width, height).len(),
    ensures
        0 <= gilbert_spec(width, height)[d].0 < width,
        0 <= gilbert_spec(width, height)[d].1 < height,
{
    if width >= height {
        lemma_gseq_in_box(0, 0, width, 0, 0, height, d);
    } else {
        lemma_gseq_in_box(0, 0, 0, height, width, 0, d);
    }
}

/// The `width × height` Gilbert order holds exactly `width · height` cells.
pub proof fn lemma_gilbert_len(width: int, height: int)
    requires
        0 <= width <= coord_bound(),
        0 <= height <= coord_bound(),
    ensures
        gilbert_spec(width, height).len() == width * height,
{
    if width == 0 || height == 0 {
        assert(width * height == 0) by (nonlinear_arith)
            requires
                width == 0 || height == 0,
        ;
    } else if width >= height {
        lemma_gseq_len(0, 0, width, 0, 0, height);
    } else {
        lemma_gseq_len(0, 0, 0, height, width, 0);
        assert(height * width == width * height) by (nonlinear_arith);
    }
}

/// The Gilbert order visits no cell twice.
pub proof fn lemma_gilbert_distinct(width: int, height: int, d: int, e: int)
    requires
        0 <= width <= coord_bound(),
        0 <= height <= coord_bound(),
        0 <= d < gilbert_spec(width, height).len(),
        0 <= e < gilbert_spec(width, height).len(),
        d != e,
    ensures
        gilbert_spec(width, height)[d] != gilbert_spec(width, height)[e],
{
    let (i, j) = if d < e {
        (d, e)
    } else {
        (e, d)
    };
    if width >= height {
        lemma_gseq_distinct(0, 0, width, 0, 0, height, i, j);
    } else {
        lemma_gseq_distinct(0, 0, 0, height, width, 0, i, j);
    }
}

/// The Gilbert order visits every cell of the grid.
pub proof fn lemma_gilbert_covers(width: int, height: int, px: int, py: int)
    requires
        width <= coord_bound(),
        height <= coord_bound(),
        0 <= px < width,
        0 <= py < height,
    ensures
        exists|d: int|
            0 <= d < gilbert_spec(width, height).len() && #[trigger] gilbert_spec(width, height)[d]
                == (px, py),
{
    let g = gilbert_spec(width, height);
    if width >= height {
        lemma_gseq_covers(0, 0, width, 0, 0, height, px, py);
        let s = gseq(0, 0, width, 0, 0, height);
        let i = choose|i: int| 0 <= i < s.len() && #[trigger] s[i] == (px, py);
        assert(g[i] == (px, py));
    } else {
        lemma_gseq_covers(0, 0, 0, height, width, 0, px, py);
        let s = gseq(0, 0, 0, height, width, 0);
        let i = choose|i: int| 0 <= i < s.len() && #[trigger] s[i] == (px, py);
        assert(g[i] == (px, py));
    }
}

/// The Gilbert order pairs line indices and grid cells one to one: the cell of index
/// `d` lies on the grid, and no other index has that cell, so looking the cell up
/// again gives back `d`.
pub proof fn lemma_gilbert_round_trip(width: int, height: int, d: int)
    requires
        0 <= width <= coord_bound(),
        0 <= height <= coord_bound(),
        0 <= d < width * height,
    ensures
        ({
            let o = as_cells(gilbert_spec(width, height));
            &&& o.len() == width * height
            &&& (o[d].0 as int) < width
            &&& (o[d].1 as int) < height
            &&& forall|e: int| 0 <= e < o.len() && #[trigger] o[e] == o[d] ==> e == d
        }),
{
    let g = gilbert_spec(width, height);
    let o = as_cells(g);
    lemma_gilbert_len(width, height);
    assert(width > 0 && height > 0) by (nonlinear_arith)
        requires
            0 <= width,
            0 <= height,
            0 <= d < width * height,
    ;
    lemma_gilbert_in_grid(width, height, d);
    assert forall|e: int| 0 <= e < o.len() && #[trigger] o[e] == o[d] implies e == d by {
        if e != d {
            lemma_gilbert_in_grid(width, height, e);
            lemma_gilbert_distinct(width, height, d, e);
            assert(o[e] == (g[e].0 as u32, g[e].1 as u32));
            assert(o[d] == (g[d].0 as u32, g[d].1 as u32));
        }
    }
}

/// When the two sides share parity, the Gilbert order of a `width × height` grid is
/// strictly 4-continuous: consecutive line indices lie on cells that share an edge.
pub proof fn lemma_gilbert_adjacent(width: int, height: int, d: int)
    requires
        0 < width <= coord_bound(),
        0 < height <= coord_bound(),
        width % 2 == height % 2,
        0 <= d < width * height - 1,
    ensures
        iabs(gilbert_spec(width, height)[d].0 - gilbert_spec(width, height)[d + 1].0) + iabs(
            gilbert_spec(width, height)[d].1 - gilbert_spec(width, height)[d + 1].1,
        ) == 1,
        unit_step(
            as_cells(gilbert_spec(width, height))[d],
            as_cells(gilbert_spec(width, height))[d + 1],
        ),
{
    let g = gilbert_spec(width, height);
    lemma_gilbert_len(width, height);
    if width >= height {
        assert(box_ok(0, 0, width, 0, 0, height));
        assert(joinable(width, 0, 0, height));
        lemma_gseq_path(0, 0, width, 0, 0, height);
    } else {
        assert(box_ok(0, 0, 0, height, width, 0));
        assert(joinable(0, height, width, 0));
        lemma_gseq_path(0, 0, 0, height, width, 0);
    }
    assert(iabs(g[d].0 - g[d + 1].0) + iabs(g[d].1 - g[d + 1].1) == 1);
    lemma_gilbert_in_grid(width, height, d);
    lemma_gilbert_in_grid(width, height, d + 1);
}

/// Whether a `width × height` Gilbert curve is strictly 4-continuous: exactly when the
/// two dimensions share parity.
pub fn strictly_continuous(width: u32, height: u32) -> (r: bool)
    ensures
        r == (width % 2 == height % 2),
{
    width % 2 == height % 2
}

} // verus!

verus! {

/// The cells of `s` at the positions where `keep` holds, in order.
pub open spec fn select(s: Seq<(u32, u32)>, keep: Seq<bool>) -> Seq<(u32, u32)>
    decreases s.len(),
{
    if s.len() == 0 || keep.len() == 0 {
        Seq::empty()
    } else {
        let rest = select(s.drop_last(), keep.drop_last());
        if keep.last() {
            rest.push(s.last())
        } else {
            rest
        }
    }
}

/// Grid cells in row-major order are numbered injectively.
proof fn lemma_index_injective(x1: int, y1: int, x2: int, y2: int, w: int)
    requires
        0 <= x1 < w,
        0 <= x2 < w,
        0 <= y1,
        0 <= y2,
        y1 * w + x1 == y2 * w + x2,
    ensures
        x1 == x2,
        y1 == y2,
{
    if y1 < y2 {
        assert(y1 * w + w <= y2 * w) by (nonlinear_arith)
            requires
                y1 < y2,
                w > 0,
        ;
    } else if y2 < y1 {
        assert(y2 * w + w <= y1 * w) by (nonlinear_arith)
            requires
                y2 < y1,
                w > 0,
        ;
    }
}

/// A grid cell's row-major number lies below the grid's area.
proof fn lemma_index_bound(x: int, y: int, w: int, h: int)
    requires
        0 <= x < w,
        0 <= y < h,
    ensures
        0 <= y * w + x < w * h,
{
    assert(0 <= y * w + x < w * h) by (nonlinear_arith)
        requires
            0 <= x < w,
            0 <= y < h,
    ;
}

/// A materialised Gilbert mapping for a fixed `width × height` grid: both `d → (x, y)`
/// and `(x, y) → d` in constant time.
#[derive(Debug)]
pub struct Gilbert {
    width: u32,
    height: u32,
    forward: Vec<(u32, u32)>,
    inverse: Vec<u32>,
}

impl Gilbert {
    #[verifier::type_invariant]
    spec fn inv(self) -> bool {
        &&& self.width <= coord_bound()
        &&& self.height <= coord_bound()
        &&& self.width * self.height <= u32::MAX
        &&& self.forward@ == as_cells(gilbert_spec(self.width as int, self.height as int))
        &&& self.inverse@.len() == self.width * self.height
        &&& forall|d: int|
            0 <= d < self.forward@.len() ==> self.inverse@[self.forward@[d].1 * self.width
                + self.forward@[d].0] == d
    }

    /// The grid width.
    pub closed spec fn width_spec(&self) -> int {
        self.width as int
    }

    /// The grid height.
    pub closed spec fn height_spec(&self) -> int {
        self.height as int
    }

    /// The visiting order: entry `d` is the cell of line index `d`.
    pub closed spec fn order(&self) -> Seq<(u32, u32)> {
        self.forward@
    }

    /// Build the mapping for a `width × height` grid.
    pub fn new(width: u32, height: u32) -> (g: Self)
        requires
            width <= coord_bound(),
            height <= coord_bound(),
            width * height <= u32::MAX,
        ensures
            g.width_spec() == width,
            g.height_spec() == height,
            g.order() == as_cells(gilbert_spec(width as int, height as int)),
    {
        let forward = gilbert_cells(width, height);
        proof {
            lemma_gilbert_len(width as int, height as int);
        }
        let n = forward.len();
        let mut inverse: Vec<u32> = Vec::new();
        let mut k: usize = 0;
        while k < n
            invariant
                k <= n,
                inverse@.len() == k,
            decreases n - k,
        {
            inverse.push(0);
            k = k + 1;
        }
        let mut d: usize = 0;
        while d < n
            invariant
                width <= coord_bound(),
                height <= coord_bound(),
                width * height <= u32::MAX,
                n == width * height,
                forward@ == as_cells(gilbert_spec(width as int, height as int)),
                forward@.len() == n,
                inverse@.len() == n,
                d <= n,
                forall|e: int|
                    0 <= e < d ==> inverse@[forward@[e].1 * width + forward@[e].0] == e,
            decreases n - d,
        {
            let (x, y) = forward[d];
            proof {
                lemma_gilbert_in_grid(width as int, height as int, d as int);
                lemma_index_bound(x as int, y as int, width as int, height as int);
                assert forall|e: int| 0 <= e < d implies forward@[e].1 * width + forward@[e].0 != y
                    * width + x by {
                    lemma_gilbert_in_grid(width as int, height as int, e);
                    lemma_gilbert_distinct(width as int, height as int, d as int, e);
                    if forward@[e].1 * width + forward@[e].0 == y * width + x {
                        lemma_index_injective(
                            forward@[e].0 as int,
                            forward@[e].1 as int,
                            x as int,
                            y as int,
                            width as int,
                        );
                    }
                }
            }
            let i = (y * width + x) as usize;
            let ghost before = inverse@;
            inverse.set(i, d as u32);
            proof {
                assert forall|e: int| 0 <= e < d + 1 implies inverse@[forward@[e].1 * width
                    + forward@[e].0] == e by {
                    lemma_gilbert_in_grid(width as int, height as int, e);
                    lemma_index_bound(
                        forward@[e].0 as int,
                        forward@[e].1 as int,
                        width as int,
                        height as int,
                    );
                    if e < d {
                        assert(before[forward@[e].1 * width + forward@[e].0] == e);
                    } else {
                        assert(forward@[e].1 * width + forward@[e].0 == i);
                    }
                }
            }
            d = d + 1;
        }
        Gilbert { width, height, forward, inverse }
    }

    /// The grid width.
    pub fn width(&self) -> (r: u32)
        ensures
            r == self.width_spec(),
    {
        self.width
    }

    /// The grid height.
    pub fn height(&self) -> (r: u32)
        ensures
            r == self.height_spec(),
    {
        self.height
    }

    /// The number of cells on the curve, `width · height`.
    pub fn len(&self) -> (r: usize)
        ensures
            r == self.order().len(),
            r == self.width_spec() * self.height_spec(),
            self.order() == as_cells(gilbert_spec(self.width_spec(), self.height_spec())),
    {
        proof {
            use_type_invariant(self);
            lemma_gilbert_len(self.width as int, self.height as int);
        }
        self.forward.len()
    }

    /// Whether the grid is empty (either dimension 0).
    pub fn is_empty(&self) -> (r: bool)
        ensures
            r == (self.order().len() == 0),
            r == (self.width_spec() == 0 || self.height_spec() == 0),
    {
        proof {
            use_type_invariant(self);
            lemma_gilbert_len(self.width as int, self.height as int);
            assert(self.width * self.height == 0 <==> (self.width == 0 || self.height == 0))
                by (nonlinear_arith);
        }
        self.forward.len() == 0
    }

    /// The grid cell holding line index `d`.
    pub fn d_to_xy(&self, d: usize) -> (r: (u32, u32))
        requires
            d < self.order().len(),
        ensures
            r == self.order()[d as int],
            r.0 < self.width_spec(),
            r.1 < self.height_spec(),
    {
        proof {
            use_type_invariant(self);
            lemma_gilbert_in_grid(self.width as int, self.height as int, d as int);
        }
        self.forward[d]
    }

    /// The line index at grid cell `(x, y)`, or `None` off the grid.
    pub fn xy_to_d(&self, x: u32, y: u32) -> (r: Option<u32>)
        ensures
            (x >= self.width_spec() || y >= self.height_spec()) ==> r.is_none(),
            (x < self.width_spec() && y < self.height_spec()) ==> (r matches Some(d) && d
                < self.order().len() && self.order()[d as int] == (x, y) && forall|e: int|
                0 <= e < self.order().len() && #[trigger] self.order()[e] == (x, y) ==> e == d),
    {
        proof {
            use_type_invariant(self);
        }
        if x >= self.width || y >= self.height {
            return None;
        }
        proof {
            let w = self.width as int;
            let h = self.height as int;
            lemma_gilbert_covers(w, h, x as int, y as int);
            let g = gilbert_spec(w, h);
            let e = choose|e: int| 0 <= e < g.len() && #[trigger] g[e] == (x as int, y as int);
            assert(self.forward@[e] == (x, y));
            lemma_index_bound(x as int, y as int, w, h);
            lemma_gilbert_len(w, h);
            assert forall|f: int|
                0 <= f < self.forward@.len() && #[trigger] self.forward@[f] == (x, y) implies f
                == e by {
                if f != e {
                    lemma_gilbert_distinct(w, h, f, e);
                    lemma_gilbert_in_grid(w, h, f);
                }
            }
        }
        Some(self.inverse[(y * self.width + x) as usize])
    }

    /// The whole visiting order.
    pub fn cells(&self) -> (r: &[(u32, u32)])
        ensures
            r@ == self.order(),
    {
        self.forward.as_slice()
    }

    /// The allowed cells only, in curve order: the full order with the cells for
    /// which `allowed` answers `false` left out.
    pub fn masked_order<F: Fn(u32, u32) -> bool>(&self, allowed: F) -> (r: Vec<(u32, u32)>)
        requires
            forall|x: u32, y: u32| allowed.requires((x, y)),
        ensures
            exists|keep: Seq<bool>|
                {
                    &&& keep.len() == self.order().len()
                    &&& forall|i: int|
                        0 <= i < keep.len() ==> allowed.ensures(
                            (self.order()[i].0, self.order()[i].1),
                            #[trigger] keep[i],
                        )
                    &&& r@ == select(self.order(), keep)
                },
    {
        let ghost s = self.forward@;
        let ghost mut keep: Seq<bool> = Seq::empty();
        let mut out: Vec<(u32, u32)> = Vec::new();
        let n = self.forward.len();
        let mut i: usize = 0;
        while i < n
            invariant
                forall|x: u32, y: u32| allowed.requires((x, y)),
                s == self.forward@,
                n == s.len(),
                i <= n,
                keep.len() == i,
                forall|j: int|
                    0 <= j < i ==> allowed.ensures((s[j].0, s[j].1), #[trigger] keep[j]),
                out@ == select(s.take(i as int), keep),
            decreases n - i,
        {
            let (x, y) = self.forward[i];
            let b = allowed(x, y);
            proof {
                let t = s.take(i + 1);
                assert(t.drop_last() =~= s.take(i as int));
                assert(keep.push(b).drop_last() =~= keep);
                keep = keep.push(b);
            }
            if b {
                out.push((x, y));
            }
            i = i + 1;
        }
        proof {
            assert(s.take(n as int) =~= s);
            assert(out@ == select(self.order(), keep));
            assert(keep.len() == self.order().len());
        }
        out
    }
}

} // verus!

verus! {

/// The number of `true` entries of `s`.
pub open spec fn count_true(s: Seq<bool>) -> nat
    decreases s.len(),
{
    if s.len() == 0 {
        0
    } else {
        count_true(s.drop_last()) + if s.last() {
            1nat
        } else {
            0nat
        }
    }
}

proof fn lemma_count_true_bound(s: Seq<bool>)
    ensures
        count_true(s) <= s.len(),
    decreases s.len(),
{
    if s.len() > 0 {
        lemma_count_true_bound(s.drop_last());
    }
}

proof fn lemma_count_true_set(s: Seq<bool>, i: int)
    requires
        0 <= i < s.len(),
        !s[i],
    ensures
        count_true(s.update(i, true)) == count_true(s) + 1,
    decreases s.len(),
{
    let t = s.update(i, true);
    if i == s.len() - 1 {
        assert(t.drop_last() =~= s.drop_last());
    } else {
        assert(t.drop_last() =~= s.drop_last().update(i, true));
        lemma_count_true_set(s.drop_last(), i);
    }
}

/// Cells `i` and `j` of a `w × h` grid numbered in row-major order share an edge.
pub open spec fn grid_adjacent(i: int, j: int, w: int, h: int) -> bool {
    &&& 0 <= i < w * h
    &&& 0 <= j < w * h
    &&& {
        let x = i % w;
        let y = i / w;
        ||| (x > 0 && j == i - 1)
        ||| (x + 1 < w && j == i + 1)
        ||| (y > 0 && j == i - w)
        ||| (y + 1 < h && j == i + w)
    }
}

/// `s` holds only allowed cells and every allowed neighbour of each of them.
pub open spec fn closed_region(mask: Seq<bool>, w: int, h: int, s: Set<int>) -> bool {
    forall|i: int|
        #[trigger] s.contains(i) ==> 0 <= i < mask.len() && mask[i] && (forall|j: int|
            grid_adjacent(i, j, w, h) && mask[j] ==> s.contains(j))
}

/// Every allowed cell is reachable from `start` in unit steps over allowed cells: every
/// closed set of allowed cells that holds `start` holds them all.
pub open spec fn connected_from(mask: Seq<bool>, w: int, h: int, start: int) -> bool {
    forall|s: Set<int>|
        #[trigger] closed_region(mask, w, h, s) && s.contains(start) ==> forall|j: int|
            0 <= j < mask.len() && mask[j] ==> s.contains(j)
}

/// The position of the first `true` entry of `s`, or its length if there is none.
pub open spec fn first_true(s: Seq<bool>) -> int
    decreases s.len(),
{
    if s.len() == 0 {
        0
    } else if s[0] {
        0
    } else {
        1 + first_true(s.drop_first())
    }
}

proof fn lemma_first_true(s: Seq<bool>)
    ensures
        0 <= first_true(s) <= s.len(),
        first_true(s) < s.len() ==> s[first_true(s)],
        forall|j: int| 0 <= j < first_true(s) ==> !s[j],
    decreases s.len(),
{
    if s.len() > 0 && !s[0] {
        lemma_first_true(s.drop_first());
        assert forall|j: int| 0 <= j < first_true(s) implies !s[j] by {
            if j > 0 {
                assert(s[j] == s.drop_first()[j - 1]);
            }
        }
    }
}

/// The chessboard balance of the first `k` cells: allowed cells with `x + y` even count
/// `+1`, allowed cells with `x + y` odd count `-1`.
pub open spec fn balance_prefix(mask: Seq<bool>, w: int, k: int) -> int
    decreases k,
{
    if k <= 0 {
        0
    } else {
        balance_prefix(mask, w, k - 1) + if !mask[k - 1] {
            0int
        } else if ((k - 1) % w + (k - 1) / w) % 2 == 0 {
            1int
        } else {
            -1int
        }
    }
}

/// Whether an allowed region can carry a continuous unit-step strand.
#[derive(PartialEq, Eq, Structural, Clone, Copy, Debug)]
pub struct Feasibility {
    /// The allowed cells form a single 4-connected component.
    pub connected: bool,
    /// Allowed cells with `x + y` even minus allowed cells with `x + y` odd.
    pub color_balance: i32,
    /// A Hamiltonian path can exist: connected and `|balance| <= 1`.
    pub path_possible: bool,
    /// A Hamiltonian cycle can exist: connected and `balance == 0`.
    pub cycle_possible: bool,
}

/// The feasibility of a mask laid out row-major over a `w × h` grid.
pub open spec fn feasibility_spec(mask: Seq<bool>, w: int, h: int) -> Feasibility {
    let b = balance_prefix(mask, w, mask.len() as int);
    let c = first_true(mask) < mask.len() && connected_from(mask, w, h, first_true(mask));
    Feasibility {
        connected: c,
        color_balance: b as i32,
        path_possible: c && -1 <= b <= 1,
        cycle_possible: c && b == 0,
    }
}

/// Mark cell `nid` seen and push it, if it is allowed and not yet seen.
fn visit(mask: &Vec<bool>, seen: &mut Vec<bool>, stack: &mut Vec<usize>, nid: usize)
    requires
        nid < mask@.len(),
        old(seen)@.len() == mask@.len(),
    ensures
        final(seen)@.len() == mask@.len(),
        (mask@[nid as int] && !old(seen)@[nid as int]) ==> (final(seen)@ == old(seen)@.update(
            nid as int,
            true,
        ) && final(stack)@ == old(stack)@.push(nid)),
        !(mask@[nid as int] && !old(seen)@[nid as int]) ==> (final(seen)@ == old(seen)@
            && final(stack)@ == old(stack)@),
{
    if mask[nid] && !seen[nid] {
        seen.set(nid, true);
        stack.push(nid);
    }
}

/// One visit keeps every newly seen cell on the stack.
proof fn lemma_new_pushed_step(
    s0: Seq<bool>,
    sa: Seq<bool>,
    ta: Seq<usize>,
    sb: Seq<bool>,
    tb: Seq<usize>,
    nid: usize,
)
    requires
        sa.len() == s0.len(),
        sb.len() == s0.len(),
        forall|i: int| 0 <= i < s0.len() && #[trigger] sa[i] && !s0[i] ==> ta.contains(i as usize),
        forall|i: int| 0 <= i < s0.len() ==> #[trigger] sb[i] == (sa[i] || (i == nid && sb[i])),
        tb == ta || tb == ta.push(nid),
        sb[nid as int] && !sa[nid as int] ==> tb == ta.push(nid),
    ensures
        forall|i: int| 0 <= i < s0.len() && #[trigger] sb[i] && !s0[i] ==> tb.contains(i as usize),
{
    assert forall|i: int| 0 <= i < s0.len() && #[trigger] sb[i] && !s0[i] implies tb.contains(
        i as usize,
    ) by {
        if sa[i] {
            let k = choose|k: int| 0 <= k < ta.len() && ta[k] == i as usize;
            assert(tb[k] == ta[k]);
        } else {
            assert(tb[ta.len() as int] == nid);
        }
    }
}

/// One flood-fill step from cell `id`: mark and push every allowed, unseen neighbour.
#[verifier::rlimit(90)]
#[verifier::spinoff_prover]
fn expand(mask: &Vec<bool>, seen: &mut Vec<bool>, stack: &mut Vec<usize>, id: usize, w: usize, h: usize)
    requires
        w * h == mask@.len(),
        w > 0,
        id < mask@.len(),
        old(seen)@.len() == mask@.len(),
    ensures
        final(seen)@.len() == mask@.len(),
        forall|i: int|
            0 <= i < mask@.len() ==> #[trigger] final(seen)@[i] == (old(seen)@[i] || (mask@[i]
                && grid_adjacent(id as int, i, w as int, h as int))),
        final(stack)@.len() >= old(stack)@.len(),
        final(stack)@.subrange(0, old(stack)@.len() as int) == old(stack)@,
        forall|k: int|
            old(stack)@.len() <= k < final(stack)@.len() ==> {
                let c = #[trigger] final(stack)@[k];
                &&& grid_adjacent(id as int, c as int, w as int, h as int)
                &&& mask@[c as int]
                &&& !old(seen)@[c as int]
            },
        count_true(final(seen)@) == count_true(old(seen)@) + (final(stack)@.len() - old(
            stack,
        )@.len()),
        forall|i: int|
            0 <= i < mask@.len() && #[trigger] final(seen)@[i] && !old(seen)@[i] ==> final(stack)@.contains(i as usize),
{
    let ghost s0 = seen@;
    let ghost t0 = stack@;
    proof {
        lemma_divmod_cell(id as int, w as int, h as int);
    }
    let n = mask.len();
    let x = id % w;
    let y = id / w;
    if x > 0 {
        let ghost sa = seen@;
        let ghost ta = stack@;
        visit_counted(mask, seen, stack, id - 1);
        proof {
            lemma_new_pushed_step(s0, sa, ta, seen@, stack@, (id - 1) as usize);
        }
    }
    if x + 1 < w {
        proof {
            assert(id + 1 <= y * w + w) by (nonlinear_arith)
                requires
                    id == y * w + x,
                    x + 1 < w,
            ;
            assert(y * w + w <= h * w) by (nonlinear_arith)
                requires
                    y + 1 <= h,
                    w > 0,
            ;
            assert(h * w == w * h) by (nonlinear_arith);
            assert(id + 1 <= n);
        }
        let ghost sa = seen@;
        let ghost ta = stack@;
        visit_counted(mask, seen, stack, id + 1);
        proof {
            lemma_new_pushed_step(s0, sa, ta, seen@, stack@, (id + 1) as usize);
        }
    }
    if y > 0 {
        proof {
            assert(id >= w) by (nonlinear_arith)
                requires
                    id == y * w + x,
                    y > 0,
                    x >= 0,
                    w > 0,
            ;
        }
        let ghost sa = seen@;
        let ghost ta = stack@;
        visit_counted(mask, seen, stack, id - w);
        proof {
            lemma_new_pushed_step(s0, sa, ta, seen@, stack@, (id - w) as usize);
        }
    }
    if y + 1 < h {
        proof {
            assert((y + 1) * w <= h * w) by (nonlinear_arith)
                requires
                    y + 1 <= h,
                    w > 0,
            ;
            assert(id + w == (y + 1) * w + x) by (nonlinear_arith)
                requires
                    id == y * w + x,
            ;
            assert(h * w == w * h) by (nonlinear_arith);
            assert(id + w < n) by (nonlinear_arith)
                requires
                    id + w == (y + 1) * w + x,
                    (y + 1) * w <= h * w,
                    x < w,
                    h * w == w * h,
                    w * h == n,
                    y + 1 < h,
                    w > 0,
            ;
        }
        let ghost sa = seen@;
        let ghost ta = stack@;
        visit_counted(mask, seen, stack, id + w);
        proof {
            lemma_new_pushed_step(s0, sa, ta, seen@, stack@, (id + w) as usize);
        }
    }
    proof {
        assert forall|i: int| 0 <= i < mask@.len() implies #[trigger] seen@[i] == (s0[i] || (
        mask@[i] && grid_adjacent(id as int, i, w as int, h as int))) by {
            assert((y + 1) * w == y * w + w) by (nonlinear_arith);
        }
        assert forall|k: int| t0.len() <= k < stack@.len() implies {
            let c = #[trigger] stack@[k];
            &&& grid_adjacent(id as int, c as int, w as int, h as int)
            &&& mask@[c as int]
            &&& !s0[c as int]
        } by {
            assert((y + 1) * w == y * w + w) by (nonlinear_arith);
        }
    }
}

/// [`visit`], with what it does to the count of seen cells.
fn visit_counted(mask: &Vec<bool>, seen: &mut Vec<bool>, stack: &mut Vec<usize>, nid: usize)
    requires
        nid < mask@.len(),
        old(seen)@.len() == mask@.len(),
    ensures
        final(seen)@.len() == mask@.len(),
        forall|i: int|
            0 <= i < mask@.len() ==> #[trigger] final(seen)@[i] == (old(seen)@[i] || (i == nid
                && mask@[i])),
        (mask@[nid as int] && !old(seen)@[nid as int]) ==> final(stack)@ == old(stack)@.push(nid),
        !(mask@[nid as int] && !old(seen)@[nid as int]) ==> final(stack)@ == old(stack)@,
        count_true(final(seen)@) == count_true(old(seen)@) + (final(stack)@.len() - old(
            stack,
        )@.len()),
{
    let ghost s0 = seen@;
    proof {
        if mask@[nid as int] && !s0[nid as int] {
            lemma_count_true_set(s0, nid as int);
        }
    }
    visit(mask, seen, stack, nid);
}

/// Flood-fill from `start`: the cells reached over allowed unit steps.
#[verifier::rlimit(60)]
fn flood(mask: &Vec<bool>, w: usize, h: usize, start: usize) -> (seen: Vec<bool>)
    requires
        w * h == mask@.len(),
        w > 0,
        start < mask@.len(),
        mask@[start as int],
    ensures
        seen@.len() == mask@.len(),
        seen@[start as int],
        forall|i: int| 0 <= i < seen@.len() && #[trigger] seen@[i] ==> mask@[i],
        forall|i: int, j: int|
            0 <= i < seen@.len() && seen@[i] && #[trigger] grid_adjacent(i, j, w as int, h as int)
                && mask@[j] ==> seen@[j],
        forall|s: Set<int>|
            #[trigger] closed_region(mask@, w as int, h as int, s) && s.contains(start as int)
                ==> forall|i: int| 0 <= i < seen@.len() && #[trigger] seen@[i] ==> s.contains(i),
{
    let n = mask.len();
    let mut seen: Vec<bool> = Vec::new();
    let mut k: usize = 0;
    while k < n
        invariant
            k <= n,
            seen@.len() == k,
            forall|i: int| 0 <= i < k ==> !seen@[i],
        decreases n - k,
    {
        seen.push(false);
        k = k + 1;
    }
    proof {
        lemma_all_false_count(seen@);
        lemma_count_true_set(seen@, start as int);
    }
    let ghost blank = seen@;
    seen.set(start, true);
    let mut stack: Vec<usize> = Vec::new();
    stack.push(start);
    let ghost wi = w as int;
    let ghost hi = h as int;
    proof {
        assert(stack@[0] == start);
        assert forall|i: int| 0 <= i < n && #[trigger] seen@[i] implies i == start by {
            if i != start {
                assert(!blank[i]);
            }
        }
    }
    while stack.len() > 0
        invariant
            w * h == mask@.len(),
            w > 0,
            n == mask@.len(),
            wi == w,
            hi == h,
            start < n,
            seen@.len() == n,
            seen@[start as int],
            forall|i: int| 0 <= i < n && #[trigger] seen@[i] ==> mask@[i],
            forall|k: int|
                0 <= k < stack@.len() ==> #[trigger] stack@[k] < n && seen@[stack@[k] as int],
            forall|i: int, j: int|
                0 <= i < n && seen@[i] && !stack@.contains(i as usize) && #[trigger] grid_adjacent(
                    i,
                    j,
                    wi,
                    hi,
                ) && mask@[j] ==> seen@[j],
            forall|s: Set<int>|
                #[trigger] closed_region(mask@, wi, hi, s) && s.contains(start as int) ==> forall|
                    i: int,
                | 0 <= i < n && #[trigger] seen@[i] ==> s.contains(i),
            count_true(seen@) <= n,
        decreases 2 * (n - count_true(seen@)) + stack@.len(),
    {
        let ghost t_before = stack@;
        let ghost s_before = seen@;
        let id = stack.pop().unwrap();
        let ghost t_popped = stack@;
        proof {
            assert(t_before == t_popped.push(id));
            assert(t_before[t_before.len() - 1] == id);
        }
        expand(mask, &mut seen, &mut stack, id, w, h);
        proof {
            lemma_count_true_bound(seen@);
            assert forall|k: int| 0 <= k < stack@.len() implies #[trigger] stack@[k] < n
                && seen@[stack@[k] as int] by {
                if k < t_popped.len() {
                    assert(stack@.subrange(0, t_popped.len() as int)[k] == stack@[k]);
                    assert(t_before[k] == t_popped[k]);
                }
            }
            assert forall|i: int, j: int|
                0 <= i < n && seen@[i] && !stack@.contains(i as usize) && #[trigger] grid_adjacent(
                    i,
                    j,
                    wi,
                    hi,
                ) && mask@[j] implies seen@[j] by {
                if i != id {
                    if !s_before[i] {
                        assert(stack@.contains(i as usize));
                    }
                    assert(s_before[i]);
                    if t_before.contains(i as usize) {
                        let k = choose|k: int| 0 <= k < t_before.len() && t_before[k] == i as usize;
                        assert(k < t_popped.len());
                        assert(stack@[k] == t_popped[k]);
                        assert(stack@.contains(i as usize));
                    }
                    assert(s_before[j]);
                }
            }
            assert forall|s: Set<int>|
                #[trigger] closed_region(mask@, wi, hi, s) && s.contains(start as int) implies forall|
                    i: int,
                | 0 <= i < n && #[trigger] seen@[i] ==> s.contains(i) by {
                assert(s.contains(id as int));
                assert forall|i: int| 0 <= i < n && #[trigger] seen@[i] implies s.contains(i) by {
                    if !s_before[i] {
                        assert(grid_adjacent(id as int, i, wi, hi));
                    }
                }
            }
        }
    }
    seen
}

proof fn lemma_all_false_count(s: Seq<bool>)
    requires
        forall|i: int| 0 <= i < s.len() ==> !s[i],
    ensures
        count_true(s) == 0,
    decreases s.len(),
{
    if s.len() > 0 {
        lemma_all_false_count(s.drop_last());
    }
}

proof fn lemma_divmod_cell(id: int, w: int, h: int)
    requires
        0 <= id < w * h,
        w > 0,
    ensures
        0 <= id % w < w,
        0 <= id / w < h,
        id == (id / w) * w + id % w,
{
    assert(id == (id / w) * w + id % w) by (nonlinear_arith)
        requires
            w > 0,
    ;
    assert(0 <= id / w < h) by (nonlinear_arith)
        requires
            w > 0,
            0 <= id < w * h,
    ;
}

} // verus!

verus! {

/// The chessboard balance of the whole mask.
fn balance_of(mask: &Vec<bool>, w: usize) -> (b: i32)
    requires
        w > 0,
        mask@.len() <= i32::MAX,
    ensures
        b == balance_prefix(mask@, w as int, mask@.len() as int),
{
    let n = mask.len();
    let mut b: i32 = 0;
    let mut i: usize = 0;
    while i < n
        invariant
            w > 0,
            n == mask@.len(),
            n <= i32::MAX,
            i <= n,
            b == balance_prefix(mask@, w as int, i as int),
            -(i as int) <= b <= i,
        decreases n - i,
    {
        proof {
            assert(i % w <= i && i / w <= i) by (nonlinear_arith)
                requires
                    w > 0,
            ;
        }
        if mask[i] {
            if (i % w + i / w) % 2 == 0 {
                b = b + 1;
            } else {
                b = b - 1;
            }
        }
        i = i + 1;
    }
    b
}

/// Test whether the allowed cells of a `width × height` grid could carry a continuous
/// unit-step strand visiting each of them once: they must form one 4-connected region,
/// and a strand alternates chessboard colours, so it needs a colour balance within one
/// (a closed loop needs it to be zero).
pub fn region_feasibility<F: Fn(u32, u32) -> bool>(width: u32, height: u32, allowed: F) -> (r:
    Feasibility)
    requires
        forall|x: u32, y: u32| allowed.requires((x, y)),
        width * height <= i32::MAX,
    ensures
        exists|m: Seq<bool>|
            {
                &&& m.len() == width * height
                &&& forall|i: int|
                    0 <= i < m.len() ==> allowed.ensures(
                        ((i % width as int) as u32, (i / width as int) as u32),
                        #[trigger] m[i],
                    )
                &&& r == feasibility_spec(m, width as int, height as int)
            },
{
    let w = width as usize;
    let h = height as usize;
    let n = w * h;
    let mut mask: Vec<bool> = Vec::new();
    let mut i: usize = 0;
    while i < n
        invariant
            forall|x: u32, y: u32| allowed.requires((x, y)),
            n == w * h,
            w == width,
            h == height,
            n <= i32::MAX,
            i <= n,
            mask@.len() == i,
            forall|k: int|
                0 <= k < i ==> allowed.ensures(
                    ((k % width as int) as u32, (k / width as int) as u32),
                    #[trigger] mask@[k],
                ),
        decreases n - i,
    {
        proof {
            lemma_divmod_cell(i as int, w as int, h as int);
        }
        let a = allowed((i % w) as u32, (i / w) as u32);
        mask.push(a);
        i = i + 1;
    }
    let mut first: usize = 0;
    while first < n && !mask[first]
        invariant
            n == mask@.len(),
            first <= n,
            forall|k: int| 0 <= k < first ==> !mask@[k],
        decreases n - first,
    {
        first = first + 1;
    }
    proof {
        lemma_first_true(mask@);
        if first < n {
            assert(first_true(mask@) == first) by {
                if first_true(mask@) < first {
                    assert(!mask@[first_true(mask@)]);
                }
            }
        } else {
            assert(first_true(mask@) == n) by {
                if first_true(mask@) < n {
                    assert(!mask@[first_true(mask@)]);
                }
            }
        }
    }
    let mut connected = false;
    if first < n {
        let seen = flood(&mask, w, h, first);
        let mut all = true;
        let mut j: usize = 0;
        while j < n
            invariant
                n == mask@.len(),
                seen@.len() == n,
                j <= n,
                all == (forall|k: int| 0 <= k < j && mask@[k] ==> seen@[k]),
            decreases n - j,
        {
            if mask[j] && !seen[j] {
                all = false;
            }
            j = j + 1;
        }
        connected = all;
        proof {
            let wi = w as int;
            let hi = h as int;
            if all {
                assert forall|s: Set<int>|
                    #[trigger] closed_region(mask@, wi, hi, s) && s.contains(
                        first as int,
                    ) implies forall|k: int| 0 <= k < mask@.len() && mask@[k] ==> s.contains(k) by {
                    assert forall|k: int| 0 <= k < mask@.len() && mask@[k] implies s.contains(k) by {
                        assert(seen@[k]);
                    }
                }
                assert(connected_from(mask@, wi, hi, first as int));
            } else {
                let b = choose|k: int| 0 <= k < n && mask@[k] && !seen@[k];
                let s = Set::new(|k: int| 0 <= k < n && seen@[k]);
                assert(closed_region(mask@, wi, hi, s)) by {
                    assert forall|k: int| #[trigger] s.contains(k) implies 0 <= k < mask@.len()
                        && mask@[k] && (forall|j2: int|
                        grid_adjacent(k, j2, wi, hi) && mask@[j2] ==> s.contains(j2)) by {
                        assert forall|j2: int|
                            grid_adjacent(k, j2, wi, hi) && mask@[j2] implies s.contains(j2) by {
                            assert(seen@[k]);
                        }
                    }
                }
                assert(s.contains(first as int));
                assert(!s.contains(b));
                assert(!connected_from(mask@, wi, hi, first as int));
            }
        }
    }
    proof {
        lemma_all_false_count(Seq::<bool>::empty());
    }
    let balance = if w == 0 {
        0i32
    } else {
        balance_of(&mask, w)
    };
    proof {
        if w == 0 {
            assert(mask@.len() == 0);
        }
        assert(forall|k: int|
            0 <= k < mask@.len() ==> allowed.ensures(
                ((k % width as int) as u32, (k / width as int) as u32),
                #[trigger] mask@[k],
            ));
    }
    Feasibility {
        connected,
        color_balance: balance,
        path_possible: connected && -1 <= balance && balance <= 1,
        cycle_possible: connected && balance == 0,
    }
}

} // verus!

verus! {

/// The two cells are one unit step apart (they share an edge).
pub open spec fn unit_step(a: (u32, u32), b: (u32, u32)) -> bool {
    iabs(a.0 - b.0) + iabs(a.1 - b.1) == 1
}

/// The cell numbered `i` in row-major order on a grid `w` wide.
pub open spec fn cell_at(i: int, w: int) -> (u32, u32) {
    ((i % w) as u32, (i / w) as u32)
}

/// Row-major cell numbers and coordinates agree.
proof fn lemma_cell_coords(x: int, y: int, w: int)
    requires
        0 <= x < w,
        0 <= y,
    ensures
        (y * w + x) % w == x,
        (y * w + x) / w == y,
{
    vstd::arithmetic::div_mod::lemma_fundamental_div_mod_converse_mod(y * w + x, w, y, x);
    vstd::arithmetic::div_mod::lemma_fundamental_div_mod_converse_div(y * w + x, w, y, x);
}

/// Two grid cells given by coordinates one unit step apart are adjacent by number.
proof fn lemma_adjacent_xy(x1: int, y1: int, x2: int, y2: int, w: int, h: int)
    requires
        0 <= x1 < w,
        0 <= y1 < h,
        0 <= x2 < w,
        0 <= y2 < h,
        iabs(x1 - x2) + iabs(y1 - y2) == 1,
    ensures
        grid_adjacent(y1 * w + x1, y2 * w + x2, w, h),
        grid_adjacent(y2 * w + x2, y1 * w + x1, w, h),
{
    lemma_cell_coords(x1, y1, w);
    lemma_cell_coords(x2, y2, w);
    lemma_index_bound(x1, y1, w, h);
    lemma_index_bound(x2, y2, w, h);
    assert((y1 + 1) * w == y1 * w + w) by (nonlinear_arith);
    assert((y1 - 1) * w == y1 * w - w) by (nonlinear_arith);
}

/// Adjacent cells by number are one unit step apart.
proof fn lemma_adjacent_unit(i: int, j: int, w: int, h: int)
    requires
        grid_adjacent(i, j, w, h),
        w > 0,
        w * h <= u32::MAX,
    ensures
        unit_step(cell_at(i, w), cell_at(j, w)),
        0 <= cell_at(j, w).0 < w,
        0 <= cell_at(j, w).1 < h,
{
    let x = i % w;
    let y = i / w;
    lemma_divmod_cell(i, w, h);
    lemma_divmod_cell(j, w, h);
    if x > 0 && j == i - 1 {
        lemma_cell_coords(x - 1, y, w);
    } else if x + 1 < w && j == i + 1 {
        lemma_cell_coords(x + 1, y, w);
    } else if y > 0 && j == i - w {
        assert(j == (y - 1) * w + x) by (nonlinear_arith)
            requires
                j == i - w,
                i == y * w + x,
        ;
        lemma_cell_coords(x, y - 1, w);
    } else {
        assert(j == (y + 1) * w + x) by (nonlinear_arith)
            requires
                j == i + w,
                i == y * w + x,
        ;
        lemma_cell_coords(x, y + 1, w);
    }
    assert(i / w <= i && j / w <= j) by (nonlinear_arith)
        requires
            w > 0,
            i >= 0,
            j >= 0,
    ;
}

/// A link slot is empty (`-1`) or names an allowed cell adjacent to cell `a`.
pub open spec fn slot_ok(v: i64, a: int, mask: Seq<bool>, w: int, h: int) -> bool {
    v == -1 || (0 <= v < mask.len() && mask[v as int] && grid_adjacent(a, v as int, w, h))
}

/// Every cell's two link slots are well-formed.
pub open spec fn links_ok(nbr: Seq<(i64, i64)>, mask: Seq<bool>, w: int, h: int) -> bool {
    &&& nbr.len() == mask.len()
    &&& mask.len() == w * h
    &&& forall|a: int|
        0 <= a < nbr.len() ==> slot_ok(#[trigger] nbr[a].0, a, mask, w, h) && slot_ok(
            nbr[a].1,
            a,
            mask,
            w,
            h,
        )
}

/// The links after the first empty slot of cell `a` is set to `b` (unchanged when
/// both are taken).
pub open spec fn add_link_spec(nbr: Seq<(i64, i64)>, a: int, b: int) -> Seq<(i64, i64)> {
    let s = nbr[a];
    if s.0 < 0 {
        nbr.update(a, (b as i64, s.1))
    } else if s.1 < 0 {
        nbr.update(a, (s.0, b as i64))
    } else {
        nbr
    }
}

/// The links after cells `a` and `b` are linked both ways.
pub open spec fn link_cells(nbr: Seq<(i64, i64)>, a: int, b: int) -> Seq<(i64, i64)> {
    add_link_spec(add_link_spec(nbr, a, b), b, a)
}

/// The links after the first slot of cell `a` that holds `b` is cleared.
pub open spec fn drop_link_spec(nbr: Seq<(i64, i64)>, a: int, b: int) -> Seq<(i64, i64)> {
    let s = nbr[a];
    if s.0 == b as i64 {
        nbr.update(a, (-1i64, s.1))
    } else if s.1 == b as i64 {
        nbr.update(a, (s.0, -1i64))
    } else {
        nbr
    }
}

/// The links after cells `a` and `b` are unlinked both ways.
pub open spec fn unlink_cells(nbr: Seq<(i64, i64)>, a: int, b: int) -> Seq<(i64, i64)> {
    drop_link_spec(drop_link_spec(nbr, a, b), b, a)
}

/// Fill the first empty slot of `a` with `b` (if any is empty).
fn add_link(nbr: &mut Vec<(i64, i64)>, a: usize, b: usize, Ghost(mask): Ghost<Seq<bool>>, Ghost(
    w,
): Ghost<int>, Ghost(h): Ghost<int>)
    requires
        links_ok(old(nbr)@, mask, w, h),
        a < mask.len(),
        b < mask.len(),
        mask[b as int],
        grid_adjacent(a as int, b as int, w, h),
        mask.len() <= i64::MAX,
    ensures
        links_ok(final(nbr)@, mask, w, h),
        final(nbr)@ == add_link_spec(old(nbr)@, a as int, b as int),
{
    let s = nbr[a];
    if s.0 < 0 {
        nbr.set(a, (b as i64, s.1));
    } else if s.1 < 0 {
        nbr.set(a, (s.0, b as i64));
    }
}

/// Link cells `a` and `b` both ways.
fn link(nbr: &mut Vec<(i64, i64)>, a: usize, b: usize, Ghost(mask): Ghost<Seq<bool>>, Ghost(
    w,
): Ghost<int>, Ghost(h): Ghost<int>)
    requires
        links_ok(old(nbr)@, mask, w, h),
        a < mask.len(),
        b < mask.len(),
        mask[a as int],
        mask[b as int],
        grid_adjacent(a as int, b as int, w, h),
        grid_adjacent(b as int, a as int, w, h),
        mask.len() <= i64::MAX,
    ensures
        links_ok(final(nbr)@, mask, w, h),
        final(nbr)@ == link_cells(old(nbr)@, a as int, b as int),
{
    add_link(nbr, a, b, Ghost(mask), Ghost(w), Ghost(h));
    add_link(nbr, b, a, Ghost(mask), Ghost(w), Ghost(h));
}

/// Clear the slot of `a` that holds `b` (the first such).
fn drop_link(nbr: &mut Vec<(i64, i64)>, a: usize, b: usize, Ghost(mask): Ghost<Seq<bool>>, Ghost(
    w,
): Ghost<int>, Ghost(h): Ghost<int>)
    requires
        links_ok(old(nbr)@, mask, w, h),
        a < mask.len(),
        mask.len() <= i64::MAX,
    ensures
        links_ok(final(nbr)@, mask, w, h),
        final(nbr)@ == drop_link_spec(old(nbr)@, a as int, b as int),
{
    let s = nbr[a];
    if s.0 == b as i64 {
        nbr.set(a, (-1, s.1));
    } else if s.1 == b as i64 {
        nbr.set(a, (s.0, -1));
    }
}

/// Unlink cells `a` and `b` both ways.
fn unlink(nbr: &mut Vec<(i64, i64)>, a: usize, b: usize, Ghost(mask): Ghost<Seq<bool>>, Ghost(
    w,
): Ghost<int>, Ghost(h): Ghost<int>)
    requires
        links_ok(old(nbr)@, mask, w, h),
        a < mask.len(),
        b < mask.len(),
        mask.len() <= i64::MAX,
    ensures
        links_ok(final(nbr)@, mask, w, h),
        final(nbr)@ == unlink_cells(old(nbr)@, a as int, b as int),
{
    drop_link(nbr, a, b, Ghost(mask), Ghost(w), Ghost(h));
    drop_link(nbr, b, a, Ghost(mask), Ghost(w), Ghost(h));
}

} // verus!

verus! {

broadcast use vstd::seq_lib::group_to_multiset_ensures;

/// Sort block numbers by their rank (insertion sort, stable).
fn sort_by_rank(v: &mut Vec<usize>, rank: &Vec<usize>)
    requires
        forall|k: int| 0 <= k < old(v)@.len() ==> #[trigger] old(v)@[k] < rank@.len(),
    ensures
        final(v)@.len() == old(v)@.len(),
        final(v)@.to_multiset() == old(v)@.to_multiset(),
        forall|a: int, b: int|
            0 <= a < b < final(v)@.len() ==> rank@[#[trigger] final(v)@[a] as int]
                <= rank@[#[trigger] final(v)@[b] as int],
{
    let n = v.len();
    let mut i: usize = 1;
    while i < n
        invariant
            n == v@.len(),
            1 <= i || n == 0,
            i <= n || n == 0,
            forall|k: int| 0 <= k < v@.len() ==> #[trigger] v@[k] < rank@.len(),
            v@.to_multiset() == old(v)@.to_multiset(),
            forall|a: int, b: int|
                0 <= a < b < i && b < n ==> rank@[#[trigger] v@[a] as int] <= rank@[#[trigger] v@[b] as int],
        decreases n - i,
    {
        let mut j = i;
        while j > 0 && rank[v[j]] < rank[v[j - 1]]
            invariant
                n == v@.len(),
                0 <= j <= i < n,
                forall|k: int| 0 <= k < v@.len() ==> #[trigger] v@[k] < rank@.len(),
                v@.to_multiset() == old(v)@.to_multiset(),
                forall|a: int, b: int|
                    0 <= a < b <= i && a != j && b != j ==> rank@[#[trigger] v@[a] as int] <= rank@[#[trigger] v@[b] as int],
                forall|b: int| j < b <= i ==> rank@[v@[j as int] as int] < rank@[#[trigger] v@[b] as int],
            decreases j,
        {
            let a = v[j - 1];
            let b = v[j];
            proof {
                crate::sorting::lemma_swap_multiset(v@, j - 1, j as int);
            }
            v.set(j - 1, b);
            v.set(j, a);
            j = j - 1;
        }
        proof {
            assert forall|a: int, b: int| 0 <= a < b <= i implies rank@[#[trigger] v@[a] as int] <= rank@[#[trigger] v@[b] as int] by {
                if b == j && a < j {
                    assert(rank@[v@[a] as int] <= rank@[v@[j - 1] as int] || a == j - 1);
                }
            }
        }
        i = i + 1;
    }
}

/// The block-adjacency and allowedness facts of a spanning-tree edge.
pub open spec fn tree_edge_ok(e: (usize, usize), bmask: Seq<bool>, bw: int, bh: int) -> bool {
    &&& e.0 < bmask.len()
    &&& e.1 < bmask.len()
    &&& bmask[e.0 as int]
    &&& bmask[e.1 as int]
    &&& grid_adjacent(e.0 as int, e.1 as int, bw, bh)
}

/// `i`'s allowed neighbours are all marked in `seen`.
pub open spec fn closed_at(bmask: Seq<bool>, seen: Seq<bool>, i: int, bw: int, bh: int) -> bool {
    forall|j: int| grid_adjacent(i, j, bw, bh) && bmask[j] ==> #[trigger] seen[j]
}

/// Parents come before children in `tree`, no block is a child twice, and `start`
/// is no child: each edge reaches a block new to the tree grown so far.
pub open spec fn tree_grows(tree: Seq<(usize, usize)>, start: int) -> bool {
    &&& forall|k: int| 0 <= k < tree.len() ==> #[trigger] tree[k].1 != start
    &&& forall|k1: int, k2: int|
        0 <= k1 < k2 < tree.len() ==> #[trigger] tree[k1].1 != #[trigger] tree[k2].1
    &&& forall|k: int|
        0 <= k < tree.len() ==> #[trigger] tree[k].0 == start || exists|k2: int|
            0 <= k2 < k && #[trigger] tree[k2].1 == tree[k].0
}

/// Block `b` is `start` or a child in the first `t` edges of `tree`.
pub open spec fn in_tree(tree: Seq<(usize, usize)>, start: int, t: int, b: int) -> bool {
    b == start || exists|k: int| 0 <= k < t && #[trigger] tree[k].1 == b
}

proof fn lemma_push_contains(s: Seq<usize>, x: usize)
    ensures
        forall|v: usize| s.contains(v) ==> #[trigger] s.push(x).contains(v),
        s.push(x).contains(x),
{
    assert(s.push(x)[s.len() as int] == x);
    assert forall|v: usize| s.contains(v) implies #[trigger] s.push(x).contains(v) by {
        let i = choose|i: int| 0 <= i < s.len() && s[i] == v;
        assert(s.push(x)[i] == v);
    }
}

/// A depth-first spanning tree of the allowed blocks reachable from `start`,
/// exploring neighbours in rank order.
#[verifier::rlimit(100)]
#[verifier::spinoff_prover]
fn spanning_tree(bmask: &Vec<bool>, bw: usize, bh: usize, start: usize, rank: &Vec<usize>) -> (r: (
    Vec<bool>,
    Vec<(usize, usize)>,
))
    requires
        bw * bh == bmask@.len(),
        rank@.len() == bmask@.len(),
        bw > 0,
        start < bmask@.len(),
        bmask@[start as int],
    ensures
        r.0@.len() == bmask@.len(),
        forall|i: int| 0 <= i < r.0@.len() && #[trigger] r.0@[i] ==> bmask@[i],
        forall|s: Set<int>|
            #[trigger] closed_region(bmask@, bw as int, bh as int, s) && s.contains(start as int)
                ==> forall|i: int| 0 <= i < r.0@.len() && #[trigger] r.0@[i] ==> s.contains(i),
        forall|k: int|
            0 <= k < r.1@.len() ==> tree_edge_ok(#[trigger] r.1@[k], bmask@, bw as int, bh as int),
        forall|i: int|
            0 <= i < r.0@.len() && #[trigger] r.0@[i] ==> closed_at(bmask@, r.0@, i, bw as int, bh as int),
        tree_grows(r.1@, start as int),
        forall|i: int|
            0 <= i < r.0@.len() ==> (#[trigger] r.0@[i] <==> in_tree(r.1@, start as int, r.1@.len() as int, i)),
        r.1@.len() + 1 == count_true(r.0@),
{
    let n = bmask.len();
    let mut visited: Vec<bool> = Vec::new();
    let mut k: usize = 0;
    while k < n
        invariant
            k <= n,
            visited@.len() == k,
            forall|i: int| 0 <= i < k ==> !visited@[i],
        decreases n - k,
    {
        visited.push(false);
        k = k + 1;
    }
    proof {
        lemma_all_false_count(visited@);
        lemma_count_true_set(visited@, start as int);
    }
    visited.set(start, true);
    let mut tree: Vec<(usize, usize)> = Vec::new();
    let mut stack: Vec<usize> = Vec::new();
    stack.push(start);
    let ghost wi = bw as int;
    let ghost hi = bh as int;
    let ghost si = start as int;
    proof {
        assert(stack@[0] == start);
        assert forall|i: int|
            0 <= i < n && #[trigger] visited@[i] && !stack@.contains(i as usize) implies closed_at(
                bmask@,
                visited@,
                i,
                wi,
                hi,
            ) by {
            assert(i == si);
        }
    }
    while stack.len() > 0
        invariant
            bw * bh == n,
            n == bmask@.len(),
            rank@.len() == n,
            bw > 0,
            wi == bw,
            hi == bh,
            si == start,
            start < n,
            visited@.len() == n,
            visited@[si],
            forall|i: int| 0 <= i < n && #[trigger] visited@[i] ==> bmask@[i],
            forall|k: int|
                0 <= k < stack@.len() ==> #[trigger] stack@[k] < n && visited@[stack@[k] as int],
            forall|s: Set<int>|
                #[trigger] closed_region(bmask@, wi, hi, s) && s.contains(start as int) ==> forall|
                    i: int,
                | 0 <= i < n && #[trigger] visited@[i] ==> s.contains(i),
            forall|k: int| 0 <= k < tree@.len() ==> tree_edge_ok(#[trigger] tree@[k], bmask@, wi, hi),
            forall|i: int|
                0 <= i < n && #[trigger] visited@[i] && !stack@.contains(i as usize) ==> closed_at(
                    bmask@,
                    visited@,
                    i,
                    wi,
                    hi,
                ),
            tree_grows(tree@, si),
            forall|i: int|
                0 <= i < n ==> (#[trigger] visited@[i] <==> in_tree(tree@, si, tree@.len() as int, i)),
            tree@.len() + 1 == count_true(visited@),
            count_true(visited@) <= n,
        decreases 2 * (n - count_true(visited@)) + stack@.len(),
    {
        let ghost stack0 = stack@;
        let cur = stack.pop().unwrap();
        proof {
            lemma_divmod_cell(cur as int, bw as int, bh as int);
            assert(stack0 == stack@.push(cur));
            assert(visited@[cur as int]);
        }
        let cbx = cur % bw;
        let cby = cur / bw;
        let mut nbrs: Vec<usize> = Vec::new();
        if cbx > 0 && bmask[cur - 1] && !visited[cur - 1] {
            proof {
                lemma_push_contains(nbrs@, (cur - 1) as usize);
            }
            nbrs.push(cur - 1);
        }
        if cbx + 1 < bw {
            proof {
                assert(cur + 1 <= cby * bw + bw) by (nonlinear_arith)
                    requires
                        cur == cby * bw + cbx,
                        cbx + 1 < bw,
                ;
                assert(cby * bw + bw <= bh * bw) by (nonlinear_arith)
                    requires
                        cby + 1 <= bh,
                        bw > 0,
                ;
                assert(bh * bw == bw * bh) by (nonlinear_arith);
            }
            if bmask[cur + 1] && !visited[cur + 1] {
                proof {
                    lemma_push_contains(nbrs@, (cur + 1) as usize);
                }
                nbrs.push(cur + 1);
            }
        }
        if cby > 0 {
            proof {
                assert(cur >= bw) by (nonlinear_arith)
                    requires
                        cur == cby * bw + cbx,
                        cby > 0,
                        bw > 0,
                ;
            }
            if bmask[cur - bw] && !visited[cur - bw] {
                proof {
                    lemma_push_contains(nbrs@, (cur - bw) as usize);
                }
                nbrs.push(cur - bw);
            }
        }
        if cby + 1 < bh {
            proof {
                assert(cur + bw < n) by (nonlinear_arith)
                    requires
                        cur == cby * bw + cbx,
                        cby + 1 < bh,
                        cbx < bw,
                        bw * bh == n,
                        bw > 0,
                ;
            }
            if bmask[cur + bw] && !visited[cur + bw] {
                proof {
                    lemma_push_contains(nbrs@, (cur + bw) as usize);
                }
                nbrs.push(cur + bw);
            }
        }
        proof {
            assert((cby + 1) * bw == cby * bw + bw) by (nonlinear_arith);
            assert forall|k: int| 0 <= k < nbrs@.len() implies #[trigger] nbrs@[k] < n && bmask@[
                nbrs@[k] as int] && grid_adjacent(cur as int, nbrs@[k] as int, wi, hi) by {}
            assert forall|j: int| grid_adjacent(cur as int, j, wi, hi) && bmask@[j] && !visited@[j]
                implies #[trigger] nbrs@.contains(j as usize) by {
                if j == cur - 1 {
                    assert(nbrs@.contains(j as usize));
                } else if j == cur + 1 {
                    assert(nbrs@.contains(j as usize));
                } else if j == cur - bw {
                    assert(nbrs@.contains(j as usize));
                } else {
                    assert(nbrs@.contains(j as usize));
                }
            }
        }
        let ghost before_sort = nbrs@;
        sort_by_rank(&mut nbrs, rank);
        proof {
            assert forall|k: int| 0 <= k < nbrs@.len() implies #[trigger] nbrs@[k] < n && bmask@[
                nbrs@[k] as int] && grid_adjacent(cur as int, nbrs@[k] as int, wi, hi) by {
                let e = nbrs@[k];
                assert(nbrs@.contains(e));
                assert(nbrs@.to_multiset().count(e) > 0);
                assert(before_sort.contains(e));
            }
            assert forall|j: int| grid_adjacent(cur as int, j, wi, hi) && bmask@[j] && !visited@[j]
                implies exists|k: int| 0 <= k < nbrs@.len() && #[trigger] nbrs@[k] == j by {
                assert(before_sort.contains(j as usize));
                assert(before_sort.to_multiset().count(j as usize) > 0);
                assert(nbrs@.to_multiset().count(j as usize) > 0);
                assert(nbrs@.contains(j as usize));
            }
        }
        let ghost measure = 2 * (n - count_true(visited@)) + stack@.len();
        let mut t = nbrs.len();
        while t > 0
            invariant
                t <= nbrs@.len(),
                bw * bh == n,
                n == bmask@.len(),
                wi == bw,
                hi == bh,
                si == start,
                start < n,
                cur < n,
                visited@[cur as int],
                visited@[si],
                visited@.len() == n,
                forall|k: int|
                    0 <= k < nbrs@.len() ==> #[trigger] nbrs@[k] < n && bmask@[nbrs@[k] as int]
                        && grid_adjacent(cur as int, nbrs@[k] as int, wi, hi),
                forall|i: int| 0 <= i < n && #[trigger] visited@[i] ==> bmask@[i],
                forall|k: int|
                    0 <= k < stack@.len() ==> #[trigger] stack@[k] < n && visited@[stack@[k] as int],
                forall|s: Set<int>|
                    #[trigger] closed_region(bmask@, wi, hi, s) && s.contains(start as int)
                        ==> forall|i: int| 0 <= i < n && #[trigger] visited@[i] ==> s.contains(i),
                forall|k: int|
                    0 <= k < tree@.len() ==> tree_edge_ok(#[trigger] tree@[k], bmask@, wi, hi),
                forall|i: int|
                    0 <= i < n && i != cur && #[trigger] visited@[i] && !stack@.contains(i as usize)
                        ==> closed_at(bmask@, visited@, i, wi, hi),
                forall|j: int|
                    grid_adjacent(cur as int, j, wi, hi) && bmask@[j] && !#[trigger] visited@[j]
                        ==> exists|k: int| 0 <= k < t && #[trigger] nbrs@[k] == j,
                tree_grows(tree@, si),
                forall|i: int|
                    0 <= i < n ==> (#[trigger] visited@[i] <==> in_tree(tree@, si, tree@.len() as int, i)),
                tree@.len() + 1 == count_true(visited@),
                count_true(visited@) <= n,
                2 * (n - count_true(visited@)) + stack@.len() <= measure,
            decreases t,
        {
            t = t - 1;
            let nb = nbrs[t];
            if !visited[nb] {
                let ghost v0 = visited@;
                let ghost t0 = tree@;
                let ghost s0 = stack@;
                proof {
                    lemma_count_true_set(v0, nb as int);
                    lemma_count_true_bound(v0.update(nb as int, true));
                    assert(!in_tree(t0, si, t0.len() as int, nb as int));
                    assert(in_tree(t0, si, t0.len() as int, cur as int));
                }
                visited.set(nb, true);
                tree.push((cur, nb));
                stack.push(nb);
                proof {
                    assert forall|s: Set<int>|
                        #[trigger] closed_region(bmask@, wi, hi, s) && s.contains(
                            start as int,
                        ) implies forall|i: int|
                        0 <= i < n && #[trigger] visited@[i] ==> s.contains(i) by {
                        assert(s.contains(cur as int));
                        assert forall|i: int| 0 <= i < n && #[trigger] visited@[i] implies s.contains(
                            i,
                        ) by {
                            if i != nb {
                                assert(v0[i]);
                            }
                        }
                    }
                    let tl = t0.len() as int;
                    assert(tree@[tl] == (cur, nb));
                    assert forall|k: int| 0 <= k < tree@.len() implies #[trigger] tree@[k].1 != si by {
                        if k < tl {
                            assert(tree@[k] == t0[k]);
                        }
                    }
                    assert forall|k1: int, k2: int|
                        0 <= k1 < k2 < tree@.len() implies #[trigger] tree@[k1].1 != #[trigger] tree@[k2].1 by {
                        assert(tree@[k1] == t0[k1]);
                        if k2 < tl {
                            assert(tree@[k2] == t0[k2]);
                        } else {
                            assert(!(exists|k: int| 0 <= k < tl && #[trigger] t0[k].1 == nb));
                        }
                    }
                    assert forall|k: int| 0 <= k < tree@.len() implies #[trigger] tree@[k].0 == si
                        || exists|k2: int| 0 <= k2 < k && #[trigger] tree@[k2].1 == tree@[k].0 by {
                        if k < tl {
                            assert(tree@[k] == t0[k]);
                            if t0[k].0 != si {
                                let k2 = choose|k2: int| 0 <= k2 < k && #[trigger] t0[k2].1 == t0[k].0;
                                assert(tree@[k2] == t0[k2]);
                            }
                        } else if cur as int != si {
                            let k2 = choose|k2: int| 0 <= k2 < tl && #[trigger] t0[k2].1 == cur;
                            assert(tree@[k2] == t0[k2]);
                        }
                    }
                    assert(tree_grows(tree@, si));
                    assert forall|i: int| 0 <= i < n implies (#[trigger] visited@[i] <==> in_tree(
                        tree@,
                        si,
                        tree@.len() as int,
                        i,
                    )) by {
                        if i == nb {
                            assert(tree@[tl].1 == i);
                        } else {
                            if in_tree(t0, si, tl, i) && i != si {
                                let k = choose|k: int| 0 <= k < tl && #[trigger] t0[k].1 == i;
                                assert(tree@[k] == t0[k]);
                            }
                            if in_tree(tree@, si, tl + 1, i) && i != si {
                                let k = choose|k: int| 0 <= k < tl + 1 && #[trigger] tree@[k].1 == i;
                                assert(k < tl);
                                assert(tree@[k] == t0[k]);
                            }
                        }
                    }
                    assert(stack@[stack@.len() - 1] == nb);
                    assert forall|i: int|
                        0 <= i < n && i != cur && #[trigger] visited@[i] && !stack@.contains(i as usize)
                            implies closed_at(bmask@, visited@, i, wi, hi) by {
                        assert(i != nb);
                        assert(!s0.contains(i as usize)) by {
                            if s0.contains(i as usize) {
                                let k = choose|k: int| 0 <= k < s0.len() && s0[k] == i as usize;
                                assert(stack@[k] == s0[k]);
                            }
                        }
                        assert(closed_at(bmask@, v0, i, wi, hi));
                    }
                    assert forall|j: int|
                        grid_adjacent(cur as int, j, wi, hi) && bmask@[j] && !#[trigger] visited@[j]
                            implies exists|k: int| 0 <= k < t && #[trigger] nbrs@[k] == j by {
                        assert(!v0[j]);
                        let k = choose|k: int| 0 <= k < t + 1 && #[trigger] nbrs@[k] == j;
                        assert(k != t);
                    }
                }
            } else {
                proof {
                    assert forall|j: int|
                        grid_adjacent(cur as int, j, wi, hi) && bmask@[j] && !#[trigger] visited@[j]
                            implies exists|k: int| 0 <= k < t && #[trigger] nbrs@[k] == j by {
                        let k = choose|k: int| 0 <= k < t + 1 && #[trigger] nbrs@[k] == j;
                        assert(k != t);
                    }
                }
            }
        }
        proof {
            assert(closed_at(bmask@, visited@, cur as int, wi, hi));
            assert forall|i: int|
                0 <= i < n && #[trigger] visited@[i] && !stack@.contains(i as usize) implies closed_at(
                    bmask@,
                    visited@,
                    i,
                    wi,
                    hi,
                ) by {}
        }
    }
    proof {
        assert forall|i: int| 0 <= i < n && #[trigger] visited@[i] implies closed_at(
            bmask@,
            visited@,
            i,
            wi,
            hi,
        ) by {
            assert(!stack@.contains(i as usize));
        }
    }
    (visited, tree)
}

} // verus!

verus! {

/// The row-major number of the top-left cell of block `b` of an even-width grid.
pub open spec fn block_tl(b: int, w: int) -> int {
    let bw = w / 2;
    (2 * (b / bw)) * w + 2 * (b % bw)
}

/// Every 2×2 block of the grid is wholly allowed or wholly forbidden.
pub open spec fn block_aligned(mask: Seq<bool>, w: int, h: int) -> bool {
    forall|b: int|
        #![trigger block_tl(b, w)]
        0 <= b < (w / 2) * (h / 2) ==> {
            let t = block_tl(b, w);
            &&& mask[t] == mask[t + 1]
            &&& mask[t] == mask[t + w]
            &&& mask[t] == mask[t + w + 1]
        }
}

/// Which 2×2 blocks are allowed, numbered row-major over the block grid.
pub open spec fn block_mask(mask: Seq<bool>, w: int, h: int) -> Seq<bool> {
    Seq::new(((w / 2) * (h / 2)) as nat, |b: int| mask[block_tl(b, w)])
}

/// A closed unit-step strand through allowed cells of a block-aligned mask whose
/// allowed blocks form one connected region, four cells per allowed block in length,
/// meeting no cell twice.
pub open spec fn strand_ok(o: Seq<(u32, u32)>, mask: Seq<bool>, w: int, h: int) -> bool {
    let bm = block_mask(mask, w, h);
    &&& w % 2 == 0
    &&& h % 2 == 0
    &&& block_aligned(mask, w, h)
    &&& exists|s: int| 0 <= s < bm.len() && bm[s] && connected_from(bm, w / 2, h / 2, s)
    &&& o.len() == 4 * count_true(bm)
    &&& o.len() > 0
    &&& forall|k: int|
        0 <= k < o.len() ==> #[trigger] o[k].0 < w && o[k].1 < h && mask[o[k].1 * w + o[k].0]
    &&& forall|k: int| 0 <= k < o.len() - 1 ==> unit_step(#[trigger] o[k], o[k + 1])
    &&& unit_step(o[o.len() - 1], o[0])
    &&& forall|i: int, j: int| 0 <= i < j < o.len() ==> #[trigger] o[i] != #[trigger] o[j]
}

/// The number of the cell at column `x`, row `y`.
fn cell(x: usize, y: usize, w: usize, h: usize) -> (r: usize)
    requires
        x < w,
        y < h,
        w * h <= u32::MAX,
    ensures
        r == y * w + x,
        r < w * h,
{
    proof {
        lemma_index_bound(x as int, y as int, w as int, h as int);
    }
    y * w + x
}

/// The four cells of an allowed block of an aligned mask are allowed and on the grid.
proof fn lemma_block_cells(mask: Seq<bool>, w: int, h: int, b: int)
    requires
        w % 2 == 0,
        h % 2 == 0,
        w > 0,
        mask.len() == w * h,
        block_aligned(mask, w, h),
        0 <= b < (w / 2) * (h / 2),
        mask[block_tl(b, w)],
    ensures
        ({
            let bx = b % (w / 2);
            let by = b / (w / 2);
            &&& 0 <= 2 * bx + 1 < w
            &&& 0 <= 2 * by + 1 < h
            &&& block_tl(b, w) == (2 * by) * w + 2 * bx
            &&& mask[(2 * by) * w + 2 * bx]
            &&& mask[(2 * by) * w + (2 * bx + 1)]
            &&& mask[(2 * by + 1) * w + 2 * bx]
            &&& mask[(2 * by + 1) * w + (2 * bx + 1)]
        }),
{
    let bw = w / 2;
    let bh = h / 2;
    lemma_divmod_cell(b, bw, bh);
    let bx = b % bw;
    let by = b / bw;
    let t = block_tl(b, w);
    assert((2 * by + 1) * w == (2 * by) * w + w) by (nonlinear_arith);
    assert(mask[t] == mask[t + 1] && mask[t] == mask[t + w] && mask[t] == mask[t + w + 1]);
}

} // verus!

verus! {

/// The facts the link-building steps share.
pub open spec fn blocks_ready(
    mask: Seq<bool>,
    bmask: Seq<bool>,
    w: int,
    h: int,
) -> bool {
    &&& w % 2 == 0
    &&& h % 2 == 0
    &&& w > 0
    &&& h > 0
    &&& mask.len() == w * h
    &&& w * h <= u32::MAX
    &&& block_aligned(mask, w, h)
    &&& bmask == block_mask(mask, w, h)
}

/// The number of the cell at column `x`, row `y` of a grid `w` wide.
pub open spec fn cell_no(x: int, y: int, w: int) -> int {
    y * w + x
}

/// The links after block `b` (of a grid `w` cells wide) is seeded as the loop
/// top-left, top-right, bottom-right, bottom-left.
pub open spec fn seed_spec(nbr: Seq<(i64, i64)>, b: int, w: int) -> Seq<(i64, i64)> {
    let bx = b % (w / 2);
    let by = b / (w / 2);
    let tl = cell_no(2 * bx, 2 * by, w);
    let tr = cell_no(2 * bx + 1, 2 * by, w);
    let br = cell_no(2 * bx + 1, 2 * by + 1, w);
    let bl = cell_no(2 * bx, 2 * by + 1, w);
    link_cells(link_cells(link_cells(link_cells(nbr, tl, tr), tr, br), br, bl), bl, tl)
}

/// The links after the loops of blocks `p` and `q` (neighbours, of a grid `w` cells
/// wide) are spliced: with `A` the block west or north of `B`, the links along their
/// facing sides are cut and the two facing cell pairs linked across.
#[verifier::opaque]
pub open spec fn splice_spec(nbr: Seq<(i64, i64)>, p: int, q: int, w: int) -> Seq<(i64, i64)> {
    let bw = w / 2;
    let (pbx, pby, qbx, qby) = (p % bw, p / bw, q % bw, q / bw);
    let (abx, aby, bbx, bby, east) = if qby == pby && qbx == pbx + 1 {
        (pbx, pby, qbx, qby, true)
    } else if pby == qby && pbx == qbx + 1 {
        (qbx, qby, pbx, pby, true)
    } else if qbx == pbx && qby == pby + 1 {
        (pbx, pby, qbx, qby, false)
    } else {
        (qbx, qby, pbx, pby, false)
    };
    if east {
        let a_tr = cell_no(2 * abx + 1, 2 * aby, w);
        let a_br = cell_no(2 * abx + 1, 2 * aby + 1, w);
        let b_tl = cell_no(2 * bbx, 2 * bby, w);
        let b_bl = cell_no(2 * bbx, 2 * bby + 1, w);
        link_cells(
            link_cells(unlink_cells(unlink_cells(nbr, a_tr, a_br), b_tl, b_bl), a_tr, b_tl),
            a_br,
            b_bl,
        )
    } else {
        let a_bl = cell_no(2 * abx, 2 * aby + 1, w);
        let a_br = cell_no(2 * abx + 1, 2 * aby + 1, w);
        let b_tl = cell_no(2 * bbx, 2 * bby, w);
        let b_tr = cell_no(2 * bbx + 1, 2 * bby, w);
        link_cells(
            link_cells(unlink_cells(unlink_cells(nbr, a_bl, a_br), b_tl, b_tr), a_bl, b_tl),
            a_br,
            b_tr,
        )
    }
}

/// Link the cells of block `b` into a 4-cell loop.
fn seed_block(nbr: &mut Vec<(i64, i64)>, b: usize, w: usize, h: usize, Ghost(mask): Ghost<Seq<bool>>, Ghost(
    bmask,
): Ghost<Seq<bool>>)
    requires
        links_ok(old(nbr)@, mask, w as int, h as int),
        blocks_ready(mask, bmask, w as int, h as int),
        b < bmask.len(),
        bmask[b as int],
    ensures
        links_ok(final(nbr)@, mask, w as int, h as int),
        final(nbr)@ == seed_spec(old(nbr)@, b as int, w as int),
{
    let bw = w / 2;
    proof {
        lemma_block_cells(mask, w as int, h as int, b as int);
    }
    let bx = b % bw;
    let by = b / bw;
    let tl = cell(2 * bx, 2 * by, w, h);
    let tr = cell(2 * bx + 1, 2 * by, w, h);
    let br = cell(2 * bx + 1, 2 * by + 1, w, h);
    let bl = cell(2 * bx, 2 * by + 1, w, h);
    proof {
        let (x0, x1, y0, y1) = (2 * bx as int, 2 * bx + 1, 2 * by as int, 2 * by + 1);
        lemma_adjacent_xy(x0, y0, x1, y0, w as int, h as int);
        lemma_adjacent_xy(x1, y0, x1, y1, w as int, h as int);
        lemma_adjacent_xy(x1, y1, x0, y1, w as int, h as int);
        lemma_adjacent_xy(x0, y1, x0, y0, w as int, h as int);
    }
    let gm = Ghost(mask);
    let gw = Ghost(w as int);
    let gh = Ghost(h as int);
    link(nbr, tl, tr, gm, gw, gh);
    link(nbr, tr, br, gm, gw, gh);
    link(nbr, br, bl, gm, gw, gh);
    link(nbr, bl, tl, gm, gw, gh);
}

/// Splice the loops of two blocks joined by a spanning-tree edge into one loop.
#[verifier::rlimit(40)]
fn splice(nbr: &mut Vec<(i64, i64)>, p: usize, q: usize, w: usize, h: usize, Ghost(mask): Ghost<Seq<bool>>, Ghost(
    bmask,
): Ghost<Seq<bool>>)
    requires
        links_ok(old(nbr)@, mask, w as int, h as int),
        blocks_ready(mask, bmask, w as int, h as int),
        tree_edge_ok((p, q), bmask, (w / 2) as int, (h / 2) as int),
    ensures
        links_ok(final(nbr)@, mask, w as int, h as int),
        final(nbr)@ == splice_spec(old(nbr)@, p as int, q as int, w as int),
{
    proof {
        reveal(splice_spec);
    }
    let bw = w / 2;
    let ghost bh = (h / 2) as int;
    proof {
        assert(bw * bh <= w * h) by (nonlinear_arith)
            requires
                bw == w / 2,
                bh == h / 2,
                w >= 0,
                h >= 0,
        ;
        lemma_adjacent_unit(p as int, q as int, bw as int, bh);
        lemma_divmod_cell(p as int, bw as int, bh);
        lemma_divmod_cell(q as int, bw as int, bh);
        lemma_block_cells(mask, w as int, h as int, p as int);
        lemma_block_cells(mask, w as int, h as int, q as int);
    }
    let pbx = p % bw;
    let pby = p / bw;
    let qbx = q % bw;
    let qby = q / bw;
    let (abx, aby, bbx, bby, east) = if qby == pby && qbx == pbx + 1 {
        (pbx, pby, qbx, qby, true)
    } else if pby == qby && pbx == qbx + 1 {
        (qbx, qby, pbx, pby, true)
    } else if qbx == pbx && qby == pby + 1 {
        (pbx, pby, qbx, qby, false)
    } else {
        (qbx, qby, pbx, pby, false)
    };
    let gm = Ghost(mask);
    let gw = Ghost(w as int);
    let gh = Ghost(h as int);
    if east {
        let a_tr = cell(2 * abx + 1, 2 * aby, w, h);
        let a_br = cell(2 * abx + 1, 2 * aby + 1, w, h);
        let b_tl = cell(2 * bbx, 2 * bby, w, h);
        let b_bl = cell(2 * bbx, 2 * bby + 1, w, h);
        proof {
            lemma_adjacent_xy(
                2 * abx + 1,
                2 * aby as int,
                2 * bbx as int,
                2 * bby as int,
                w as int,
                h as int,
            );
            lemma_adjacent_xy(2 * abx + 1, 2 * aby + 1, 2 * bbx as int, 2 * bby + 1, w as int, h as int);
        }
        unlink(nbr, a_tr, a_br, gm, gw, gh);
        unlink(nbr, b_tl, b_bl, gm, gw, gh);
        link(nbr, a_tr, b_tl, gm, gw, gh);
        link(nbr, a_br, b_bl, gm, gw, gh);
    } else {
        let a_bl = cell(2 * abx, 2 * aby + 1, w, h);
        let a_br = cell(2 * abx + 1, 2 * aby + 1, w, h);
        let b_tl = cell(2 * bbx, 2 * bby, w, h);
        let b_tr = cell(2 * bbx + 1, 2 * bby, w, h);
        proof {
            lemma_adjacent_xy(
                2 * abx as int,
                2 * aby + 1,
                2 * bbx as int,
                2 * bby as int,
                w as int,
                h as int,
            );
            lemma_adjacent_xy(2 * abx + 1, 2 * aby + 1, 2 * bbx + 1, 2 * bby as int, w as int, h as int);
        }
        unlink(nbr, a_bl, a_br, gm, gw, gh);
        unlink(nbr, b_tl, b_tr, gm, gw, gh);
        link(nbr, a_bl, b_tl, gm, gw, gh);
        link(nbr, a_br, b_tr, gm, gw, gh);
    }
}

} // verus!

verus! {

/// The cells of `o` lie on the grid, are allowed, and follow each other in unit steps.
pub open spec fn path_ok(o: Seq<(u32, u32)>, mask: Seq<bool>, w: int, h: int) -> bool {
    &&& forall|k: int|
        0 <= k < o.len() ==> #[trigger] o[k].0 < w && o[k].1 < h && mask[o[k].1 * w + o[k].0]
    &&& forall|k: int| 0 <= k < o.len() - 1 ==> unit_step(#[trigger] o[k], o[k + 1])
}

/// The cell the walk moves to from `cur`, having come from `prev`: the first link of
/// `cur` unless it is empty or leads back to `prev`, else the second.
pub open spec fn next_link(nbr: Seq<(i64, i64)>, prev: int, cur: int) -> int {
    let n0 = nbr[cur].0 as int;
    let n1 = nbr[cur].1 as int;
    if n0 != prev && n0 >= 0 {
        n0
    } else {
        n1
    }
}

/// Where the walk from `start` stands after `k` moves, as (previous cell, current
/// cell); the previous cell is -1 before the first move.
#[verifier::opaque]
pub open spec fn walk_state(nbr: Seq<(i64, i64)>, start: int, k: nat) -> (int, int)
    decreases k,
{
    if k == 0 {
        (-1, start)
    } else {
        let (p, c) = walk_state(nbr, start, (k - 1) as nat);
        (c, next_link(nbr, p, c))
    }
}

/// The walk from `start` meets no cell twice in its first `m` positions.
pub open spec fn walk_distinct(nbr: Seq<(i64, i64)>, start: int, m: int) -> bool {
    forall|j: int, k: int|
        0 <= j < k < m ==> #[trigger] walk_state(nbr, start, j as nat).1 != #[trigger] walk_state(
            nbr,
            start,
            k as nat,
        ).1
}

/// Distinct cell numbers of a grid `w` wide name distinct cells.
proof fn lemma_cell_at_injective(a: int, b: int, w: int)
    requires
        w > 0,
        0 <= a <= u32::MAX,
        0 <= b <= u32::MAX,
        a != b,
    ensures
        cell_at(a, w) != cell_at(b, w),
{
    vstd::arithmetic::div_mod::lemma_fundamental_div_mod(a, w);
    vstd::arithmetic::div_mod::lemma_fundamental_div_mod(b, w);
    vstd::arithmetic::div_mod::lemma_mod_bound(a, w);
    vstd::arithmetic::div_mod::lemma_mod_bound(b, w);
    vstd::arithmetic::div_mod::lemma_div_pos_is_pos(a, w);
    vstd::arithmetic::div_mod::lemma_div_pos_is_pos(b, w);
    vstd::arithmetic::div_mod::lemma_div_is_ordered_by_denominator(a, 1, w);
    vstd::arithmetic::div_mod::lemma_div_is_ordered_by_denominator(b, 1, w);
    if cell_at(a, w) == cell_at(b, w) {
        assert(a % w == b % w);
        assert(a / w == b / w);
    }
}

/// The walk from `start` first comes back to it after exactly `m >= 1` moves, every
/// move leading to a cell.
pub open spec fn walk_closes(nbr: Seq<(i64, i64)>, start: int, m: int) -> bool {
    &&& m >= 1
    &&& forall|j: int| 1 <= j <= m ==> #[trigger] walk_state(nbr, start, j as nat).1 >= 0
    &&& forall|j: int| 1 <= j < m ==> #[trigger] walk_state(nbr, start, j as nat).1 != start
    &&& walk_state(nbr, start, m as nat).1 == start
}

/// Follow the links from `start_cell` until they lead back to it, collecting at most
/// `total` cells; `None` if a link is missing or the walk runs longer.
#[verifier::rlimit(100)]
#[verifier::spinoff_prover]
fn walk(nbr: &Vec<(i64, i64)>, start_cell: usize, total: usize, w: usize, h: usize, Ghost(
    mask,
): Ghost<Seq<bool>>) -> (r: Option<Vec<(u32, u32)>>)
    requires
        links_ok(nbr@, mask, w as int, h as int),
        start_cell < mask.len(),
        mask[start_cell as int],
        w > 0,
        w * h <= u32::MAX,
    ensures
        r matches Some(o) ==> {
            &&& o@.len() == total
            &&& o@.len() > 0
            &&& path_ok(o@, mask, w as int, h as int)
            &&& unit_step(o@[o@.len() - 1], o@[0])
            &&& forall|j: int|
                0 <= j < o@.len() ==> #[trigger] o@[j] == cell_at(walk_state(nbr@, start_cell as int, j as nat).1, w as int)
            &&& forall|i: int, j: int| 0 <= i < j < o@.len() ==> #[trigger] o@[i] != #[trigger] o@[j]
        },
        r is Some <==> walk_closes(nbr@, start_cell as int, total as int) && walk_distinct(
            nbr@,
            start_cell as int,
            total as int,
        ),
{
    let mut seen: Vec<bool> = Vec::new();
    while seen.len() < nbr.len()
        invariant
            seen@.len() <= nbr@.len(),
            forall|c: int| 0 <= c < seen@.len() ==> !#[trigger] seen@[c],
        decreases nbr@.len() - seen@.len(),
    {
        seen.push(false);
    }
    let mut order: Vec<(u32, u32)> = Vec::new();
    let mut prev: i64 = -1;
    let mut cur: usize = start_cell;
    let ghost wi = w as int;
    let ghost hi = h as int;
    proof {
        reveal(walk_state);
        assert(walk_state(nbr@, start_cell as int, 0) == (-1int, start_cell as int));
    }
    loop
        invariant_except_break
            order@.len() >= 1 ==> walk_state(nbr@, start_cell as int, order@.len()).1 != start_cell,
        invariant
            links_ok(nbr@, mask, wi, hi),
            wi == w,
            hi == h,
            w > 0,
            w * h <= u32::MAX,
            start_cell < mask.len(),
            cur < mask.len(),
            mask[cur as int],
            order@.len() <= total,
            path_ok(order@, mask, wi, hi),
            order@.len() > 0 ==> unit_step(order@[order@.len() - 1], cell_at(cur as int, wi)),
            order@.len() > 0 ==> order@[0] == cell_at(start_cell as int, wi),
            order@.len() == 0 ==> cur == start_cell,
            walk_state(nbr@, start_cell as int, order@.len()) == (prev as int, cur as int),
            forall|j: int|
                1 <= j <= order@.len() ==> #[trigger] walk_state(nbr@, start_cell as int, j as nat).1 >= 0,
            forall|j: int|
                1 <= j < order@.len() ==> #[trigger] walk_state(nbr@, start_cell as int, j as nat).1
                    != start_cell,
            forall|j: int|
                0 <= j < order@.len() ==> #[trigger] order@[j] == cell_at(
                    walk_state(nbr@, start_cell as int, j as nat).1,
                    wi,
                ),
            seen@.len() == nbr@.len(),
            forall|j: int|
                0 <= j < order@.len() ==> 0 <= #[trigger] walk_state(nbr@, start_cell as int, j as nat).1
                    < seen@.len() && seen@[walk_state(nbr@, start_cell as int, j as nat).1],
            forall|c: int|
                0 <= c < seen@.len() && #[trigger] seen@[c] ==> exists|j: int|
                    0 <= j < order@.len() && #[trigger] walk_state(nbr@, start_cell as int, j as nat).1 == c,
            walk_distinct(nbr@, start_cell as int, order@.len() as int),
        ensures
            walk_distinct(nbr@, start_cell as int, order@.len() as int),
            seen@.len() == nbr@.len(),
            forall|j: int|
                0 <= j < order@.len() ==> 0 <= #[trigger] walk_state(nbr@, start_cell as int, j as nat).1
                    < seen@.len(),
            order@.len() > 0,
            order@.len() <= total,
            path_ok(order@, mask, wi, hi),
            unit_step(order@[order@.len() - 1], order@[0]),
            walk_state(nbr@, start_cell as int, order@.len()).1 == start_cell,
            forall|j: int|
                1 <= j < order@.len() ==> #[trigger] walk_state(nbr@, start_cell as int, j as nat).1 >= 0
                    && walk_state(nbr@, start_cell as int, j as nat).1 != start_cell,
            forall|j: int|
                0 <= j < order@.len() ==> #[trigger] order@[j] == cell_at(
                    walk_state(nbr@, start_cell as int, j as nat).1,
                    wi,
                ),
        decreases total - order@.len(),
    {
        if order.len() >= total {
            return None;
        }
        if seen[cur] {
            proof {
                let j = choose|j: int|
                    0 <= j < order@.len() && #[trigger] walk_state(nbr@, start_cell as int, j as nat).1 == cur;
                let k: int = order@.len() as int;
                assert(walk_state(nbr@, start_cell as int, k as nat).1 == cur);
                assert(0 <= j < k < total);
                if walk_distinct(nbr@, start_cell as int, total as int) {
                    assert(walk_state(nbr@, start_cell as int, j as nat).1 != walk_state(
                        nbr@,
                        start_cell as int,
                        k as nat,
                    ).1);
                }
            }
            return None;
        }
        let ghost seen0 = seen@;
        seen.set(cur, true);
        proof {
            assert forall|c: int| 0 <= c < seen@.len() && #[trigger] seen@[c] implies exists|j: int|
                0 <= j < order@.len() + 1 && #[trigger] walk_state(nbr@, start_cell as int, j as nat).1 == c by {
                if c != cur {
                    assert(seen0[c]);
                    let j = choose|j: int|
                        0 <= j < order@.len() && #[trigger] walk_state(nbr@, start_cell as int, j as nat).1 == c;
                    assert(0 <= j < order@.len() + 1);
                } else {
                    let k: int = order@.len() as int;
                    assert(walk_state(nbr@, start_cell as int, k as nat).1 == c);
                    assert(0 <= k < order@.len() + 1);
                }
            }
            assert forall|j: int, k: int|
                0 <= j < k < order@.len() + 1 implies #[trigger] walk_state(nbr@, start_cell as int, j as nat).1
                    != #[trigger] walk_state(nbr@, start_cell as int, k as nat).1 by {
                if k == order@.len() {
                    assert(seen0[walk_state(nbr@, start_cell as int, j as nat).1]);
                }
            }
        }
        proof {
            lemma_divmod_cell(cur as int, wi, hi);
            assert(cur as int % wi <= cur && cur as int / wi <= cur) by (nonlinear_arith)
                requires
                    wi > 0,
                    cur >= 0,
            ;
        }
        let ghost o0 = order@;
        order.push(((cur % w) as u32, (cur / w) as u32));
        proof {
            assert(order@[order@.len() - 1] == cell_at(cur as int, wi));
            assert forall|j: int| 0 <= j < order@.len() implies #[trigger] order@[j] == cell_at(
                walk_state(nbr@, start_cell as int, j as nat).1,
                wi,
            ) by {
                if j < o0.len() {
                    assert(order@[j] == o0[j]);
                }
            }
            assert forall|k: int| 0 <= k < order@.len() - 1 implies unit_step(
                #[trigger] order@[k],
                order@[k + 1],
            ) by {
                if k < o0.len() - 1 {
                    assert(order@[k] == o0[k] && order@[k + 1] == o0[k + 1]);
                }
            }
        }
        let (n0, n1) = nbr[cur];
        let next = if n0 != prev && n0 >= 0 {
            n0
        } else {
            n1
        };
        proof {
            reveal(walk_state);
            assert(walk_state(nbr@, start_cell as int, order@.len() as nat) == (cur as int, next as int));
        }
        if next < 0 {
            proof {
                assert(walk_state(nbr@, start_cell as int, order@.len() as nat).1 < 0);
            }
            return None;
        }
        proof {
            lemma_adjacent_unit(cur as int, next as int, wi, hi);
        }
        prev = cur as i64;
        cur = next as usize;
        if cur == start_cell {
            break;
        }
    }
    if order.len() == total {
        proof {
            assert forall|i: int, j: int| 0 <= i < j < order@.len() implies #[trigger] order@[i]
                != #[trigger] order@[j] by {
                let a = walk_state(nbr@, start_cell as int, i as nat).1;
                let b = walk_state(nbr@, start_cell as int, j as nat).1;
                assert(a != b);
                lemma_cell_at_injective(a, b, w as int);
            }
        }
        Some(order)
    } else {
        None
    }
}


/// The link slots of a cell hold exactly `a` and `b`, in either order.
pub open spec fn links_pair(s: (i64, i64), a: int, b: int) -> bool {
    (s.0 == a && s.1 == b) || (s.0 == b && s.1 == a)
}

pub open spec fn cyc_prev(i: int, n: int) -> int {
    if i == 0 {
        n - 1
    } else {
        i - 1
    }
}

pub open spec fn cyc_next(i: int, n: int) -> int {
    if i == n - 1 {
        0
    } else {
        i + 1
    }
}

/// `cyc` lists distinct cells, at least three, each linked to exactly the cells
/// before and after it, the first and last counting as neighbours.
pub open spec fn cycle_links(nbr: Seq<(i64, i64)>, cyc: Seq<int>) -> bool {
    &&& cyc.len() >= 3
    &&& forall|i: int, j: int| 0 <= i < j < cyc.len() ==> #[trigger] cyc[i] != #[trigger] cyc[j]
    &&& forall|i: int| 0 <= i < cyc.len() ==> 0 <= #[trigger] cyc[i] < nbr.len()
    &&& forall|i: int|
        0 <= i < cyc.len() ==> links_pair(
            #[trigger] nbr[cyc[i]],
            cyc[cyc_prev(i, cyc.len() as int)],
            cyc[cyc_next(i, cyc.len() as int)],
        )
}

/// The position in `cyc` of the walk's `k`-th cell, forwards or backwards.
pub open spec fn walk_pos(k: int, n: int, fwd: bool) -> int {
    if fwd || k == 0 {
        k
    } else {
        n - k
    }
}

proof fn lemma_walk_follows(nbr: Seq<(i64, i64)>, cyc: Seq<int>, k: nat)
    requires
        cycle_links(nbr, cyc),
        k < cyc.len(),
    ensures
        ({
            let n = cyc.len() as int;
            let fwd = nbr[cyc[0]].0 == cyc[1];
            walk_state(nbr, cyc[0], k) == (
                if k == 0 {
                    -1
                } else {
                    cyc[walk_pos(k - 1, n, fwd)]
                },
                cyc[walk_pos(k as int, n, fwd)],
            )
        }),
    decreases k,
{
    reveal(walk_state);
    let n = cyc.len() as int;
    let fwd = nbr[cyc[0]].0 == cyc[1];
    if k > 0 {
        lemma_walk_follows(nbr, cyc, (k - 1) as nat);
        let c = walk_pos(k - 1, n, fwd);
        assert(links_pair(nbr[cyc[c]], cyc[cyc_prev(c, n)], cyc[cyc_next(c, n)]));
        assert(cyc[0] != cyc[1] && cyc[0] != cyc[n - 1] && cyc[1] != cyc[n - 1]);
        if k >= 2 {
            let b = walk_pos(k - 2, n, fwd);
            if fwd {
                assert(cyc[cyc_prev(c, n)] != cyc[cyc_next(c, n)]);
            } else {
                assert(cyc[cyc_prev(c, n)] != cyc[cyc_next(c, n)]);
            }
        }
    }
}

/// A walk started on a listed cycle goes round it once and comes back.
proof fn lemma_walk_cycle(nbr: Seq<(i64, i64)>, cyc: Seq<int>)
    requires
        cycle_links(nbr, cyc),
    ensures
        walk_closes(nbr, cyc[0], cyc.len() as int),
        walk_distinct(nbr, cyc[0], cyc.len() as int),
{
    let n = cyc.len() as int;
    let fwd = nbr[cyc[0]].0 == cyc[1];
    assert forall|j: int| 1 <= j <= n implies #[trigger] walk_state(nbr, cyc[0], j as nat).1 >= 0 by {
        if j < n {
            lemma_walk_follows(nbr, cyc, j as nat);
        } else {
            lemma_walk_last(nbr, cyc);
        }
    }
    assert forall|j: int| 1 <= j < n implies #[trigger] walk_state(nbr, cyc[0], j as nat).1 != cyc[0] by {
        lemma_walk_follows(nbr, cyc, j as nat);
    }
    lemma_walk_last(nbr, cyc);
    assert forall|j: int, k: int| 0 <= j < k < n implies #[trigger] walk_state(nbr, cyc[0], j as nat).1
        != #[trigger] walk_state(nbr, cyc[0], k as nat).1 by {
        lemma_walk_follows(nbr, cyc, j as nat);
        lemma_walk_follows(nbr, cyc, k as nat);
    }
}

proof fn lemma_walk_last(nbr: Seq<(i64, i64)>, cyc: Seq<int>)
    requires
        cycle_links(nbr, cyc),
    ensures
        walk_state(nbr, cyc[0], cyc.len() as nat).1 == cyc[0],
{
    let n = cyc.len() as int;
    let fwd = nbr[cyc[0]].0 == cyc[1];
    lemma_walk_follows(nbr, cyc, (n - 1) as nat);
    reveal(walk_state);
    let c = walk_pos(n - 1, n, fwd);
    assert(links_pair(nbr[cyc[c]], cyc[cyc_prev(c, n)], cyc[cyc_next(c, n)]));
    assert(cyc[cyc_prev(c, n)] != cyc[cyc_next(c, n)]);
}


/// Cell `(dx, dy)` (each 0 or 1) of block `b` of a grid `w` cells wide.
pub open spec fn blk_cell(b: int, dx: int, dy: int, w: int) -> int {
    cell_no(2 * (b % (w / 2)) + dx, 2 * (b / (w / 2)) + dy, w)
}

/// Block `b` holds its seed loop: top-left, top-right, bottom-right, bottom-left.
pub open spec fn seeded(nbr: Seq<(i64, i64)>, b: int, w: int) -> bool {
    let tl = blk_cell(b, 0, 0, w);
    let tr = blk_cell(b, 1, 0, w);
    let br = blk_cell(b, 1, 1, w);
    let bl = blk_cell(b, 0, 1, w);
    &&& nbr[tl] == (tr as i64, bl as i64)
    &&& nbr[tr] == (tl as i64, br as i64)
    &&& nbr[br] == (tr as i64, bl as i64)
    &&& nbr[bl] == (br as i64, tl as i64)
}

/// The cells of a block lie on the grid.
proof fn lemma_blk_cell(b: int, dx: int, dy: int, w: int, h: int)
    requires
        w % 2 == 0,
        h % 2 == 0,
        w > 0,
        0 <= b < (w / 2) * (h / 2),
        0 <= dx <= 1,
        0 <= dy <= 1,
    ensures
        0 <= 2 * (b % (w / 2)) + dx < w,
        0 <= 2 * (b / (w / 2)) + dy < h,
        0 <= blk_cell(b, dx, dy, w) < w * h,
{
    let bw = w / 2;
    let bh = h / 2;
    lemma_divmod_cell(b, bw, bh);
    let x = 2 * (b % bw) + dx;
    let y = 2 * (b / bw) + dy;
    assert(0 <= y * w + x < w * h) by (nonlinear_arith)
        requires
            0 <= x < w,
            0 <= y < h,
    ;
}

/// Distinct (block, corner) pairs name distinct cells.
proof fn lemma_blk_cell_inj(b1: int, dx1: int, dy1: int, b2: int, dx2: int, dy2: int, w: int, h: int)
    requires
        w % 2 == 0,
        h % 2 == 0,
        w > 0,
        0 <= b1 < (w / 2) * (h / 2),
        0 <= b2 < (w / 2) * (h / 2),
        0 <= dx1 <= 1,
        0 <= dy1 <= 1,
        0 <= dx2 <= 1,
        0 <= dy2 <= 1,
        blk_cell(b1, dx1, dy1, w) == blk_cell(b2, dx2, dy2, w),
    ensures
        b1 == b2,
        dx1 == dx2,
        dy1 == dy2,
{
    let bw = w / 2;
    lemma_blk_cell(b1, dx1, dy1, w, h);
    lemma_blk_cell(b2, dx2, dy2, w, h);
    let x1 = 2 * (b1 % bw) + dx1;
    let y1 = 2 * (b1 / bw) + dy1;
    let x2 = 2 * (b2 % bw) + dx2;
    let y2 = 2 * (b2 / bw) + dy2;
    let c = y1 * w + x1;
    vstd::arithmetic::div_mod::lemma_fundamental_div_mod_converse(c, w, y1, x1);
    vstd::arithmetic::div_mod::lemma_fundamental_div_mod_converse(c, w, y2, x2);
    assert(b1 % bw == b2 % bw && dx1 == dx2);
    assert(b1 / bw == b2 / bw && dy1 == dy2);
    vstd::arithmetic::div_mod::lemma_fundamental_div_mod(b1, bw);
    vstd::arithmetic::div_mod::lemma_fundamental_div_mod(b2, bw);
}

/// Seeding a block whose cells are empty gives it its seed loop and leaves every
/// other cell as it was.
proof fn lemma_seed_effect(nbr: Seq<(i64, i64)>, b: int, w: int, h: int)
    requires
        w % 2 == 0,
        h % 2 == 0,
        w > 0,
        nbr.len() == w * h,
        w * h <= u32::MAX,
        0 <= b < (w / 2) * (h / 2),
        forall|dx: int, dy: int|
            0 <= dx <= 1 && 0 <= dy <= 1 ==> nbr[#[trigger] blk_cell(b, dx, dy, w)] == (-1i64, -1i64),
    ensures
        seed_spec(nbr, b, w).len() == nbr.len(),
        seeded(seed_spec(nbr, b, w), b, w),
        forall|c: int|
            0 <= c < nbr.len() && c != blk_cell(b, 0, 0, w) && c != blk_cell(b, 1, 0, w) && c
                != blk_cell(b, 1, 1, w) && c != blk_cell(b, 0, 1, w) ==> #[trigger] seed_spec(
                nbr,
                b,
                w,
            )[c] == nbr[c],
{
    let tl = blk_cell(b, 0, 0, w);
    let tr = blk_cell(b, 1, 0, w);
    let br = blk_cell(b, 1, 1, w);
    let bl = blk_cell(b, 0, 1, w);
    lemma_blk_cell(b, 0, 0, w, h);
    lemma_blk_cell(b, 1, 0, w, h);
    lemma_blk_cell(b, 1, 1, w, h);
    lemma_blk_cell(b, 0, 1, w, h);
    assert(nbr[tl] == (-1i64, -1i64));
    assert(nbr[tr] == (-1i64, -1i64));
    assert(nbr[br] == (-1i64, -1i64));
    assert(nbr[bl] == (-1i64, -1i64));
    let y = 2 * (b / (w / 2));
    assert((y + 1) * w == y * w + w) by (nonlinear_arith);
    assert(tr == tl + 1 && bl == tl + w && br == tl + w + 1);
}


/// Distinct blocks share no cell.
proof fn lemma_blk_cells_apart(b1: int, b2: int, w: int, h: int)
    requires
        w % 2 == 0,
        h % 2 == 0,
        w > 0,
        0 <= b1 < (w / 2) * (h / 2),
        0 <= b2 < (w / 2) * (h / 2),
        b1 != b2,
    ensures
        forall|dx1: int, dy1: int, dx2: int, dy2: int|
            0 <= dx1 <= 1 && 0 <= dy1 <= 1 && 0 <= dx2 <= 1 && 0 <= dy2 <= 1 ==> #[trigger] blk_cell(
                b1,
                dx1,
                dy1,
                w,
            ) != #[trigger] blk_cell(b2, dx2, dy2, w),
{
    assert forall|dx1: int, dy1: int, dx2: int, dy2: int|
        0 <= dx1 <= 1 && 0 <= dy1 <= 1 && 0 <= dx2 <= 1 && 0 <= dy2 <= 1 implies #[trigger] blk_cell(
            b1,
            dx1,
            dy1,
            w,
        ) != #[trigger] blk_cell(b2, dx2, dy2, w) by {
        if blk_cell(b1, dx1, dy1, w) == blk_cell(b2, dx2, dy2, w) {
            lemma_blk_cell_inj(b1, dx1, dy1, b2, dx2, dy2, w, h);
        }
    }
}


/// `cyc` with the four cells of `path` put in after position `i`.
pub open spec fn cycle_insert(cyc: Seq<int>, i: int, path: Seq<int>) -> Seq<int> {
    Seq::new(
        (cyc.len() + 4) as nat,
        |k: int|
            if k <= i {
                cyc[k]
            } else if k <= i + 4 {
                path[k - i - 1]
            } else {
                cyc[k - 4]
            },
    )
}

/// Cutting the link between positions `i` and the next one of a listed cycle and
/// routing it through a four-cell path gives a listed cycle four cells longer.
#[verifier::rlimit(60)]
#[verifier::spinoff_prover]
proof fn lemma_cycle_join(
    nbr: Seq<(i64, i64)>,
    nbr2: Seq<(i64, i64)>,
    cyc: Seq<int>,
    i: int,
    path: Seq<int>,
)
    requires
        cycle_links(nbr, cyc),
        0 <= i < cyc.len(),
        nbr2.len() == nbr.len(),
        path.len() == 4,
        forall|a: int, b: int| 0 <= a < b < 4 ==> #[trigger] path[a] != #[trigger] path[b],
        forall|a: int| 0 <= a < 4 ==> 0 <= #[trigger] path[a] < nbr.len(),
        forall|a: int, k: int| 0 <= a < 4 && 0 <= k < cyc.len() ==> #[trigger] path[a] != #[trigger] cyc[k],
        forall|k: int|
            0 <= k < cyc.len() && k != i && k != cyc_next(i, cyc.len() as int) ==> nbr2[#[trigger] cyc[k]]
                == nbr[cyc[k]],
        links_pair(nbr2[cyc[i]], cyc[cyc_prev(i, cyc.len() as int)], path[0]),
        links_pair(
            nbr2[cyc[cyc_next(i, cyc.len() as int)]],
            path[3],
            cyc[cyc_next(cyc_next(i, cyc.len() as int), cyc.len() as int)],
        ),
        links_pair(nbr2[path[0]], cyc[i], path[1]),
        links_pair(nbr2[path[1]], path[0], path[2]),
        links_pair(nbr2[path[2]], path[1], path[3]),
        links_pair(nbr2[path[3]], path[2], cyc[cyc_next(i, cyc.len() as int)]),
    ensures
        cycle_links(nbr2, cycle_insert(cyc, i, path)),
        cycle_insert(cyc, i, path).len() == cyc.len() + 4,
        cycle_insert(cyc, i, path)[0] == cyc[0],
        forall|k: int| 0 <= k <= i ==> #[trigger] cycle_insert(cyc, i, path)[k] == cyc[k],
        forall|k: int| i < k < cyc.len() ==> #[trigger] cycle_insert(cyc, i, path)[k + 4] == cyc[k],
        forall|a: int| 0 <= a < 4 ==> #[trigger] cycle_insert(cyc, i, path)[i + 1 + a] == path[a],
{
    let n = cyc.len() as int;
    let c2 = cycle_insert(cyc, i, path);
    let m = n + 4;
    assert forall|a: int, b: int| 0 <= a < b < m implies #[trigger] c2[a] != #[trigger] c2[b] by {
        if a <= i {
            if b <= i {
            } else if b <= i + 4 {
                assert(path[b - i - 1] != cyc[a]);
            } else {
            }
        } else if a <= i + 4 {
            if b <= i + 4 {
            } else {
                assert(path[a - i - 1] != cyc[b - 4]);
            }
        } else {
        }
    }
    assert forall|k: int| 0 <= k < m implies 0 <= #[trigger] c2[k] < nbr2.len() by {
        if k <= i {
        } else if k <= i + 4 {
            assert(0 <= path[k - i - 1]);
        } else {
        }
    }
    assert forall|k: int| 0 <= k < m implies links_pair(
        nbr2[#[trigger] c2[k]],
        c2[cyc_prev(k, m)],
        c2[cyc_next(k, m)],
    ) by {
        let j = cyc_next(i, n);
        if k < i {
            if k == 0 && i == n - 1 {
                assert(c2[cyc_prev(k, m)] == path[3]);
                assert(c2[cyc_next(k, m)] == cyc[1]);
            } else {
                assert(k != j);
                assert(nbr2[cyc[k]] == nbr[cyc[k]]);
                if k == 0 {
                    assert(c2[cyc_prev(k, m)] == cyc[n - 1]);
                }
            }
        } else if k == i {
            if i == 0 {
                if i + 1 < n {
                    assert(c2[cyc_prev(k, m)] == cyc[n - 1]);
                }
            }
        } else if k <= i + 4 {
            if k == i + 4 && i + 1 == n {
                assert(c2[cyc_next(k, m)] == cyc[0]);
            }
        } else if k == i + 5 {
            assert(cyc[k - 4] == cyc[j]);
            if k + 1 < m {
                assert(c2[k + 1] == cyc[k - 3]);
            } else {
                assert(c2[cyc_next(k, m)] == cyc[0]);
            }
        } else {
            assert(nbr2[cyc[k - 4]] == nbr[cyc[k - 4]]);
            if k + 1 == m {
                assert(c2[cyc_next(k, m)] == cyc[0]);
            }
        }
    }
}


/// The two cells of block `b` on its side that faces the neighbouring block `c`.
pub open spec fn side_cells(b: int, c: int, w: int) -> (int, int) {
    let bw = w / 2;
    let (bx, by, cx, cy) = (b % bw, b / bw, c % bw, c / bw);
    if cy == by && cx == bx + 1 {
        (blk_cell(b, 1, 0, w), blk_cell(b, 1, 1, w))
    } else if cy == by && bx == cx + 1 {
        (blk_cell(b, 0, 0, w), blk_cell(b, 0, 1, w))
    } else if cx == bx && cy == by + 1 {
        (blk_cell(b, 0, 1, w), blk_cell(b, 1, 1, w))
    } else {
        (blk_cell(b, 0, 0, w), blk_cell(b, 1, 0, w))
    }
}

/// The seed loop of block `q` opened on its side facing `p`: the path through its
/// four cells from the first cell of that side to the second.
pub open spec fn fresh_path(q: int, p: int, w: int) -> Seq<int> {
    let bw = w / 2;
    let (qx, qy, px, py) = (q % bw, q / bw, p % bw, p / bw);
    let (c00, c10, c11, c01) = (
        blk_cell(q, 0, 0, w),
        blk_cell(q, 1, 0, w),
        blk_cell(q, 1, 1, w),
        blk_cell(q, 0, 1, w),
    );
    if py == qy && px == qx + 1 {
        seq![c10, c00, c01, c11]
    } else if py == qy && qx == px + 1 {
        seq![c00, c10, c11, c01]
    } else if px == qx && py == qy + 1 {
        seq![c01, c00, c10, c11]
    } else {
        seq![c00, c01, c11, c10]
    }
}

/// The cells `pair` follow each other, in either order, somewhere round `cyc`.
pub open spec fn pair_adjacent(cyc: Seq<int>, pair: (int, int)) -> bool {
    exists|i: int|
        0 <= i < cyc.len() && ((#[trigger] cyc[i] == pair.0 && cyc[cyc_next(i, cyc.len() as int)]
            == pair.1) || (cyc[i] == pair.1 && cyc[cyc_next(i, cyc.len() as int)] == pair.0))
}

/// Cutting the links `a1`–`a2` and `b1`–`b2` and linking `a1`–`b1`, `a2`–`b2`
/// keeps each cell's other link and touches no other cell.
proof fn lemma_rewire(
    nbr: Seq<(i64, i64)>,
    a1: int,
    a2: int,
    b1: int,
    b2: int,
    ea1: int,
    ea2: int,
    eb1: int,
    eb2: int,
)
    requires
        0 <= a1 < nbr.len(),
        0 <= a2 < nbr.len(),
        0 <= b1 < nbr.len(),
        0 <= b2 < nbr.len(),
        nbr.len() <= u32::MAX,
        a1 != a2 && a1 != b1 && a1 != b2 && a2 != b1 && a2 != b2 && b1 != b2,
        0 <= ea1 && 0 <= ea2 && 0 <= eb1 && 0 <= eb2,
        ea1 != a2 && ea2 != a1 && eb1 != b2 && eb2 != b1,
        links_pair(nbr[a1], ea1, a2),
        links_pair(nbr[a2], a1, ea2),
        links_pair(nbr[b1], eb1, b2),
        links_pair(nbr[b2], b1, eb2),
    ensures
        ({
            let r = link_cells(link_cells(unlink_cells(unlink_cells(nbr, a1, a2), b1, b2), a1, b1), a2, b2);
            &&& r.len() == nbr.len()
            &&& links_pair(r[a1], ea1, b1)
            &&& links_pair(r[a2], ea2, b2)
            &&& links_pair(r[b1], eb1, a1)
            &&& links_pair(r[b2], eb2, a2)
            &&& forall|c: int|
                0 <= c < nbr.len() && c != a1 && c != a2 && c != b1 && c != b2 ==> #[trigger] r[c]
                    == nbr[c]
        }),
{
    let s1 = unlink_cells(nbr, a1, a2);
    lemma_unlink_pair(nbr, a1, a2, ea1, ea2);
    let s2 = unlink_cells(s1, b1, b2);
    lemma_unlink_pair(s1, b1, b2, eb1, eb2);
    let s3 = link_cells(s2, a1, b1);
    lemma_link_pair(s2, a1, b1, ea1, eb1);
    let s4 = link_cells(s3, a2, b2);
    lemma_link_pair(s3, a2, b2, ea2, eb2);
}

/// One slot holds `e` and the other is empty.
pub open spec fn half_link(s: (i64, i64), e: int) -> bool {
    (s.0 == e && s.1 == -1) || (s.0 == -1 && s.1 == e)
}

proof fn lemma_unlink_pair(nbr: Seq<(i64, i64)>, a: int, b: int, ea: int, eb: int)
    requires
        0 <= a < nbr.len(),
        0 <= b < nbr.len(),
        nbr.len() <= u32::MAX,
        a != b,
        0 <= ea && 0 <= eb,
        ea != b && eb != a,
        links_pair(nbr[a], ea, b),
        links_pair(nbr[b], a, eb),
    ensures
        unlink_cells(nbr, a, b).len() == nbr.len(),
        half_link(unlink_cells(nbr, a, b)[a], ea),
        half_link(unlink_cells(nbr, a, b)[b], eb),
        forall|c: int| 0 <= c < nbr.len() && c != a && c != b ==> #[trigger] unlink_cells(nbr, a, b)[c] == nbr[c],
{
}

proof fn lemma_link_pair(nbr: Seq<(i64, i64)>, a: int, b: int, ea: int, eb: int)
    requires
        0 <= a < nbr.len(),
        0 <= b < nbr.len(),
        nbr.len() <= u32::MAX,
        a != b,
        0 <= ea && 0 <= eb,
        half_link(nbr[a], ea),
        half_link(nbr[b], eb),
    ensures
        link_cells(nbr, a, b).len() == nbr.len(),
        links_pair(link_cells(nbr, a, b)[a], ea, b),
        links_pair(link_cells(nbr, a, b)[b], eb, a),
        forall|c: int| 0 <= c < nbr.len() && c != a && c != b ==> #[trigger] link_cells(nbr, a, b)[c] == nbr[c],
{
}

/// Two block sides with the same two cells are the same side of the same block.
proof fn lemma_side_inj(b: int, c: int, p: int, q: int, w: int, h: int)
    requires
        w % 2 == 0,
        h % 2 == 0,
        w > 0,
        w * h <= u32::MAX,
        h > 0,
        grid_adjacent(b, c, w / 2, h / 2),
        grid_adjacent(p, q, w / 2, h / 2),
        ({
            let s = side_cells(b, c, w);
            let t = side_cells(p, q, w);
            (s.0 == t.0 && s.1 == t.1) || (s.0 == t.1 && s.1 == t.0)
        }),
    ensures
        b == p,
        c == q,
{
    let bw = w / 2;
    let bh = h / 2;
    assert(bw * bh <= w * h) by (nonlinear_arith)
        requires
            bw == w / 2,
            bh == h / 2,
            w > 0,
            h >= 0,
    ;
    lemma_adjacent_unit(b, c, bw, bh);
    lemma_adjacent_unit(p, q, bw, bh);
    lemma_divmod_cell(b, bw, bh);
    lemma_divmod_cell(c, bw, bh);
    lemma_divmod_cell(p, bw, bh);
    lemma_divmod_cell(q, bw, bh);
    let s = side_cells(b, c, w);
    let t = side_cells(p, q, w);
    if s.0 == t.0 {
        if b % bw != p % bw || b / bw != p / bw {
            assert(false) by {
                let (bx, by, cx, cy) = (b % bw, b / bw, c % bw, c / bw);
                let (px, py, qx, qy) = (p % bw, p / bw, q % bw, q / bw);
                let dxs = if cy == by && cx == bx + 1 { 1int } else { 0int };
                let dys = if cy == by && cx == bx + 1 { 0int } else if cy == by && bx == cx + 1 { 0int } else if cx == bx && cy == by + 1 { 1int } else { 0int };
                let dxt = if qy == py && qx == px + 1 { 1int } else { 0int };
                let dyt = if qy == py && qx == px + 1 { 0int } else if qy == py && px == qx + 1 { 0int } else if qx == px && qy == py + 1 { 1int } else { 0int };
                assert(s.0 == blk_cell(b, dxs, dys, w));
                assert(t.0 == blk_cell(p, dxt, dyt, w));
                lemma_blk_cell_inj(b, dxs, dys, p, dxt, dyt, w, h);
            }
        }
    } else {
        if b % bw != p % bw || b / bw != p / bw {
            assert(false) by {
                let (bx, by, cx, cy) = (b % bw, b / bw, c % bw, c / bw);
                let (px, py, qx, qy) = (p % bw, p / bw, q % bw, q / bw);
                let dxs = if cy == by && cx == bx + 1 { 1int } else { 0int };
                let dys = if cy == by && cx == bx + 1 { 0int } else if cy == by && bx == cx + 1 { 0int } else if cx == bx && cy == by + 1 { 1int } else { 0int };
                let dxt = if qy == py && qx == px + 1 { 1int } else if qy == py && px == qx + 1 { 0int } else if qx == px && qy == py + 1 { 1int } else { 1int };
                let dyt = if qy == py && qx == px + 1 { 1int } else if qy == py && px == qx + 1 { 1int } else if qx == px && qy == py + 1 { 1int } else { 0int };
                assert(s.0 == blk_cell(b, dxs, dys, w));
                assert(t.1 == blk_cell(p, dxt, dyt, w));
                lemma_blk_cell_inj(b, dxs, dys, p, dxt, dyt, w, h);
            }
        }
    }
    assert(b == p);
    let (bx, by, cx, cy) = (b % bw, b / bw, c % bw, c / bw);
    let (qx, qy) = (q % bw, q / bw);
    lemma_blk_cell(b, 0, 0, w, h);
    lemma_blk_cell(b, 1, 0, w, h);
    lemma_blk_cell(b, 0, 1, w, h);
    lemma_blk_cell(b, 1, 1, w, h);
    assert(blk_cell(b, 1, 0, w) == blk_cell(b, 0, 0, w) + 1);
    let y = 2 * by;
    assert((y + 1) * w == y * w + w) by (nonlinear_arith);
    assert(blk_cell(b, 0, 1, w) == blk_cell(b, 0, 0, w) + w);
    assert(cx == qx && cy == qy);
}


/// The path of the seed loop of `q` opened facing `p`, run from `x`'s partner: as is
/// when `x` is the first cell of `p`'s facing side, reversed otherwise.
pub open spec fn splice_path(q: int, p: int, w: int, forward: bool) -> Seq<int> {
    oriented(fresh_path(q, p, w), forward)
}

/// A four-cell path as is, or reversed.
pub open spec fn oriented(f: Seq<int>, forward: bool) -> Seq<int> {
    if forward {
        f
    } else {
        seq![f[3], f[2], f[1], f[0]]
    }
}

/// Routing the cut link `x1`–`x2` of a listed cycle through the four-cell path `f`
/// (from `x1`'s new partner to `x2`'s) gives the cycle with `f` put in at the cut.
#[verifier::rlimit(60)]
#[verifier::spinoff_prover]
proof fn lemma_splice_core(
    nbr: Seq<(i64, i64)>,
    nbr2: Seq<(i64, i64)>,
    cyc: Seq<int>,
    i: int,
    x1: int,
    x2: int,
    ox1: int,
    ox2: int,
    f: Seq<int>,
)
    requires
        cycle_links(nbr, cyc),
        0 <= i < cyc.len(),
        ({
            let n = cyc.len() as int;
            let j = cyc_next(i, n);
            &&& (cyc[i] == x1 && cyc[j] == x2) || (cyc[i] == x2 && cyc[j] == x1)
            &&& cyc[i] == x1 ==> ox1 == cyc[cyc_prev(i, n)] && ox2 == cyc[cyc_next(j, n)]
            &&& cyc[i] == x2 ==> ox1 == cyc[cyc_next(j, n)] && ox2 == cyc[cyc_prev(i, n)]
        }),
        nbr2.len() == nbr.len(),
        f.len() == 4,
        forall|a: int, b: int| 0 <= a < b < 4 ==> #[trigger] f[a] != #[trigger] f[b],
        forall|a: int| 0 <= a < 4 ==> 0 <= #[trigger] f[a] < nbr.len(),
        forall|a: int, k: int| 0 <= a < 4 && 0 <= k < cyc.len() ==> #[trigger] f[a] != #[trigger] cyc[k],
        links_pair(nbr2[x1], ox1, f[0]),
        links_pair(nbr2[x2], ox2, f[3]),
        links_pair(nbr2[f[0]], f[1], x1),
        links_pair(nbr2[f[3]], f[2], x2),
        links_pair(nbr2[f[1]], f[0], f[2]),
        links_pair(nbr2[f[2]], f[1], f[3]),
        forall|k: int|
            0 <= k < cyc.len() && k != i && k != cyc_next(i, cyc.len() as int) ==> nbr2[#[trigger] cyc[k]]
                == nbr[cyc[k]],
    ensures
        ({
            let path = oriented(f, cyc[i] == x1);
            let c2 = cycle_insert(cyc, i, path);
            &&& cycle_links(nbr2, c2)
            &&& c2.len() == cyc.len() + 4
            &&& c2[0] == cyc[0]
            &&& forall|k: int| 0 <= k <= i ==> #[trigger] c2[k] == cyc[k]
            &&& forall|k: int| i < k < cyc.len() ==> #[trigger] c2[k + 4] == cyc[k]
            &&& forall|a: int| 0 <= a < 4 ==> #[trigger] c2[i + 1 + a] == path[a]
        }),
{
    let path = oriented(f, cyc[i] == x1);
    assert forall|a: int, k: int| 0 <= a < 4 && 0 <= k < cyc.len() implies #[trigger] path[a]
        != #[trigger] cyc[k] by {
        assert(path[a] == f[0] || path[a] == f[1] || path[a] == f[2] || path[a] == f[3]);
    }
    assert forall|a: int| 0 <= a < 4 implies 0 <= #[trigger] path[a] < nbr.len() by {
        assert(path[a] == f[0] || path[a] == f[1] || path[a] == f[2] || path[a] == f[3]);
    }
    lemma_cycle_join(nbr, nbr2, cyc, i, path);
}

/// Block `p` lies west of or above `q` (it plays the first part in a splice).
pub open spec fn p_first(p: int, q: int, w: int) -> bool {
    let bw = w / 2;
    let (pbx, pby, qbx, qby) = (p % bw, p / bw, q % bw, q / bw);
    (qby == pby && qbx == pbx + 1) || (!(pby == qby && pbx == qbx + 1) && (qbx == pbx && qby == pby
        + 1))
}

/// The links of a seeded block, read along the path opened facing a neighbour.
#[verifier::spinoff_prover]
proof fn lemma_fresh_links(nbr: Seq<(i64, i64)>, q: int, p: int, w: int, h: int)
    requires
        w % 2 == 0,
        h % 2 == 0,
        w > 0,
        h > 0,
        w * h <= u32::MAX,
        0 <= p < (w / 2) * (h / 2),
        0 <= q < (w / 2) * (h / 2),
        grid_adjacent(p, q, w / 2, h / 2),
        seeded(nbr, q, w),
    ensures
        ({
            let f = fresh_path(q, p, w);
            &&& f.len() == 4
            &&& links_pair(nbr[f[0]], f[1], f[3])
            &&& links_pair(nbr[f[3]], f[0], f[2])
            &&& links_pair(nbr[f[1]], f[0], f[2])
            &&& links_pair(nbr[f[2]], f[1], f[3])
            &&& side_cells(q, p, w) == (f[0], f[3])
            &&& forall|a: int, b: int| 0 <= a < b < 4 ==> #[trigger] f[a] != #[trigger] f[b]
            &&& forall|a: int|
                0 <= a < 4 ==> (#[trigger] f[a] == blk_cell(q, 0, 0, w) || f[a] == blk_cell(q, 1, 0, w)
                    || f[a] == blk_cell(q, 1, 1, w) || f[a] == blk_cell(q, 0, 1, w))
        }),
{
    let bw = w / 2;
    let bh = h / 2;
    assert(bw * bh <= w * h) by (nonlinear_arith)
        requires
            bw == w / 2,
            bh == h / 2,
            w > 0,
            h > 0,
    ;
    lemma_adjacent_unit(p, q, bw, bh);
    lemma_divmod_cell(p, bw, bh);
    lemma_divmod_cell(q, bw, bh);
    lemma_blk_cell(q, 0, 0, w, h);
    lemma_blk_cell(q, 1, 0, w, h);
    lemma_blk_cell(q, 0, 1, w, h);
    lemma_blk_cell(q, 1, 1, w, h);
    let yq = 2 * (q / bw);
    assert((yq + 1) * w == yq * w + w) by (nonlinear_arith);
    let c00 = blk_cell(q, 0, 0, w);
    let c10 = blk_cell(q, 1, 0, w);
    let c11 = blk_cell(q, 1, 1, w);
    let c01 = blk_cell(q, 0, 1, w);
    assert(c10 == c00 + 1);
    assert(c01 == c00 + w);
    assert(c11 == c00 + w + 1);
    assert(links_pair(nbr[c00], c10, c01));
    assert(links_pair(nbr[c10], c00, c11));
    assert(links_pair(nbr[c11], c10, c01));
    assert(links_pair(nbr[c01], c11, c00));
    let (qx, qy, px, py) = (q % bw, q / bw, p % bw, p / bw);
    let f = fresh_path(q, p, w);
    if py == qy && px == qx + 1 {
        assert(f =~= seq![c10, c00, c01, c11]);
    } else if py == qy && qx == px + 1 {
        assert(f =~= seq![c00, c10, c11, c01]);
    } else if px == qx && py == qy + 1 {
        assert(f =~= seq![c01, c00, c10, c11]);
    } else {
        assert(f =~= seq![c00, c01, c11, c10]);
    }
}

/// A splice written out as its two cuts and two new links, over the facing sides.
#[verifier::spinoff_prover]
proof fn lemma_splice_unfold(nbr: Seq<(i64, i64)>, p: int, q: int, w: int, h: int)
    requires
        w % 2 == 0,
        h % 2 == 0,
        w > 0,
        h > 0,
        w * h <= u32::MAX,
        0 <= p < (w / 2) * (h / 2),
        0 <= q < (w / 2) * (h / 2),
        grid_adjacent(p, q, w / 2, h / 2),
    ensures
        ({
            let s = side_cells(p, q, w);
            let t = side_cells(q, p, w);
            let (a1, a2, b1, b2) = if p_first(p, q, w) {
                (s.0, s.1, t.0, t.1)
            } else {
                (t.0, t.1, s.0, s.1)
            };
            splice_spec(nbr, p, q, w) == link_cells(
                link_cells(unlink_cells(unlink_cells(nbr, a1, a2), b1, b2), a1, b1),
                a2,
                b2,
            )
        }),
{
    let bw = w / 2;
    let bh = h / 2;
    assert(bw * bh <= w * h) by (nonlinear_arith)
        requires
            bw == w / 2,
            bh == h / 2,
            w > 0,
            h > 0,
    ;
    lemma_adjacent_unit(p, q, bw, bh);
    lemma_divmod_cell(p, bw, bh);
    lemma_divmod_cell(q, bw, bh);
    reveal(splice_spec);
}

/// The links a splice leaves on the cells it touches, and that it touches no other.
#[verifier::rlimit(60)]
#[verifier::spinoff_prover]
proof fn lemma_splice_links(nbr: Seq<(i64, i64)>, p: int, q: int, w: int, h: int, ox1: int, ox2: int)
    requires
        w % 2 == 0,
        h % 2 == 0,
        w > 0,
        h > 0,
        nbr.len() == w * h,
        w * h <= u32::MAX,
        0 <= p < (w / 2) * (h / 2),
        0 <= q < (w / 2) * (h / 2),
        grid_adjacent(p, q, w / 2, h / 2),
        seeded(nbr, q, w),
        0 <= ox1,
        0 <= ox2,
        ox1 != side_cells(p, q, w).1,
        ox2 != side_cells(p, q, w).0,
        links_pair(nbr[side_cells(p, q, w).0], ox1, side_cells(p, q, w).1),
        links_pair(nbr[side_cells(p, q, w).1], side_cells(p, q, w).0, ox2),
    ensures
        ({
            let s = side_cells(p, q, w);
            let f = fresh_path(q, p, w);
            let nbr2 = splice_spec(nbr, p, q, w);
            &&& nbr2.len() == nbr.len()
            &&& links_pair(nbr2[s.0], ox1, f[0])
            &&& links_pair(nbr2[s.1], ox2, f[3])
            &&& links_pair(nbr2[f[0]], f[1], s.0)
            &&& links_pair(nbr2[f[3]], f[2], s.1)
            &&& nbr2[f[1]] == nbr[f[1]]
            &&& nbr2[f[2]] == nbr[f[2]]
            &&& forall|c: int|
                0 <= c < nbr.len() && c != s.0 && c != s.1 && c != f[0] && c != f[3] ==> #[trigger] nbr2[c]
                    == nbr[c]
        }),
{
    lemma_fresh_links(nbr, q, p, w, h);
    lemma_splice_unfold(nbr, p, q, w, h);
    lemma_side_cells_of(p, q, w, h);
    lemma_blk_cell(q, 0, 0, w, h);
    lemma_blk_cell(q, 1, 0, w, h);
    lemma_blk_cell(q, 0, 1, w, h);
    lemma_blk_cell(q, 1, 1, w, h);
    let s = side_cells(p, q, w);
    let f = fresh_path(q, p, w);
    let (x1, x2) = (s.0, s.1);
    let (y1, m1, m2, y2) = (f[0], f[1], f[2], f[3]);
    assert(x1 != y1 && x1 != y2 && x2 != y1 && x2 != y2 && m1 != x1 && m1 != x2 && m2 != x1 && m2
        != x2) by {
        assert(f[0] == blk_cell(q, 0, 0, w) || f[0] == blk_cell(q, 1, 0, w) || f[0] == blk_cell(q, 1, 1, w)
            || f[0] == blk_cell(q, 0, 1, w));
        assert(f[1] == blk_cell(q, 0, 0, w) || f[1] == blk_cell(q, 1, 0, w) || f[1] == blk_cell(q, 1, 1, w)
            || f[1] == blk_cell(q, 0, 1, w));
        assert(f[2] == blk_cell(q, 0, 0, w) || f[2] == blk_cell(q, 1, 0, w) || f[2] == blk_cell(q, 1, 1, w)
            || f[2] == blk_cell(q, 0, 1, w));
        assert(f[3] == blk_cell(q, 0, 0, w) || f[3] == blk_cell(q, 1, 0, w) || f[3] == blk_cell(q, 1, 1, w)
            || f[3] == blk_cell(q, 0, 1, w));
    }
    assert(0 <= y1 < nbr.len() && 0 <= y2 < nbr.len()) by {
        assert(f[0] == blk_cell(q, 0, 0, w) || f[0] == blk_cell(q, 1, 0, w) || f[0] == blk_cell(q, 1, 1, w)
            || f[0] == blk_cell(q, 0, 1, w));
        assert(f[3] == blk_cell(q, 0, 0, w) || f[3] == blk_cell(q, 1, 0, w) || f[3] == blk_cell(q, 1, 1, w)
            || f[3] == blk_cell(q, 0, 1, w));
    }
    assert(0 <= m1 && 0 <= m2) by {
        assert(f[1] == blk_cell(q, 0, 0, w) || f[1] == blk_cell(q, 1, 0, w) || f[1] == blk_cell(q, 1, 1, w)
            || f[1] == blk_cell(q, 0, 1, w));
        assert(f[2] == blk_cell(q, 0, 0, w) || f[2] == blk_cell(q, 1, 0, w) || f[2] == blk_cell(q, 1, 1, w)
            || f[2] == blk_cell(q, 0, 1, w));
    }
    if p_first(p, q, w) {
        lemma_rewire(nbr, x1, x2, y1, y2, ox1, ox2, m1, m2);
    } else {
        lemma_rewire(nbr, y1, y2, x1, x2, m1, m2, ox1, ox2);
    }
}

/// Splicing the seed loop of a block `q` into a listed cycle across the side of `p`
/// facing it, where that side's two cells follow each other at position `i`: the
/// links then form the cycle with `q`'s four cells put in after position `i`.
#[verifier::rlimit(100)]
#[verifier::spinoff_prover]
proof fn lemma_splice_step(nbr: Seq<(i64, i64)>, cyc: Seq<int>, p: int, q: int, w: int, h: int, i: int)
    requires
        w % 2 == 0,
        h % 2 == 0,
        w > 0,
        h > 0,
        nbr.len() == w * h,
        w * h <= u32::MAX,
        0 <= p < (w / 2) * (h / 2),
        0 <= q < (w / 2) * (h / 2),
        grid_adjacent(p, q, w / 2, h / 2),
        cycle_links(nbr, cyc),
        seeded(nbr, q, w),
        forall|k: int, dx: int, dy: int|
            0 <= k < cyc.len() && 0 <= dx <= 1 && 0 <= dy <= 1 ==> #[trigger] cyc[k] != #[trigger] blk_cell(
                q,
                dx,
                dy,
                w,
            ),
        0 <= i < cyc.len(),
        ({
            let s = side_cells(p, q, w);
            let j = cyc_next(i, cyc.len() as int);
            (cyc[i] == s.0 && cyc[j] == s.1) || (cyc[i] == s.1 && cyc[j] == s.0)
        }),
    ensures
        ({
            let path = splice_path(q, p, w, cyc[i] == side_cells(p, q, w).0);
            let nbr2 = splice_spec(nbr, p, q, w);
            let c2 = cycle_insert(cyc, i, path);
            &&& nbr2.len() == nbr.len()
            &&& cycle_links(nbr2, c2)
            &&& c2.len() == cyc.len() + 4
            &&& c2[0] == cyc[0]
            &&& forall|k: int| 0 <= k <= i ==> #[trigger] c2[k] == cyc[k]
            &&& forall|k: int| i < k < cyc.len() ==> #[trigger] c2[k + 4] == cyc[k]
            &&& forall|a: int| 0 <= a < 4 ==> #[trigger] c2[i + 1 + a] == path[a]
            &&& forall|c: int|
                0 <= c < nbr.len() && c != side_cells(p, q, w).0 && c != side_cells(p, q, w).1 && c
                    != blk_cell(q, 0, 0, w) && c != blk_cell(q, 1, 0, w) && c != blk_cell(q, 1, 1, w)
                    && c != blk_cell(q, 0, 1, w) ==> #[trigger] nbr2[c] == nbr[c]
        }),
{
    let n = cyc.len() as int;
    lemma_fresh_links(nbr, q, p, w, h);
    lemma_side_cells_of(p, q, w, h);
    lemma_blk_cell(q, 0, 0, w, h);
    lemma_blk_cell(q, 1, 0, w, h);
    lemma_blk_cell(q, 0, 1, w, h);
    lemma_blk_cell(q, 1, 1, w, h);
    let s = side_cells(p, q, w);
    let j = cyc_next(i, n);
    let fwd = cyc[i] == s.0;
    let ox1 = if fwd { cyc[cyc_prev(i, n)] } else { cyc[cyc_next(j, n)] };
    let ox2 = if fwd { cyc[cyc_next(j, n)] } else { cyc[cyc_prev(i, n)] };
    assert(links_pair(nbr[cyc[i]], cyc[cyc_prev(i, n)], cyc[cyc_next(i, n)]));
    assert(links_pair(nbr[cyc[j]], cyc[cyc_prev(j, n)], cyc[cyc_next(j, n)]));
    assert(0 <= cyc[cyc_prev(i, n)] && 0 <= cyc[cyc_next(j, n)]);
    assert(cyc[cyc_prev(i, n)] != cyc[j] && cyc[cyc_next(j, n)] != cyc[i]);
    lemma_splice_links(nbr, p, q, w, h, ox1, ox2);
    let f = fresh_path(q, p, w);
    let nbr2 = splice_spec(nbr, p, q, w);
    assert forall|a: int| 0 <= a < 4 implies 0 <= #[trigger] f[a] < nbr.len() && forall|k: int|
        0 <= k < cyc.len() ==> f[a] != #[trigger] cyc[k] by {
        assert forall|k: int| 0 <= k < cyc.len() implies f[a] != #[trigger] cyc[k] by {
            assert(cyc[k] != blk_cell(q, 0, 0, w));
            assert(cyc[k] != blk_cell(q, 1, 0, w));
            assert(cyc[k] != blk_cell(q, 1, 1, w));
            assert(cyc[k] != blk_cell(q, 0, 1, w));
        }
    }
    assert forall|k: int| 0 <= k < cyc.len() && k != i && k != j implies nbr2[#[trigger] cyc[k]]
        == nbr[cyc[k]] by {
        assert(cyc[k] != f[0] && cyc[k] != f[3]);
    }
    lemma_splice_core(nbr, nbr2, cyc, i, s.0, s.1, ox1, ox2, f);
}

/// The cells of the side of `p` facing `q` are cells of `p`, apart from `q`'s, and on
/// the grid.
proof fn lemma_side_cells_of(p: int, q: int, w: int, h: int)
    requires
        w % 2 == 0,
        h % 2 == 0,
        w > 0,
        h > 0,
        w * h <= u32::MAX,
        0 <= p < (w / 2) * (h / 2),
        0 <= q < (w / 2) * (h / 2),
        grid_adjacent(p, q, w / 2, h / 2),
    ensures
        ({
            let s = side_cells(p, q, w);
            &&& 0 <= s.0 < w * h
            &&& 0 <= s.1 < w * h
            &&& s.0 != s.1
            &&& forall|dx: int, dy: int|
                0 <= dx <= 1 && 0 <= dy <= 1 ==> s.0 != #[trigger] blk_cell(q, dx, dy, w) && s.1
                    != blk_cell(q, dx, dy, w)
        }),
{
    let bw = w / 2;
    let bh = h / 2;
    assert(bw * bh <= w * h) by (nonlinear_arith)
        requires
            bw == w / 2,
            bh == h / 2,
            w > 0,
            h > 0,
    ;
    lemma_adjacent_unit(p, q, bw, bh);
    lemma_blk_cell(p, 0, 0, w, h);
    lemma_blk_cell(p, 1, 0, w, h);
    lemma_blk_cell(p, 0, 1, w, h);
    lemma_blk_cell(p, 1, 1, w, h);
    lemma_blk_cells_apart(p, q, w, h);
    let yp = 2 * (p / bw);
    assert((yp + 1) * w == yp * w + w) by (nonlinear_arith);
    assert(blk_cell(p, 1, 0, w) == blk_cell(p, 0, 0, w) + 1);
    assert(blk_cell(p, 0, 1, w) == blk_cell(p, 0, 0, w) + w);
}


/// A seeded block's four cells, listed round its loop, form a listed cycle whose
/// consecutive pairs are the block's four sides.
proof fn lemma_seed_cycle(nbr: Seq<(i64, i64)>, b: int, w: int, h: int)
    requires
        w % 2 == 0,
        h % 2 == 0,
        w > 0,
        h > 0,
        nbr.len() == w * h,
        w * h <= u32::MAX,
        0 <= b < (w / 2) * (h / 2),
        seeded(nbr, b, w),
    ensures
        ({
            let cyc = seq![blk_cell(b, 0, 0, w), blk_cell(b, 1, 0, w), blk_cell(b, 1, 1, w), blk_cell(b, 0, 1, w)];
            &&& cycle_links(nbr, cyc)
            &&& forall|c: int| pair_adjacent(cyc, #[trigger] side_cells(b, c, w))
        }),
{
    lemma_blk_cell(b, 0, 0, w, h);
    lemma_blk_cell(b, 1, 0, w, h);
    lemma_blk_cell(b, 0, 1, w, h);
    lemma_blk_cell(b, 1, 1, w, h);
    let y = 2 * (b / (w / 2));
    assert((y + 1) * w == y * w + w) by (nonlinear_arith);
    let cyc = seq![blk_cell(b, 0, 0, w), blk_cell(b, 1, 0, w), blk_cell(b, 1, 1, w), blk_cell(b, 0, 1, w)];
    assert(blk_cell(b, 1, 0, w) == blk_cell(b, 0, 0, w) + 1);
    assert(blk_cell(b, 0, 1, w) == blk_cell(b, 0, 0, w) + w);
    assert(blk_cell(b, 1, 1, w) == blk_cell(b, 0, 0, w) + w + 1);
    assert forall|c: int| pair_adjacent(cyc, #[trigger] side_cells(b, c, w)) by {
        let s = side_cells(b, c, w);
        if s == (cyc[1], cyc[2]) {
            assert(cyc[1] == s.0 && cyc[cyc_next(1, 4)] == s.1);
        } else if s == (cyc[0], cyc[3]) {
            assert(cyc[3] == s.1 && cyc[cyc_next(3, 4)] == s.0);
        } else if s == (cyc[3], cyc[2]) {
            assert(cyc[2] == s.1 && cyc[cyc_next(2, 4)] == s.0);
        } else {
            assert(cyc[0] == s.0 && cyc[cyc_next(0, 4)] == s.1);
        }
    }
}

/// The sides of `q` other than the one facing `p` are consecutive pairs of the path
/// that opens `q`'s seed loop facing `p`.
proof fn lemma_fresh_sides(q: int, p: int, c: int, w: int, h: int)
    requires
        w % 2 == 0,
        h % 2 == 0,
        w > 0,
        h > 0,
        w * h <= u32::MAX,
        0 <= p < (w / 2) * (h / 2),
        0 <= q < (w / 2) * (h / 2),
        0 <= c < (w / 2) * (h / 2),
        grid_adjacent(q, p, w / 2, h / 2),
        grid_adjacent(q, c, w / 2, h / 2),
        c != p,
    ensures
        ({
            let f = fresh_path(q, p, w);
            let s = side_cells(q, c, w);
            ||| (s.0 == f[0] && s.1 == f[1]) || (s.1 == f[0] && s.0 == f[1])
            ||| (s.0 == f[1] && s.1 == f[2]) || (s.1 == f[1] && s.0 == f[2])
            ||| (s.0 == f[2] && s.1 == f[3]) || (s.1 == f[2] && s.0 == f[3])
        }),
{
    let bw = w / 2;
    let bh = h / 2;
    assert(bw * bh <= w * h) by (nonlinear_arith)
        requires
            bw == w / 2,
            bh == h / 2,
            w > 0,
            h > 0,
    ;
    lemma_adjacent_unit(q, p, bw, bh);
    lemma_adjacent_unit(q, c, bw, bh);
    lemma_divmod_cell(p, bw, bh);
    lemma_divmod_cell(q, bw, bh);
    lemma_divmod_cell(c, bw, bh);
    let f = fresh_path(q, p, w);
    let s = side_cells(q, c, w);
    assert(c % bw != p % bw || c / bw != p / bw);
}

/// Putting cells in at the cut after position `i` keeps every other pair of
/// neighbours round the cycle.
proof fn lemma_insert_keeps_pair(cyc: Seq<int>, i: int, path: Seq<int>, pair: (int, int))
    requires
        cyc.len() >= 3,
        forall|a: int, b: int| 0 <= a < b < cyc.len() ==> #[trigger] cyc[a] != #[trigger] cyc[b],
        0 <= i < cyc.len(),
        path.len() == 4,
        pair_adjacent(cyc, pair),
        !((pair.0 == cyc[i] && pair.1 == cyc[cyc_next(i, cyc.len() as int)]) || (pair.1 == cyc[i]
            && pair.0 == cyc[cyc_next(i, cyc.len() as int)])),
    ensures
        pair_adjacent(cycle_insert(cyc, i, path), pair),
{
    let n = cyc.len() as int;
    let c2 = cycle_insert(cyc, i, path);
    let jj = choose|jj: int|
        0 <= jj < n && ((#[trigger] cyc[jj] == pair.0 && cyc[cyc_next(jj, n)] == pair.1) || (cyc[jj]
            == pair.1 && cyc[cyc_next(jj, n)] == pair.0));
    assert(jj != i);
    if jj < i {
        assert(c2[jj] == cyc[jj] && c2[jj + 1] == cyc[jj + 1]);
        assert(cyc_next(jj, n) == jj + 1);
        assert(cyc_next(jj, n + 4) == jj + 1);
    } else {
        assert(c2[jj + 4] == cyc[jj]);
        if jj + 1 < n {
            assert(c2[jj + 5] == cyc[jj + 1]);
            assert(cyc_next(jj + 4, n + 4) == jj + 5);
        } else {
            assert(cyc_next(jj + 4, n + 4) == 0);
            assert(c2[0] == cyc[0]);
        }
    }
}

/// The two cells of a side of `p` are cells of `p` and of no other block.
proof fn lemma_side_cells_owner(p: int, c: int, b2: int, w: int, h: int)
    requires
        w % 2 == 0,
        h % 2 == 0,
        w > 0,
        0 <= p < (w / 2) * (h / 2),
        0 <= b2 < (w / 2) * (h / 2),
        b2 != p,
    ensures
        forall|dx: int, dy: int|
            0 <= dx <= 1 && 0 <= dy <= 1 ==> side_cells(p, c, w).0 != #[trigger] blk_cell(b2, dx, dy, w)
                && side_cells(p, c, w).1 != blk_cell(b2, dx, dy, w),
{
    lemma_blk_cells_apart(p, b2, w, h);
}


/// The blocks in the tree after one more edge are those before and the edge's child.
proof fn lemma_in_tree_step(tree: Seq<(usize, usize)>, si: int, t: int, x: int)
    requires
        0 <= t < tree.len(),
    ensures
        in_tree(tree, si, t + 1, x) <==> (in_tree(tree, si, t, x) || x == tree[t].1),
{
    if in_tree(tree, si, t, x) && x != si {
        let k = choose|k: int| 0 <= k < t && #[trigger] tree[k].1 == x;
        assert(0 <= k < t + 1 && tree[k].1 == x);
    }
    if x == tree[t].1 {
        assert(0 <= t < t + 1 && tree[t].1 == x);
    }
    if in_tree(tree, si, t + 1, x) && x != si && x != tree[t].1 {
        let k = choose|k: int| 0 <= k < t + 1 && #[trigger] tree[k].1 == x;
        assert(k < t);
    }
}

/// After splicing the child of the next tree edge in: every allowed block outside
/// the tree is still seeded and off the cycle, and every side of a tree block facing
/// an allowed block outside the tree is still a pair of neighbours round the cycle.
#[verifier::rlimit(80)]
#[verifier::spinoff_prover]
proof fn lemma_splice_after(
    old_nbr: Seq<(i64, i64)>,
    nbr2: Seq<(i64, i64)>,
    old_cyc: Seq<int>,
    cyc2: Seq<int>,
    tree: Seq<(usize, usize)>,
    si: int,
    t: int,
    p: int,
    q: int,
    w: int,
    h: int,
    i: int,
    bm: Seq<bool>,
)
    requires
        w % 2 == 0,
        h % 2 == 0,
        w > 0,
        h > 0,
        old_nbr.len() == w * h,
        w * h <= u32::MAX,
        bm.len() == (w / 2) * (h / 2),
        0 <= t < tree.len(),
        p == tree[t].0,
        q == tree[t].1,
        tree_edge_ok(tree[t], bm, w / 2, h / 2),
        in_tree(tree, si, t, p),
        !in_tree(tree, si, t, q),
        cycle_links(old_nbr, old_cyc),
        seeded(old_nbr, q, w),
        forall|k: int, dx: int, dy: int|
            0 <= k < old_cyc.len() && 0 <= dx <= 1 && 0 <= dy <= 1 ==> #[trigger] old_cyc[k]
                != #[trigger] blk_cell(q, dx, dy, w),
        0 <= i < old_cyc.len(),
        ({
            let s = side_cells(p, q, w);
            let j = cyc_next(i, old_cyc.len() as int);
            (old_cyc[i] == s.0 && old_cyc[j] == s.1) || (old_cyc[i] == s.1 && old_cyc[j] == s.0)
        }),
        nbr2 == splice_spec(old_nbr, p, q, w),
        cyc2 == cycle_insert(old_cyc, i, splice_path(q, p, w, old_cyc[i] == side_cells(p, q, w).0)),
        forall|b2: int|
            0 <= b2 < bm.len() && bm[b2] && !in_tree(tree, si, t, b2) ==> seeded(old_nbr, b2, w)
                && forall|k: int, dx: int, dy: int|
                0 <= k < old_cyc.len() && 0 <= dx <= 1 && 0 <= dy <= 1 ==> #[trigger] old_cyc[k]
                    != #[trigger] blk_cell(b2, dx, dy, w),
        forall|b2: int, c2: int|
            0 <= b2 < bm.len() && 0 <= c2 < bm.len() && in_tree(tree, si, t, b2) && grid_adjacent(
                b2,
                c2,
                w / 2,
                h / 2,
            ) && bm[c2] && !in_tree(tree, si, t, c2) ==> pair_adjacent(
                old_cyc,
                #[trigger] side_cells(b2, c2, w),
            ),
    ensures
        forall|b2: int|
            0 <= b2 < bm.len() && bm[b2] && !in_tree(tree, si, t + 1, b2) ==> seeded(nbr2, b2, w)
                && forall|k: int, dx: int, dy: int|
                0 <= k < cyc2.len() && 0 <= dx <= 1 && 0 <= dy <= 1 ==> #[trigger] cyc2[k]
                    != #[trigger] blk_cell(b2, dx, dy, w),
        forall|b2: int, c2: int|
            0 <= b2 < bm.len() && 0 <= c2 < bm.len() && in_tree(tree, si, t + 1, b2) && grid_adjacent(
                b2,
                c2,
                w / 2,
                h / 2,
            ) && bm[c2] && !in_tree(tree, si, t + 1, c2) ==> pair_adjacent(
                cyc2,
                #[trigger] side_cells(b2, c2, w),
            ),
{
    let n = old_cyc.len() as int;
    let fwd = old_cyc[i] == side_cells(p, q, w).0;
    let path = splice_path(q, p, w, fwd);
    let f = fresh_path(q, p, w);
    lemma_splice_step(old_nbr, old_cyc, p, q, w, h, i);
    lemma_fresh_links(old_nbr, q, p, w, h);
    assert forall|a: int| 0 <= a < 4 implies (#[trigger] path[a] == blk_cell(q, 0, 0, w) || path[a]
        == blk_cell(q, 1, 0, w) || path[a] == blk_cell(q, 1, 1, w) || path[a] == blk_cell(q, 0, 1, w)) by {
        assert(path[a] == f[0] || path[a] == f[1] || path[a] == f[2] || path[a] == f[3]);
        assert(f[0] == blk_cell(q, 0, 0, w) || f[0] == blk_cell(q, 1, 0, w) || f[0] == blk_cell(q, 1, 1, w)
            || f[0] == blk_cell(q, 0, 1, w));
        assert(f[1] == blk_cell(q, 0, 0, w) || f[1] == blk_cell(q, 1, 0, w) || f[1] == blk_cell(q, 1, 1, w)
            || f[1] == blk_cell(q, 0, 1, w));
        assert(f[2] == blk_cell(q, 0, 0, w) || f[2] == blk_cell(q, 1, 0, w) || f[2] == blk_cell(q, 1, 1, w)
            || f[2] == blk_cell(q, 0, 1, w));
        assert(f[3] == blk_cell(q, 0, 0, w) || f[3] == blk_cell(q, 1, 0, w) || f[3] == blk_cell(q, 1, 1, w)
            || f[3] == blk_cell(q, 0, 1, w));
    }
    assert forall|b2: int|
        0 <= b2 < bm.len() && bm[b2] && !in_tree(tree, si, t + 1, b2) implies seeded(nbr2, b2, w)
            && forall|k: int, dx: int, dy: int|
            0 <= k < cyc2.len() && 0 <= dx <= 1 && 0 <= dy <= 1 ==> #[trigger] cyc2[k]
                != #[trigger] blk_cell(b2, dx, dy, w) by {
        lemma_in_tree_step(tree, si, t, b2);
        lemma_in_tree_step(tree, si, t, p);
        assert(b2 != q && b2 != p);
        lemma_blk_cells_apart(b2, q, w, h);
        lemma_side_cells_owner(p, q, b2, w, h);
        lemma_blk_cell(b2, 0, 0, w, h);
        lemma_blk_cell(b2, 1, 0, w, h);
        lemma_blk_cell(b2, 0, 1, w, h);
        lemma_blk_cell(b2, 1, 1, w, h);
        assert(nbr2[blk_cell(b2, 0, 0, w)] == old_nbr[blk_cell(b2, 0, 0, w)]);
        assert(nbr2[blk_cell(b2, 1, 0, w)] == old_nbr[blk_cell(b2, 1, 0, w)]);
        assert(nbr2[blk_cell(b2, 0, 1, w)] == old_nbr[blk_cell(b2, 0, 1, w)]);
        assert(nbr2[blk_cell(b2, 1, 1, w)] == old_nbr[blk_cell(b2, 1, 1, w)]);
        assert forall|k: int, dx: int, dy: int|
            0 <= k < cyc2.len() && 0 <= dx <= 1 && 0 <= dy <= 1 implies #[trigger] cyc2[k]
                != #[trigger] blk_cell(b2, dx, dy, w) by {
            if k <= i {
                assert(cyc2[k] == old_cyc[k]);
            } else if k <= i + 4 {
                assert(cyc2[i + 1 + (k - i - 1)] == path[k - i - 1]);
            } else {
                assert(cyc2[(k - 4) + 4] == old_cyc[k - 4]);
            }
        }
    }
    assert forall|b2: int, c2: int|
        0 <= b2 < bm.len() && 0 <= c2 < bm.len() && in_tree(tree, si, t + 1, b2) && grid_adjacent(
            b2,
            c2,
            w / 2,
            h / 2,
        ) && bm[c2] && !in_tree(tree, si, t + 1, c2) implies pair_adjacent(
        cyc2,
        #[trigger] side_cells(b2, c2, w),
    ) by {
        lemma_in_tree_step(tree, si, t, b2);
        lemma_in_tree_step(tree, si, t, c2);
        lemma_in_tree_step(tree, si, t, p);
        let sc = side_cells(b2, c2, w);
        if b2 == q {
            assert(c2 != p);
            lemma_adjacent_sym(p, q, w / 2, h / 2);
            lemma_fresh_sides(q, p, c2, w, h);
            assert(cyc2.len() == n + 4);
            let a = if (sc.0 == f[0] && sc.1 == f[1]) || (sc.1 == f[0] && sc.0 == f[1]) {
                if fwd { 0int } else { 2int }
            } else if (sc.0 == f[1] && sc.1 == f[2]) || (sc.1 == f[1] && sc.0 == f[2]) {
                1int
            } else {
                if fwd { 2int } else { 0int }
            };
            assert(cyc2[i + 1 + a] == path[a]);
            assert(cyc2[i + 1 + (a + 1)] == path[a + 1]);
            assert(cyc_next(i + 1 + a, n + 4) == i + 2 + a);
            assert((cyc2[i + 1 + a] == sc.0 && cyc2[cyc_next(i + 1 + a, n + 4)] == sc.1) || (cyc2[i + 1
                + a] == sc.1 && cyc2[cyc_next(i + 1 + a, n + 4)] == sc.0));
        } else {
            assert(in_tree(tree, si, t, b2));
            assert(!in_tree(tree, si, t, c2) && c2 != q);
            assert(pair_adjacent(old_cyc, sc));
            let s = side_cells(p, q, w);
            let j = cyc_next(i, n);
            if (sc.0 == old_cyc[i] && sc.1 == old_cyc[j]) || (sc.1 == old_cyc[i] && sc.0 == old_cyc[j]) {
                lemma_side_inj(b2, c2, p, q, w, h);
            }
            lemma_insert_keeps_pair(old_cyc, i, path, sc);
        }
    }
}

/// Grid adjacency goes both ways.
proof fn lemma_adjacent_sym(i: int, j: int, w: int, h: int)
    requires
        grid_adjacent(i, j, w, h),
        w > 0,
    ensures
        grid_adjacent(j, i, w, h),
{
    lemma_divmod_cell(i, w, h);
    lemma_divmod_cell(j, w, h);
    let (x, y) = (i % w, i / w);
    if x > 0 && j == i - 1 {
        vstd::arithmetic::div_mod::lemma_fundamental_div_mod_converse(j, w, y, x - 1);
    } else if x + 1 < w && j == i + 1 {
        vstd::arithmetic::div_mod::lemma_fundamental_div_mod_converse(j, w, y, x + 1);
    } else if y > 0 && j == i - w {
        assert(j == (y - 1) * w + x) by (nonlinear_arith)
            requires
                j == i - w,
                i == y * w + x,
        ;
        vstd::arithmetic::div_mod::lemma_fundamental_div_mod_converse(j, w, y - 1, x);
    } else {
        assert(j == (y + 1) * w + x) by (nonlinear_arith)
            requires
                j == i + w,
                i == y * w + x,
        ;
        vstd::arithmetic::div_mod::lemma_fundamental_div_mod_converse(j, w, y + 1, x);
    }
}


/// Links every allowed block of the block mask into its seed loop.
#[verifier::rlimit(60)]
fn seed_links(ballowed: &Vec<bool>, w: usize, h: usize, Ghost(m): Ghost<Seq<bool>>) -> (nbr: Vec<(i64, i64)>)
    requires
        blocks_ready(m, ballowed@, w as int, h as int),
    ensures
        links_ok(nbr@, m, w as int, h as int),
        forall|b2: int| 0 <= b2 < ballowed@.len() && ballowed@[b2] ==> seeded(nbr@, b2, w as int),
{
    let ghost bm = ballowed@;
    let n = w * h;
    let bw = w / 2;
    let bh = h / 2;
    let nb = ballowed.len();
    proof {
        assert(nb == bw * bh);
    }
    let mut nbr: Vec<(i64, i64)> = Vec::new();
    let mut k: usize = 0;
    while k < n
        invariant
            k <= n,
            nbr@.len() == k,
            forall|a: int| 0 <= a < k ==> #[trigger] nbr@[a] == (-1i64, -1i64),
        decreases n - k,
    {
        nbr.push((-1, -1));
        k = k + 1;
    }
    let ghost wi = w as int;
    let ghost hi = h as int;
    proof {
        assert(blocks_ready(m, bm, wi, hi));
        assert(links_ok(nbr@, m, wi, hi));
        assert forall|b2: int, dx: int, dy: int|
            0 <= b2 < nb && 0 <= dx <= 1 && 0 <= dy <= 1 implies nbr@[#[trigger] blk_cell(
                b2,
                dx,
                dy,
                wi,
            )] == (-1i64, -1i64) by {
            lemma_blk_cell(b2, dx, dy, wi, hi);
        }
    }
    let mut b: usize = 0;
    while b < nb
        invariant
            b <= nb,
            bm == ballowed@,
            bm.len() == nb,
            wi == w,
            hi == h,
            nb == (wi / 2) * (hi / 2),
            blocks_ready(m, bm, wi, hi),
            links_ok(nbr@, m, wi, hi),
            forall|b2: int| 0 <= b2 < b && bm[b2] ==> seeded(nbr@, b2, wi),
            forall|b2: int, dx: int, dy: int|
                b <= b2 < nb && 0 <= dx <= 1 && 0 <= dy <= 1 ==> nbr@[#[trigger] blk_cell(
                    b2,
                    dx,
                    dy,
                    wi,
                )] == (-1i64, -1i64),
        decreases nb - b,
    {
        if ballowed[b] {
            let ghost before = nbr@;
            proof {
                lemma_seed_effect(before, b as int, wi, hi);
            }
            seed_block(&mut nbr, b, w, h, Ghost(m), Ghost(bm));
            proof {
                assert forall|b2: int| 0 <= b2 < b + 1 && bm[b2] implies seeded(nbr@, b2, wi) by {
                    if b2 != b {
                        lemma_blk_cells_apart(b2, b as int, wi, hi);
                        lemma_blk_cell(b2, 0, 0, wi, hi);
                        lemma_blk_cell(b2, 1, 0, wi, hi);
                        lemma_blk_cell(b2, 1, 1, wi, hi);
                        lemma_blk_cell(b2, 0, 1, wi, hi);
                        assert(blk_cell(b2, 0, 0, wi) != blk_cell(b as int, 0, 0, wi));
                        assert(blk_cell(b2, 0, 0, wi) != blk_cell(b as int, 1, 0, wi));
                        assert(blk_cell(b2, 0, 0, wi) != blk_cell(b as int, 1, 1, wi));
                        assert(blk_cell(b2, 0, 0, wi) != blk_cell(b as int, 0, 1, wi));
                        assert(blk_cell(b2, 1, 0, wi) != blk_cell(b as int, 0, 0, wi));
                        assert(blk_cell(b2, 1, 0, wi) != blk_cell(b as int, 1, 0, wi));
                        assert(blk_cell(b2, 1, 0, wi) != blk_cell(b as int, 1, 1, wi));
                        assert(blk_cell(b2, 1, 0, wi) != blk_cell(b as int, 0, 1, wi));
                        assert(blk_cell(b2, 1, 1, wi) != blk_cell(b as int, 0, 0, wi));
                        assert(blk_cell(b2, 1, 1, wi) != blk_cell(b as int, 1, 0, wi));
                        assert(blk_cell(b2, 1, 1, wi) != blk_cell(b as int, 1, 1, wi));
                        assert(blk_cell(b2, 1, 1, wi) != blk_cell(b as int, 0, 1, wi));
                        assert(blk_cell(b2, 0, 1, wi) != blk_cell(b as int, 0, 0, wi));
                        assert(blk_cell(b2, 0, 1, wi) != blk_cell(b as int, 1, 0, wi));
                        assert(blk_cell(b2, 0, 1, wi) != blk_cell(b as int, 1, 1, wi));
                        assert(blk_cell(b2, 0, 1, wi) != blk_cell(b as int, 0, 1, wi));
                    }
                }
                assert forall|b2: int, dx: int, dy: int|
                    b + 1 <= b2 < nb && 0 <= dx <= 1 && 0 <= dy <= 1 implies nbr@[#[trigger] blk_cell(
                        b2,
                        dx,
                        dy,
                        wi,
                    )] == (-1i64, -1i64) by {
                    lemma_blk_cells_apart(b2, b as int, wi, hi);
                    lemma_blk_cell(b2, dx, dy, wi, hi);
                    assert(blk_cell(b2, dx, dy, wi) != blk_cell(b as int, 0, 0, wi));
                    assert(blk_cell(b2, dx, dy, wi) != blk_cell(b as int, 1, 0, wi));
                    assert(blk_cell(b2, dx, dy, wi) != blk_cell(b as int, 1, 1, wi));
                    assert(blk_cell(b2, dx, dy, wi) != blk_cell(b as int, 0, 1, wi));
                }
            }
        }
        b = b + 1;
    }
    nbr
}

/// Splices the seed loops of the allowed blocks together along `tree`, returning
/// the listed cycle the links then form.
#[verifier::rlimit(100)]
#[verifier::spinoff_prover]
fn splice_along(
    nbr: &mut Vec<(i64, i64)>,
    ballowed: &Vec<bool>,
    w: usize,
    h: usize,
    start: usize,
    tree: &Vec<(usize, usize)>,
    Ghost(m): Ghost<Seq<bool>>,
) -> (cycle: Ghost<Seq<int>>)
    requires
        blocks_ready(m, ballowed@, w as int, h as int),
        links_ok(old(nbr)@, m, w as int, h as int),
        forall|b2: int| 0 <= b2 < ballowed@.len() && ballowed@[b2] ==> seeded(old(nbr)@, b2, w as int),
        start < ballowed@.len(),
        ballowed@[start as int],
        forall|k: int|
            0 <= k < tree@.len() ==> tree_edge_ok(#[trigger] tree@[k], ballowed@, (w / 2) as int, (h / 2) as int),
        tree_grows(tree@, start as int),
    ensures
        links_ok(final(nbr)@, m, w as int, h as int),
        cycle_links(final(nbr)@, cycle@),
        cycle@.len() == 4 * (tree@.len() + 1),
        cycle@[0] == blk_cell(start as int, 0, 0, w as int),
{
    let ghost bm = ballowed@;
    let ghost wi = w as int;
    let ghost hi = h as int;
    let n = w * h;
    let bw = w / 2;
    let bh = h / 2;
    let nb = ballowed.len();
    proof {
        assert(nb == bw * bh);
    }
    let ghost si = start as int;
    let ghost bwi = bw as int;
    let ghost bhi = bh as int;
    let ghost mut cyc: Seq<int> = seq![
        blk_cell(si, 0, 0, wi),
        blk_cell(si, 1, 0, wi),
        blk_cell(si, 1, 1, wi),
        blk_cell(si, 0, 1, wi),
    ];
    proof {
        assert(nb == bwi * bhi);
        lemma_seed_cycle(nbr@, si, wi, hi);
        assert forall|b2: int|
            0 <= b2 < nb && bm[b2] && !in_tree(tree@, si, 0, b2) implies seeded(nbr@, b2, wi)
                && forall|k: int, dx: int, dy: int|
                0 <= k < cyc.len() && 0 <= dx <= 1 && 0 <= dy <= 1 ==> #[trigger] cyc[k]
                    != #[trigger] blk_cell(b2, dx, dy, wi) by {
            lemma_blk_cells_apart(b2, si, wi, hi);
            assert forall|k: int, dx: int, dy: int|
                0 <= k < cyc.len() && 0 <= dx <= 1 && 0 <= dy <= 1 implies #[trigger] cyc[k]
                    != #[trigger] blk_cell(b2, dx, dy, wi) by {
                assert(cyc[k] == blk_cell(si, 0, 0, wi) || cyc[k] == blk_cell(si, 1, 0, wi) || cyc[k]
                    == blk_cell(si, 1, 1, wi) || cyc[k] == blk_cell(si, 0, 1, wi));
            }
        }
        assert forall|b2: int, c2: int|
            0 <= b2 < nb && 0 <= c2 < nb && in_tree(tree@, si, 0, b2) && grid_adjacent(b2, c2, bwi, bhi)
                && bm[c2] && !in_tree(tree@, si, 0, c2) implies pair_adjacent(
                cyc,
                #[trigger] side_cells(b2, c2, wi),
            ) by {
            assert(b2 == si);
        }
    }
    let mut t: usize = 0;
    while t < tree.len()
        invariant
            t <= tree@.len(),
            wi == w,
            hi == h,
            bw == w / 2,
            bh == h / 2,
            bwi == bw,
            bhi == bh,
            si == start,
            nb == bwi * bhi,
            bm.len() == nb,
            blocks_ready(m, bm, wi, hi),
            links_ok(nbr@, m, wi, hi),
            forall|k: int|
                0 <= k < tree@.len() ==> tree_edge_ok(#[trigger] tree@[k], bm, bw as int, bh as int),
            tree_grows(tree@, si),
            cycle_links(nbr@, cyc),
            cyc.len() == 4 * (t + 1),
            cyc[0] == blk_cell(si, 0, 0, wi),
            forall|b2: int|
                0 <= b2 < nb && bm[b2] && !in_tree(tree@, si, t as int, b2) ==> seeded(nbr@, b2, wi)
                    && forall|k: int, dx: int, dy: int|
                    0 <= k < cyc.len() && 0 <= dx <= 1 && 0 <= dy <= 1 ==> #[trigger] cyc[k]
                        != #[trigger] blk_cell(b2, dx, dy, wi),
            forall|b2: int, c2: int|
                0 <= b2 < nb && 0 <= c2 < nb && in_tree(tree@, si, t as int, b2) && grid_adjacent(
                    b2,
                    c2,
                    bwi,
                    bhi,
                ) && bm[c2] && !in_tree(tree@, si, t as int, c2) ==> pair_adjacent(
                    cyc,
                    #[trigger] side_cells(b2, c2, wi),
                ),
        decreases tree@.len() - t,
    {
        let (p, q) = tree[t];
        let ghost pi = p as int;
        let ghost qi = q as int;
        let ghost ti = t as int;
        let ghost old_nbr = nbr@;
        let ghost old_cyc = cyc;
        proof {
            assert(tree_edge_ok(tree@[ti], bm, bwi, bhi));
            assert(tree@[ti].1 != si);
            assert(!in_tree(tree@, si, ti, qi)) by {
                if exists|k: int| 0 <= k < ti && #[trigger] tree@[k].1 == qi {
                    let k = choose|k: int| 0 <= k < ti && #[trigger] tree@[k].1 == qi;
                    assert(tree@[k].1 != tree@[ti].1);
                }
            }
            assert(in_tree(tree@, si, ti, pi)) by {
                if pi != si {
                    let k2 = choose|k2: int| 0 <= k2 < ti && #[trigger] tree@[k2].1 == tree@[ti].0;
                    assert(tree@[k2].1 == pi);
                }
            }
            assert(pair_adjacent(old_cyc, side_cells(pi, qi, wi)));
        }
        let ghost i = choose|i: int|
            0 <= i < old_cyc.len() && ((#[trigger] old_cyc[i] == side_cells(pi, qi, wi).0 && old_cyc[cyc_next(
                i,
                old_cyc.len() as int,
            )] == side_cells(pi, qi, wi).1) || (old_cyc[i] == side_cells(pi, qi, wi).1 && old_cyc[cyc_next(
                i,
                old_cyc.len() as int,
            )] == side_cells(pi, qi, wi).0));
        proof {
            lemma_splice_step(old_nbr, old_cyc, pi, qi, wi, hi, i);
        }
        splice(nbr, p, q, w, h, Ghost(m), Ghost(bm));
        let ghost path = splice_path(qi, pi, wi, old_cyc[i] == side_cells(pi, qi, wi).0);
        proof {
            cyc = cycle_insert(old_cyc, i, path);
            lemma_splice_after(old_nbr, nbr@, old_cyc, cyc, tree@, si, ti, pi, qi, wi, hi, i, bm);
        }
        t = t + 1;
    }
    Ghost(cyc)
}

/// Seed every allowed block as a loop, splice the loops together along `tree`, and
/// walk the single loop that results from the top-left cell of `start`.
#[verifier::rlimit(100)]
#[verifier::spinoff_prover]
fn link_and_walk(
    ballowed: &Vec<bool>,
    w: usize,
    h: usize,
    start: usize,
    tree: &Vec<(usize, usize)>,
    count: usize,
    Ghost(m): Ghost<Seq<bool>>,
) -> (r: Option<Vec<(u32, u32)>>)
    requires
        blocks_ready(m, ballowed@, w as int, h as int),
        count == count_true(ballowed@),
        start < ballowed@.len(),
        ballowed@[start as int],
        forall|k: int|
            0 <= k < tree@.len() ==> tree_edge_ok(#[trigger] tree@[k], ballowed@, (w / 2) as int, (h / 2) as int),
        tree_grows(tree@, start as int),
        tree@.len() + 1 == count_true(ballowed@),
    ensures
        r is Some,
        r matches Some(o) ==> {
            &&& o@.len() == 4 * count_true(ballowed@)
            &&& o@.len() > 0
            &&& path_ok(o@, m, w as int, h as int)
            &&& unit_step(o@[o@.len() - 1], o@[0])
            &&& forall|i: int, j: int| 0 <= i < j < o@.len() ==> #[trigger] o@[i] != #[trigger] o@[j]
        },
{
    let ghost bm = ballowed@;
    let ghost wi = w as int;
    let ghost hi = h as int;
    let bw = w / 2;
    let bh = h / 2;
    let mut nbr = seed_links(ballowed, w, h, Ghost(m));
    let cycle = splice_along(&mut nbr, ballowed, w, h, start, tree, Ghost(m));
    let ghost cyc = cycle@;
    proof {
        lemma_blk_cell(start as int, 0, 0, wi, hi);
        lemma_block_cells(m, wi, hi, start as int);
    }
    let start_cell = cell(2 * (start % bw), 2 * (start / bw), w, h);
    proof {
        lemma_count_true_bound(bm);
        assert(4 * (bw * bh) == w * h) by (nonlinear_arith)
            requires
                bw == w / 2,
                bh == h / 2,
                w % 2 == 0,
                h % 2 == 0,
        ;
        assert(bm.len() == bw * bh);
    }
    let total = count * 4;
    proof {
        assert(walk_closes(nbr@, start_cell as int, total as int) && walk_distinct(
            nbr@,
            start_cell as int,
            total as int,
        )) by {
            lemma_walk_cycle(nbr@, cyc);
            assert(total == cyc.len());
            assert(cyc[0] == start_cell);
        }
    }
    let r = walk(&nbr, start_cell, total, w, h, Ghost(m));
    r
}

} // verus!

verus! {

/// `m` is the mask `allowed` gives, read row-major over a grid `w` cells wide.
pub open spec fn reads_mask<F: Fn(u32, u32) -> bool>(allowed: F, m: Seq<bool>, w: int, h: int) -> bool {
    &&& m.len() == w * h
    &&& forall|i: int|
        0 <= i < m.len() ==> allowed.ensures(((i % w) as u32, (i / w) as u32), #[trigger] m[i])
}

/// A closed strand through the allowed cells can be built: both sides even and
/// non-zero, every 2×2 block wholly allowed or wholly forbidden, and the allowed
/// blocks one connected, non-empty region.
pub open spec fn strand_possible(mask: Seq<bool>, w: int, h: int) -> bool {
    let bm = block_mask(mask, w, h);
    &&& w % 2 == 0
    &&& h % 2 == 0
    &&& w > 0
    &&& h > 0
    &&& block_aligned(mask, w, h)
    &&& exists|s: int| 0 <= s < bm.len() && bm[s] && connected_from(bm, w / 2, h / 2, s)
}

/// When the search from `start` closed off a set of allowed blocks that misses the
/// allowed block `c`, the allowed blocks are connected from none of them.
proof fn lemma_not_connected(bm: Seq<bool>, visited: Seq<bool>, bw: int, bh: int, start: int, c: int)
    requires
        bw > 0,
        bm.len() == bw * bh,
        visited.len() == bm.len(),
        0 <= start < bm.len(),
        visited[start],
        forall|i: int| 0 <= i < visited.len() && #[trigger] visited[i] ==> bm[i],
        forall|i: int|
            0 <= i < visited.len() && #[trigger] visited[i] ==> closed_at(bm, visited, i, bw, bh),
        0 <= c < bm.len(),
        bm[c],
        !visited[c],
    ensures
        forall|s: int| 0 <= s < bm.len() && bm[s] ==> !#[trigger] connected_from(bm, bw, bh, s),
{
    let n = bm.len() as int;
    let v1 = Set::new(|i: int| 0 <= i < n && visited[i]);
    let v2 = Set::new(|i: int| 0 <= i < n && bm[i] && !visited[i]);
    assert(closed_region(bm, bw, bh, v1)) by {
        assert forall|i: int| #[trigger] v1.contains(i) implies 0 <= i < bm.len() && bm[i] && (forall|
            j: int,
        | grid_adjacent(i, j, bw, bh) && bm[j] ==> v1.contains(j)) by {
            assert(closed_at(bm, visited, i, bw, bh));
        }
    }
    assert(closed_region(bm, bw, bh, v2)) by {
        assert forall|i: int| #[trigger] v2.contains(i) implies 0 <= i < bm.len() && bm[i] && (forall|
            j: int,
        | grid_adjacent(i, j, bw, bh) && bm[j] ==> v2.contains(j)) by {
            assert forall|j: int| grid_adjacent(i, j, bw, bh) && bm[j] implies v2.contains(j) by {
                if visited[j] {
                    lemma_adjacent_sym(i, j, bw, bh);
                    assert(closed_at(bm, visited, j, bw, bh));
                }
            }
        }
    }
    assert forall|s: int| 0 <= s < bm.len() && bm[s] implies !#[trigger] connected_from(bm, bw, bh, s) by {
        if visited[s] {
            assert(v1.contains(s));
            assert(!v1.contains(c));
        } else {
            assert(v2.contains(s));
            assert(!v2.contains(start));
        }
    }
}

/// Build a continuous (4-connected) closed strand through every allowed cell of a
/// 2×2-block-aligned mask: seed each allowed block as a 4-cell loop, then splice the
/// loops together along a spanning tree of the allowed blocks, grown in Gilbert order.
/// `None` exactly when a dimension is odd or zero, when some 2×2 block is only partly
/// allowed, or when the allowed blocks do not form one connected, non-empty region.
#[verifier::rlimit(80)]
pub fn spanning_curve<F: Fn(u32, u32) -> bool>(width: u32, height: u32, allowed: F) -> (r: Option<
    Vec<(u32, u32)>,
>)
    requires
        forall|x: u32, y: u32| allowed.requires((x, y)),
        width <= coord_bound(),
        height <= coord_bound(),
        width * height <= u32::MAX,
    ensures
        (width % 2 != 0 || height % 2 != 0) ==> r.is_none(),
        width % 2 == 0 && height % 2 == 0 ==> exists|m: Seq<bool>|
            {
                &&& #[trigger] reads_mask(allowed, m, width as int, height as int)
                &&& (r is Some <==> strand_possible(m, width as int, height as int))
                &&& (r matches Some(o) ==> strand_ok(o@, m, width as int, height as int))
            },
{
    if width % 2 != 0 || height % 2 != 0 {
        return None;
    }
    let w = width as usize;
    let h = height as usize;
    let n = w * h;
    let mut mask: Vec<bool> = Vec::new();
    let mut i: usize = 0;
    while i < n
        invariant
            forall|x: u32, y: u32| allowed.requires((x, y)),
            n == w * h,
            w == width,
            h == height,
            n <= u32::MAX,
            i <= n,
            mask@.len() == i,
            forall|k: int|
                0 <= k < i ==> allowed.ensures(
                    ((k % width as int) as u32, (k / width as int) as u32),
                    #[trigger] mask@[k],
                ),
        decreases n - i,
    {
        proof {
            lemma_divmod_cell(i as int, w as int, h as int);
        }
        let a = allowed((i % w) as u32, (i / w) as u32);
        mask.push(a);
        i = i + 1;
    }
    let ghost m = mask@;
    assert(forall|k: int|
        0 <= k < m.len() ==> allowed.ensures(
            ((k % width as int) as u32, (k / width as int) as u32),
            #[trigger] m[k],
        ));
    proof {
        assert(reads_mask(allowed, m, width as int, height as int));
    }
    if w == 0 || h == 0 {
        return None;
    }
    let bw = w / 2;
    let bh = h / 2;
    proof {
        assert(4 * (bw * bh) == n) by (nonlinear_arith)
            requires
                bw == w / 2,
                bh == h / 2,
                w % 2 == 0,
                h % 2 == 0,
                n == w * h,
        ;
    }
    let nb = bw * bh;
    let mut ballowed: Vec<bool> = Vec::new();
    let mut count: usize = 0;
    let mut b: usize = 0;
    while b < nb
        invariant
            mask@ == m,
            reads_mask(allowed, m, width as int, height as int),
            w == width,
            h == height,
            m.len() == n,
            n == w * h,
            n <= u32::MAX,
            w % 2 == 0,
            h % 2 == 0,
            w > 0,
            h > 0,
            bw == w / 2,
            bh == h / 2,
            nb == bw * bh,
            nb <= n,
            b <= nb,
            ballowed@.len() == b,
            count == count_true(ballowed@),
            count <= b,
            forall|k: int| 0 <= k < b ==> #[trigger] ballowed@[k] == m[block_tl(k, w as int)],
            forall|k: int|
                #![trigger block_tl(k, w as int)]
                0 <= k < b ==> {
                    let t = block_tl(k, w as int);
                    &&& m[t] == m[t + 1]
                    &&& m[t] == m[t + w]
                    &&& m[t] == m[t + w + 1]
                },
        decreases nb - b,
    {
        proof {
            lemma_divmod_cell(b as int, bw as int, bh as int);
        }
        let bx = b % bw;
        let by = b / bw;
        let tl = cell(2 * bx, 2 * by, w, h);
        let tr = cell(2 * bx + 1, 2 * by, w, h);
        let bl = cell(2 * bx, 2 * by + 1, w, h);
        let br = cell(2 * bx + 1, 2 * by + 1, w, h);
        proof {
            assert((2 * by + 1) * w == (2 * by) * w + w) by (nonlinear_arith);
            assert(tl == block_tl(b as int, w as int));
        }
        let cnt = (if mask[tl] {
            1usize
        } else {
            0
        }) + (if mask[tr] {
            1usize
        } else {
            0
        }) + (if mask[bl] {
            1usize
        } else {
            0
        }) + (if mask[br] {
            1usize
        } else {
            0
        });
        let ghost before = ballowed@;
        if cnt == 4 {
            ballowed.push(true);
            count = count + 1;
        } else if cnt == 0 {
            ballowed.push(false);
        } else {
            proof {
                assert(!block_aligned(m, w as int, h as int)) by {
                    if block_aligned(m, w as int, h as int) {
                        assert(0 <= b < (w as int / 2) * (h as int / 2));
                        let t = block_tl(b as int, w as int);
                        assert(m[t] == m[t + 1] && m[t] == m[t + w] && m[t] == m[t + w + 1]);
                    }
                }
            }
            return None;
        }
        proof {
            assert(ballowed@.drop_last() =~= before);
        }
        b = b + 1;
    }
    let ghost bm = ballowed@;
    proof {
        assert(bm =~= block_mask(m, w as int, h as int));
        assert(block_aligned(m, w as int, h as int));
        assert(bw <= coord_bound() && bh <= coord_bound());
    }
    let gb = Gilbert::new(bw as u32, bh as u32);
    let glen = gb.len();
    let mut order_blocks: Vec<usize> = Vec::new();
    let mut i: usize = 0;
    while i < glen
        invariant
            glen == gb.order().len(),
            nb <= n,
            n <= u32::MAX,
            gb.width_spec() == bw,
            gb.height_spec() == bh,
            bm == ballowed@,
            bm.len() == nb,
            nb == bw * bh,
            i <= glen,
            forall|k: int|
                0 <= k < order_blocks@.len() ==> #[trigger] order_blocks@[k] < nb && bm[order_blocks@[
                    k] as int],
            order_blocks@.len() == 0 ==> forall|k: int|
                0 <= k < i ==> !bm[(#[trigger] gb.order()[k]).1 as int * bw + gb.order()[k].0 as int],
        decreases glen - i,
    {
        let (x, y) = gb.d_to_xy(i);
        let blk = cell(x as usize, y as usize, bw, bh);
        if ballowed[blk] {
            order_blocks.push(blk);
        }
        i = i + 1;
    }
    if order_blocks.len() == 0 {
        proof {
            assert forall|s2: int| 0 <= s2 < bm.len() implies !bm[s2] by {
                if bm[s2] {
                    lemma_divmod_cell(s2, bw as int, bh as int);
                    let sx = s2 % (bw as int);
                    let sy = s2 / (bw as int);
                    lemma_gilbert_covers(bw as int, bh as int, sx, sy);
                    let d = choose|d: int|
                        0 <= d < gilbert_spec(bw as int, bh as int).len() && #[trigger] gilbert_spec(
                            bw as int,
                            bh as int,
                        )[d] == (sx, sy);
                    assert(gb.order()[d] == (sx as u32, sy as u32));
                    assert(!bm[(gb.order()[d]).1 as int * bw + gb.order()[d].0 as int]);
                }
            }
            assert(!strand_possible(m, w as int, h as int));
        }
        return None;
    }
    let start = order_blocks[0];
    let mut grank: Vec<usize> = Vec::new();
    let mut k: usize = 0;
    while k < nb
        invariant
            k <= nb,
            grank@.len() == k,
        decreases nb - k,
    {
        grank.push(usize::MAX);
        k = k + 1;
    }
    let mut j: usize = 0;
    while j < order_blocks.len()
        invariant
            grank@.len() == nb,
            j <= order_blocks@.len(),
            forall|k: int|
                0 <= k < order_blocks@.len() ==> #[trigger] order_blocks@[k] < nb && bm[order_blocks@[
                    k] as int],
        decreases order_blocks@.len() - j,
    {
        let blk = order_blocks[j];
        grank.set(blk, j);
        j = j + 1;
    }
    proof {
        assert(bw > 0);
    }
    let (visited, tree) = spanning_tree(&ballowed, bw, bh, start, &grank);
    proof {
        assert(in_tree(tree@, start as int, tree@.len() as int, start as int));
        assert(visited@[start as int]);
    }
    let mut c: usize = 0;
    while c < nb
        invariant
            c <= nb,
            bm == ballowed@,
            bm.len() == nb,
            visited@.len() == nb,
            forall|k: int| 0 <= k < c && bm[k] ==> visited@[k],
            bw > 0,
            nb == bw * bh,
            bw == w / 2,
            bh == h / 2,
            w % 2 == 0,
            h % 2 == 0,
            w > 0,
            h > 0,
            start < nb,
            visited@[start as int],
            forall|i: int| 0 <= i < visited@.len() && #[trigger] visited@[i] ==> bm[i],
            forall|i: int|
                0 <= i < visited@.len() && #[trigger] visited@[i] ==> closed_at(
                    bm,
                    visited@,
                    i,
                    bw as int,
                    bh as int,
                ),
            bm =~= block_mask(m, w as int, h as int),
            reads_mask(allowed, m, width as int, height as int),
            w == width,
            h == height,
        decreases nb - c,
    {
        if ballowed[c] && !visited[c] {
            proof {
                lemma_not_connected(bm, visited@, bw as int, bh as int, start as int, c as int);
                assert(!strand_possible(m, w as int, h as int));
            }
            return None;
        }
        c = c + 1;
    }
    proof {
        let bwi = bw as int;
        let bhi = bh as int;
        assert forall|s: Set<int>|
            #[trigger] closed_region(bm, bwi, bhi, s) && s.contains(start as int) implies forall|
                k: int,
            | 0 <= k < bm.len() && bm[k] ==> s.contains(k) by {
            assert forall|k: int| 0 <= k < bm.len() && bm[k] implies s.contains(k) by {
                assert(visited@[k]);
            }
        }
        assert(connected_from(bm, bwi, bhi, start as int));
    }
    proof {
        assert(visited@ =~= bm);
        assert forall|b2: int| 0 <= b2 < nb implies (#[trigger] bm[b2] <==> in_tree(
            tree@,
            start as int,
            tree@.len() as int,
            b2,
        )) by {
            assert(visited@[b2] == bm[b2]);
        }
        assert(count_true(visited@) == count_true(bm));
    }
    let r = link_and_walk(&ballowed, w, h, start, &tree, count, Ghost(m));
    proof {
        assert(strand_possible(m, w as int, h as int));
        if r is Some {
            let o = r->0@;
            assert(strand_ok(o, m, w as int, h as int));
        }
    }
    r
}

} // verus!
