use mullion::spacefill::{gilbert_cells, gilbert_d2xy, region_feasibility, spanning_curve, strictly_continuous, Gilbert};

use std::collections::HashSet;

/// Every cell of a `w×h` grid is visited exactly once; every step is at most a
/// diagonal (8-connected, never a real gap); and steps are strictly unit moves
/// (4-connected) exactly when the dimensions share parity — the parity theorem.
fn assert_valid(w: u32, h: u32) {
    let cells = gilbert_cells(w, h);
    assert_eq!(cells.len(), (w * h) as usize, "coverage count {w}×{h}");
    let set: HashSet<_> = cells.iter().copied().collect();
    assert_eq!(set.len(), cells.len(), "no repeats {w}×{h}");
    for &(x, y) in &cells {
        assert!(x < w && y < h, "in bounds {w}×{h}");
    }
    let mut diagonals = 0;
    for pair in cells.windows(2) {
        let (a, b) = (pair[0], pair[1]);
        let (dx, dy) = (a.0.abs_diff(b.0), a.1.abs_diff(b.1));
        assert!(
            dx.max(dy) == 1,
            "8-connected {w}×{h} between {a:?} and {b:?}"
        );
        if dx + dy != 1 {
            diagonals += 1;
        }
    }
    if strictly_continuous(w, h) {
        assert_eq!(
            diagonals, 0,
            "same-parity {w}×{h} must be strictly 4-continuous"
        );
    }
}

#[test]
fn covers_and_is_connected_for_many_shapes() {
    for w in 1..=40u32 {
        for h in 1..=40u32 {
            assert_valid(w, h);
        }
    }
}

#[test]
fn parity_theorem_same_parity_is_strictly_continuous() {
    // Exhaustive within a range: same-parity ⇒ zero diagonals, always.
    for w in 1..=48u32 {
        for h in 1..=48u32 {
            if !strictly_continuous(w, h) {
                continue;
            }
            let cells = gilbert_cells(w, h);
            for pair in cells.windows(2) {
                let (a, b) = (pair[0], pair[1]);
                assert_eq!(
                    a.0.abs_diff(b.0) + a.1.abs_diff(b.1),
                    1,
                    "same-parity {w}×{h} diagonal at {a:?}->{b:?}"
                );
            }
        }
    }
}

#[test]
fn power_of_two_square_is_valid() {
    for order in 1..=7u32 {
        assert_valid(1 << order, 1 << order);
    }
}

#[test]
fn direct_d2xy_agrees_with_enumeration() {
    // The O(log) point resolver must match the enumerated order for every cell.
    for w in 1..=33u32 {
        for h in 1..=33u32 {
            let cells = gilbert_cells(w, h);
            for (d, &xy) in cells.iter().enumerate() {
                assert_eq!(gilbert_d2xy(w, h, d as u64), xy, "d2xy {w}×{h} d={d}");
            }
        }
    }
}

#[test]
fn struct_round_trips_both_directions() {
    let g = Gilbert::new(23, 17);
    assert_eq!(g.len(), 23 * 17);
    for d in 0..g.len() {
        let (x, y) = g.d_to_xy(d);
        assert_eq!(g.xy_to_d(x, y), Some(d as u32), "round trip d={d}");
    }
    assert_eq!(g.xy_to_d(23, 0), None, "off-grid x");
    assert_eq!(g.xy_to_d(0, 17), None, "off-grid y");
}

#[test]
fn contiguous_runs_stay_compact() {
    // The locality property that matters: a contiguous slice of the line occupies a
    // bounding box whose area is within a small constant of the slice length — i.e.
    // it reads as a blob, not a scattered spray. (A random Hamiltonian snake fails
    // this badly.) 8 is a generous ceiling; Hilbert-family curves sit well under it.
    let (w, h) = (64u32, 64u32);
    let g = Gilbert::new(w, h);
    for &len in &[16usize, 64, 256, 1024] {
        for &start in &[0usize, 777, 2048, 3000] {
            if start + len > g.len() {
                continue;
            }
            let (mut minx, mut miny, mut maxx, mut maxy) = (u32::MAX, u32::MAX, 0, 0);
            for d in start..start + len {
                let (x, y) = g.d_to_xy(d);
                minx = minx.min(x);
                miny = miny.min(y);
                maxx = maxx.max(x);
                maxy = maxy.max(y);
            }
            let bbox = ((maxx - minx + 1) * (maxy - miny + 1)) as usize;
            assert!(bbox <= 8 * len, "run start={start} len={len} bbox={bbox}");
        }
    }
}

#[test]
fn masked_order_excludes_holes_and_keeps_locality() {
    // Holes of arbitrary shape: forbid a central rectangle plus a scattered set.
    let (w, h) = (48u32, 48u32);
    let g = Gilbert::new(w, h);
    let forbidden = |x: u32, y: u32| {
        let central = (18..30).contains(&x) && (18..30).contains(&y);
        let scatter = (x * 7 + y * 13) % 11 == 0; // pseudo-scattershot exclusions
        central || scatter
    };
    let allowed = |x: u32, y: u32| !forbidden(x, y);
    let order = g.masked_order(allowed);

    // Length is exactly the allowed-cell count, and no forbidden cell appears.
    let allowed_count =
        (0..w * h).filter(|&i| allowed(i % w, i / w)).count();
    assert_eq!(order.len(), allowed_count, "line length == allowed area");
    assert!(order.iter().all(|&(x, y)| allowed(x, y)), "no hole in the line");
    // The filtered order is a subsequence of the full order (locality inherited).
    let full = g.cells();
    let mut fi = 0usize;
    for &c in &order {
        while full[fi] != c {
            fi += 1;
        }
        fi += 1;
    }

    // A contiguous slice of the *masked* line still lands as a compact blob.
    for &(start, len) in &[(0usize, 200usize), (500, 200), (1000, 300)] {
        if start + len > order.len() {
            continue;
        }
        let (mut minx, mut miny, mut maxx, mut maxy) = (u32::MAX, u32::MAX, 0, 0);
        for &(x, y) in &order[start..start + len] {
            minx = minx.min(x);
            miny = miny.min(y);
            maxx = maxx.max(x);
            maxy = maxy.max(y);
        }
        let bbox = ((maxx - minx + 1) * (maxy - miny + 1)) as usize;
        assert!(bbox <= 10 * len, "masked run start={start} len={len} bbox={bbox}");
    }
}

#[test]
fn feasibility_gate_reads_connectivity_and_parity() {
    // Full even×even grid: balanced and connected → a closed tour is possible.
    let f = region_feasibility(8, 8, |_, _| true);
    assert!(f.connected && f.color_balance == 0 && f.cycle_possible);

    // Full odd-area grid (7×7 = 49): imbalance 1 → path yes, cycle no.
    let f = region_feasibility(7, 7, |_, _| true);
    assert_eq!(f.color_balance.abs(), 1);
    assert!(f.path_possible && !f.cycle_possible);

    // A balanced 2×2 hole anywhere leaves the balance at 0 (holes may bob freely).
    for (hx, hy) in [(0u32, 0u32), (2, 4), (6, 6)] {
        let f = region_feasibility(8, 8, |x, y| {
            !((hx..hx + 2).contains(&x) && (hy..hy + 2).contains(&y))
        });
        assert_eq!(f.color_balance, 0, "2×2 hole at ({hx},{hy}) stays balanced");
        assert!(f.cycle_possible);
    }

    // A single-cell hole unbalances by 1 → no closed tour, but a path still can.
    let f = region_feasibility(8, 8, |x, y| !(x == 3 && y == 3));
    assert_eq!(f.color_balance.abs(), 1);
    assert!(f.path_possible && !f.cycle_possible);

    // Two separated allowed patches → disconnected → no single strand at all.
    let f = region_feasibility(8, 8, |x, _y| x < 3 || x > 4);
    // (a full-height gap at columns 3..=4 splits the region in two)
    assert!(!f.connected && !f.path_possible);
}

/// A `spanning_curve` result must visit every allowed cell once, in unit steps, and
/// close back on itself (a genuine continuous Hamiltonian cycle).
fn assert_continuous_cycle(w: u32, h: u32, order: &[(u32, u32)], allowed: impl Fn(u32, u32) -> bool) {
    let expect = (0..w * h).filter(|&i| allowed(i % w, i / w)).count();
    assert_eq!(order.len(), expect, "covers every allowed cell once");
    let set: HashSet<_> = order.iter().copied().collect();
    assert_eq!(set.len(), order.len(), "no repeats");
    assert!(order.iter().all(|&(x, y)| allowed(x, y)), "never enters a hole");
    for i in 0..order.len() {
        let a = order[i];
        let b = order[(i + 1) % order.len()]; // wrap → checks closure too
        assert_eq!(a.0.abs_diff(b.0) + a.1.abs_diff(b.1), 1, "unit step {a:?}->{b:?}");
    }
}

#[test]
fn spanning_curve_is_a_continuous_cycle_over_holes() {
    // Solid even grid.
    let all = |_: u32, _: u32| true;
    let c = spanning_curve(16, 16, all).expect("solid grid");
    assert_continuous_cycle(16, 16, &c, all);

    // A single 2×2-aligned hole.
    let hole1 = |x: u32, y: u32| !((6..8).contains(&x) && (6..8).contains(&y));
    let c = spanning_curve(16, 16, hole1).expect("one hole");
    assert_continuous_cycle(16, 16, &c, hole1);

    // Several holes of different even sizes and positions (all block-aligned).
    let holes = |x: u32, y: u32| {
        let a = (2..6).contains(&x) && (2..4).contains(&y); // 4×2
        let b = (10..14).contains(&x) && (10..16).contains(&y); // 4×6
        let d = (14..16).contains(&x) && (2..4).contains(&y); // 2×2
        !(a || b || d)
    };
    let c = spanning_curve(20, 20, holes).expect("multi holes");
    assert_continuous_cycle(20, 20, &c, holes);

    // Inverse mask (mostly forbidden, a connected allowed patch).
    let patch = |x: u32, y: u32| (4..12).contains(&x) && (4..12).contains(&y);
    let c = spanning_curve(20, 20, patch).expect("patch");
    assert_continuous_cycle(20, 20, &c, patch);
}

#[test]
fn spanning_curve_rejects_infeasible_masks() {
    // Odd dimension.
    assert!(spanning_curve(15, 16, |_, _| true).is_none());
    // Not 2×2-aligned: a single-cell hole splits a block.
    assert!(spanning_curve(16, 16, |x, y| !(x == 5 && y == 5)).is_none());
    // Disconnected allowed blocks (a full-height forbidden channel, block-aligned).
    assert!(spanning_curve(16, 16, |x, _y| !(8..10).contains(&x)).is_none());
}

#[test]
fn spanning_curve_needs_an_allowed_block() {
    assert!(spanning_curve(4, 4, |_, _| false).is_none());
    assert!(spanning_curve(0, 0, |_, _| true).is_none());
}

#[test]
fn spanning_curve_single_block_is_its_seed_loop() {
    let c = spanning_curve(2, 2, |_, _| true).expect("one block");
    assert_eq!(c, vec![(0, 0), (1, 0), (1, 1), (0, 1)]);
}

#[test]
fn spanning_curve_thin_corridor_is_one_cycle() {
    // A one-block-wide L-shaped corridor: every allowed block is connected.
    let corridor = |x: u32, y: u32| x < 2 || y >= 8;
    let c = spanning_curve(10, 10, corridor).expect("connected corridor");
    let allowed = (0..10u32).flat_map(|y| (0..10u32).map(move |x| (x, y))).filter(|&(x, y)| corridor(x, y)).count();
    assert_eq!(c.len(), allowed);
    for k in 0..c.len() {
        let (a, b) = (c[k], c[(k + 1) % c.len()]);
        assert_eq!(a.0.abs_diff(b.0) + a.1.abs_diff(b.1), 1);
    }
}

#[test]
fn d2xy_handles_long_thin_grids() {
    assert_eq!(gilbert_d2xy(1 << 29, 1, 12345), (12345, 0));
    assert_eq!(gilbert_d2xy(1, 1 << 29, 777), (0, 777));
    assert_eq!(gilbert_d2xy(1 << 29, 2, 0), (0, 0));
}
