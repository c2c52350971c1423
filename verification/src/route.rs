use vstd::prelude::*;

use std::collections::{HashMap, HashSet};

use crate::border::{
    grid_after, lemma_grid_after_empty, lemma_grid_after_line, lemma_grid_after_trans, ops_cell, LineOp, LineWeight,
};
use crate::buffer::{append_char, put_grapheme, Buffer, CellView};
use crate::geometry::{Direction, Rect};
use crate::junction::{bare_cell, h_line_effect, in_area, resolve, resolve_spec, v_line_effect, EdgeGrid};
use crate::style::{plain_style, Style};

verus! {

broadcast use vstd::std_specs::hash::group_hash_axioms;

/// The key of cell `c` in a set of cells: its column times 65536 plus its row.
pub open spec fn ck(c: (u16, u16)) -> u32 {
    (c.0 * 65536 + c.1) as u32
}

/// The key of cell `c` in a set of cells.
pub fn cell_key(c: (u16, u16)) -> (k: u32)
    ensures
        k == ck(c),
{
    c.0 as u32 * 65536 + c.1 as u32
}

/// `a` and `b` are 4-adjacent.
pub open spec fn unit_step(a: (u16, u16), b: (u16, u16)) -> bool {
    let dx = if a.0 >= b.0 {
        a.0 - b.0
    } else {
        b.0 - a.0
    };
    let dy = if a.1 >= b.1 {
        a.1 - b.1
    } else {
        b.1 - a.1
    };
    dx + dy == 1
}

/// The edge between adjacent cells `a` and `b`, normalised: the upper-left cell and
/// an axis flag, 0 horizontal and 1 vertical.
pub open spec fn edge_of(a: (u16, u16), b: (u16, u16)) -> (u16, u16, u8) {
    if a.1 == b.1 {
        (if a.0 <= b.0 {
            a.0
        } else {
            b.0
        }, a.1, 0u8)
    } else {
        (a.0, if a.1 <= b.1 {
            a.1
        } else {
            b.1
        }, 1u8)
    }
}

/// The key of an edge in a set of edges.
pub open spec fn ek(e: (u16, u16, u8)) -> u64 {
    (e.0 * 131072 + e.1 * 2 + e.2) as u64
}

/// The key of the edge between `a` and `b`.
fn edge_key(a: (u16, u16), b: (u16, u16)) -> (k: u64)
    requires
        unit_step(a, b),
    ensures
        k == ek(edge_of(a, b)),
{
    let (ex, ey, axis) = if a.1 == b.1 {
        (if a.0 <= b.0 {
            a.0
        } else {
            b.0
        }, a.1, 0u8)
    } else {
        (a.0, if a.1 <= b.1 {
            a.1
        } else {
            b.1
        }, 1u8)
    };
    ex as u64 * 131072 + ey as u64 * 2 + axis as u64
}

/// `p` is a route from `start` to `goal` through the cells `free` holds: every
/// consecutive pair a unit step, none along an edge `taken` holds.
pub open spec fn valid_route(free: Set<u32>, taken: Set<u64>, start: (u16, u16), goal: (u16, u16), p: Seq<(u16, u16)>) -> bool {
    &&& p.len() >= 1
    &&& p[0] == start
    &&& p.last() == goal
    &&& forall|i: int| 0 <= i < p.len() ==> free.contains(ck(#[trigger] p[i]))
    &&& forall|i: int|
        0 <= i < p.len() - 1 ==> unit_step(#[trigger] p[i], p[i + 1]) && !taken.contains(
            ek(edge_of(p[i], p[i + 1])),
        )
}

/// The cells of a path, by key.
pub open spec fn path_cells(p: Seq<(u16, u16)>) -> Set<u32> {
    Set::new(|k: u32| exists|i: int| 0 <= i < p.len() && k == ck(#[trigger] p[i]))
}

/// The edges of a path.
pub open spec fn path_edges(p: Seq<(u16, u16)>) -> Set<u64> {
    Set::new(|k: u64| exists|i: int| 0 <= i < p.len() - 1 && k == ek(edge_of(#[trigger] p[i], p[i + 1])))
}

/// The cells and edges already taken by routed wires: a wire may not run along a
/// taken edge, and entering a taken cell is a crossing.
struct Occupancy {
    edges: HashSet<u64>,
    cells: HashSet<u32>,
}

/// The search state of cell `c` entered moving in direction code `d` (0 at the start).
pub open spec fn sk(c: (u16, u16), d: u8) -> u64 {
    (ck(c) * 8 + d) as u64
}

proof fn lemma_sk_injective(a: (u16, u16), da: u8, b: (u16, u16), db: u8)
    requires
        da < 8,
        db < 8,
        sk(a, da) == sk(b, db),
    ensures
        a == b,
        da == db,
{
    assert(a.0 == b.0 && a.1 == b.1 && da == db) by (nonlinear_arith)
        requires
            (a.0 * 65536 + a.1) * 8 + da == (b.0 * 65536 + b.1) * 8 + db,
            0 <= da < 8,
            0 <= db < 8,
            0 <= a.1 < 65536,
            0 <= b.1 < 65536,
            0 <= a.0 < 65536,
            0 <= b.0 < 65536,
    ;
}

/// The direction code of a move.
pub open spec fn dcode(d: Direction) -> u8 {
    match d {
        Direction::Up => 1,
        Direction::Down => 2,
        Direction::Left => 3,
        Direction::Right => 4,
    }
}

/// What the search knows of its states: each recorded state has a cell the search may
/// visit, and each state but the start was reached by a step from a closed state of
/// lower cost, along an edge not taken.
#[verifier::opaque]
spec fn search_ok(
    free: Set<u32>,
    taken: Set<u64>,
    start: (u16, u16),
    g: Map<u64, u128>,
    came: Map<u64, u64>,
    info: Map<u64, (u16, u16, u8)>,
    closed: Set<u64>,
) -> bool {
    &&& g.contains_key(sk(start, 0))
    &&& !came.contains_key(sk(start, 0))
    &&& info.contains_key(sk(start, 0)) && info[sk(start, 0)] == (start.0, start.1, 0u8)
    &&& forall|k: u64|
        #[trigger] g.contains_key(k) ==> info.contains_key(k) && info[k].2 <= 4 && sk(
            (info[k].0, info[k].1),
            info[k].2,
        ) == k && free.contains(ck((info[k].0, info[k].1))) && (k == sk(start, 0) || came.contains_key(k))
    &&& forall|k: u64|
        #[trigger] came.contains_key(k) ==> g.contains_key(k) && g.contains_key(came[k]) && closed.contains(came[k])
            && g[came[k]] < g[k] && unit_step(
            (info[came[k]].0, info[came[k]].1),
            (info[k].0, info[k].1),
        ) && !taken.contains(ek(edge_of((info[came[k]].0, info[came[k]].1), (info[k].0, info[k].1))))
}

/// The start state is recorded, at the start cell with no direction.
proof fn lemma_start(
    free: Set<u32>,
    taken: Set<u64>,
    start: (u16, u16),
    g: Map<u64, u128>,
    came: Map<u64, u64>,
    info: Map<u64, (u16, u16, u8)>,
    closed: Set<u64>,
)
    requires
        search_ok(free, taken, start, g, came, info, closed),
    ensures
        g.contains_key(sk(start, 0)),
        info.contains_key(sk(start, 0)),
        info[sk(start, 0)] == (start.0, start.1, 0u8),
{
    reveal(search_ok);
}

/// One recorded state of a search, as [`search_ok`] says.
proof fn lemma_state(
    free: Set<u32>,
    taken: Set<u64>,
    start: (u16, u16),
    g: Map<u64, u128>,
    came: Map<u64, u64>,
    info: Map<u64, (u16, u16, u8)>,
    closed: Set<u64>,
    k: u64,
)
    requires
        search_ok(free, taken, start, g, came, info, closed),
        g.contains_key(k),
    ensures
        info.contains_key(k),
        info[k].2 <= 4,
        sk((info[k].0, info[k].1), info[k].2) == k,
        free.contains(ck((info[k].0, info[k].1))),
        k == sk(start, 0) || came.contains_key(k),
        k == sk(start, 0) ==> info[k] == (start.0, start.1, 0u8),
        came.contains_key(k) ==> {
            &&& g.contains_key(came[k])
            &&& closed.contains(came[k])
            &&& g[came[k]] < g[k]
            &&& unit_step((info[came[k]].0, info[came[k]].1), (info[k].0, info[k].1))
            &&& !taken.contains(ek(edge_of((info[came[k]].0, info[came[k]].1), (info[k].0, info[k].1))))
        },
{
    reveal(search_ok);
}

/// Walk back from state `s` to the start along the recorded steps, returning the
/// cells in forward order.
#[verifier::rlimit(60)]
#[verifier::spinoff_prover]
fn reconstruct(
    came: &HashMap<u64, u64>,
    g: &HashMap<u64, u128>,
    info: &HashMap<u64, (u16, u16, u8)>,
    s: u64,
    start: (u16, u16),
    Ghost(free): Ghost<Set<u32>>,
    Ghost(taken): Ghost<Set<u64>>,
    Ghost(closed): Ghost<Set<u64>>,
    Ghost(bend): Ghost<int>,
    Ghost(cross): Ghost<int>,
    Ghost(cells): Ghost<Set<u32>>,
) -> (p: Vec<(u16, u16)>)
    requires
        search_ok(free, taken, start, g@, came@, info@, closed),
        came_exact(g@, came@, info@, bend, cross, cells),
        bend >= 0,
        cross >= 0,
        g@.contains_key(s),
    ensures
        p@.len() >= 1,
        p@[0] == start,
        p@.last() == (info@[s].0, info@[s].1),
        forall|i: int| 0 <= i < p@.len() ==> free.contains(ck(#[trigger] p@[i])),
        forall|i: int|
            0 <= i < p@.len() - 1 ==> unit_step(#[trigger] p@[i], p@[i + 1]) && !taken.contains(
                ek(edge_of(p@[i], p@[i + 1])),
            ),
        route_cost(p@, bend, cross, cells) <= g@[s],
{
    proof {
        lemma_state(free, taken, start, g@, came@, info@, closed, s);
    }
    let mut rev: Vec<(u16, u16)> = Vec::new();
    let mut cur = s;
    let mut c = *info.get(&cur).unwrap();
    rev.push((c.0, c.1));
    let ghost mut chain: Seq<u64> = seq![s];
    while !(c.0 == start.0 && c.1 == start.1)
        invariant
            c == info@[cur],
            search_ok(free, taken, start, g@, came@, info@, closed),
            g@.contains_key(cur),
            rev@.len() >= 1,
            rev@[0] == (info@[s].0, info@[s].1),
            rev@.last() == (info@[cur].0, info@[cur].1),
            forall|i: int| 0 <= i < rev@.len() ==> free.contains(ck(#[trigger] rev@[i])),
            forall|i: int|
                0 <= i < rev@.len() - 1 ==> unit_step(#[trigger] rev@[i + 1], rev@[i]) && !taken.contains(
                    ek(edge_of(rev@[i + 1], rev@[i])),
                ),
            chain.len() == rev@.len(),
            chain[0] == s,
            chain[chain.len() - 1] == cur,
            forall|i: int|
                0 <= i < chain.len() ==> g@.contains_key(#[trigger] chain[i]) && info@.contains_key(chain[i])
                    && rev@[i] == (info@[chain[i]].0, info@[chain[i]].1),
            forall|i: int|
                #![trigger came@.contains_key(chain[i])]
                0 <= i < chain.len() - 1 ==> came@.contains_key(chain[i]) && came@[chain[i]] == chain[i + 1],
        decreases g@[cur],
    {
        proof {
            lemma_state(free, taken, start, g@, came@, info@, closed, cur);
        }
        let p = *came.get(&cur).unwrap();
        proof {
            lemma_state(free, taken, start, g@, came@, info@, closed, p);
        }
        let pc = *info.get(&p).unwrap();
        let ghost old_rev = rev@;
        let ghost old_chain = chain;
        rev.push((pc.0, pc.1));
        proof {
            chain = chain.push(p);
            assert forall|i: int| 0 <= i < rev@.len() - 1 implies unit_step(#[trigger] rev@[i + 1], rev@[i])
                && !taken.contains(ek(edge_of(rev@[i + 1], rev@[i]))) by {
                if i < old_rev.len() - 1 {
                    assert(rev@[i] == old_rev[i] && rev@[i + 1] == old_rev[i + 1]);
                }
            }
            assert forall|i: int| 0 <= i < chain.len() implies g@.contains_key(#[trigger] chain[i])
                && info@.contains_key(chain[i]) && rev@[i] == (info@[chain[i]].0, info@[chain[i]].1) by {
                if i < old_chain.len() {
                    assert(chain[i] == old_chain[i] && rev@[i] == old_rev[i]);
                }
            }
            assert forall|i: int|
                #![trigger came@.contains_key(chain[i])]
                0 <= i < chain.len() - 1 implies came@.contains_key(chain[i]) && came@[chain[i]] == chain[i + 1] by {
                if i < old_chain.len() - 1 {
                    assert(chain[i] == old_chain[i] && chain[i + 1] == old_chain[i + 1]);
                    assert(came@.contains_key(old_chain[i]));
                } else {
                    assert(chain[i] == cur && chain[i + 1] == p);
                }
            }
        }
        cur = p;
        c = pc;
    }
    let mut out: Vec<(u16, u16)> = Vec::new();
    let n = rev.len();
    let mut i: usize = 0;
    while i < n
        invariant
            n == rev@.len(),
            n >= 1,
            i <= n,
            out@.len() == i,
            forall|j: int| 0 <= j < i ==> #[trigger] out@[j] == rev@[n - 1 - j],
        decreases n - i,
    {
        out.push(rev[n - 1 - i]);
        i = i + 1;
    }
    proof {
        assert forall|j: int| 0 <= j < out@.len() implies free.contains(ck(#[trigger] out@[j])) by {
            assert(out@[j] == rev@[n - 1 - j]);
        }
        assert forall|j: int| 0 <= j < out@.len() - 1 implies unit_step(#[trigger] out@[j], out@[j + 1])
            && !taken.contains(ek(edge_of(out@[j], out@[j + 1]))) by {
            assert(out@[j] == rev@[n - 1 - j]);
            assert(out@[j + 1] == rev@[n - 2 - j]);
            assert(unit_step(rev@[(n - 2 - j) + 1], rev@[n - 2 - j]));
        }
        let st = Seq::new(n as nat, |j: int| chain[n - 1 - j]);
        assert forall|j: int| 0 <= j < st.len() implies g@.contains_key(#[trigger] st[j]) && info@.contains_key(st[j])
            && out@[j] == (info@[st[j]].0, info@[st[j]].1) by {
            assert(st[j] == chain[n - 1 - j]);
            assert(out@[j] == rev@[n - 1 - j]);
        }
        assert forall|j: int|
            #![trigger came@.contains_key(st[j])]
            1 <= j < st.len() implies came@.contains_key(st[j]) && came@[st[j]] == st[j - 1] by {
            assert(st[j] == chain[n - 1 - j]);
            assert(st[j - 1] == chain[(n - 1 - j) + 1]);
            assert(came@.contains_key(chain[n - 1 - j]));
        }
        lemma_chain_cost(out@, st, g@, came@, info@, bend, cross, cells, n - 1);
        assert(st[n - 1] == s);
    }
    out
}

/// How the search records a step: the step into state `k` from `came[k]` is in the
/// direction `k` records, and costs what the step costs.
spec fn came_exact(
    g: Map<u64, u128>,
    came: Map<u64, u64>,
    info: Map<u64, (u16, u16, u8)>,
    bend: int,
    cross: int,
    cells: Set<u32>,
) -> bool {
    forall|k: u64|
        #[trigger] came.contains_key(k) ==> info.contains_key(k) && info.contains_key(came[k]) && g.contains_key(k)
            && g.contains_key(came[k]) && info[k].2 == step_code(
            (info[came[k]].0, info[came[k]].1),
            (info[k].0, info[k].1),
        ) && g[k] == g[came[k]] + step_cost(info[came[k]].2, info[k].2, (info[k].0, info[k].1), bend, cross, cells)
}

/// Along a chain of recorded steps the cells' walk costs at most the difference of
/// the recorded costs at its ends.
proof fn lemma_chain_cost(
    out: Seq<(u16, u16)>,
    st: Seq<u64>,
    g: Map<u64, u128>,
    came: Map<u64, u64>,
    info: Map<u64, (u16, u16, u8)>,
    bend: int,
    cross: int,
    cells: Set<u32>,
    j: int,
)
    requires
        came_exact(g, came, info, bend, cross, cells),
        bend >= 0,
        cross >= 0,
        st.len() == out.len(),
        0 <= j < out.len(),
        forall|i: int|
            0 <= i < st.len() ==> g.contains_key(#[trigger] st[i]) && info.contains_key(st[i]) && out[i] == (
            info[st[i]].0,
            info[st[i]].1,
            ),
        forall|i: int|
            #![trigger came.contains_key(st[i])]
            1 <= i < st.len() ==> came.contains_key(st[i]) && came[st[i]] == st[i - 1],
    ensures
        path_cost(out, j, bend, cross, cells) <= g[st[j]] - g[st[0]],
        j > 0 ==> dir_at(out, j) == info[st[j]].2,
    decreases j,
{
    if j > 0 {
        lemma_chain_cost(out, st, g, came, info, bend, cross, cells, j - 1);
        assert(came.contains_key(st[j]) && came[st[j]] == st[j - 1]);
        assert(g.contains_key(st[j - 1]));
        assert(out[j] == (info[st[j]].0, info[st[j]].1));
        assert(out[j - 1] == (info[st[j - 1]].0, info[st[j - 1]].1));
        assert(dir_at(out, j) == info[st[j]].2);
    }
}

proof fn lemma_init(free: Set<u32>, taken: Set<u64>, start: (u16, u16))
    requires
        free.contains(ck(start)),
    ensures
        search_ok(
            free,
            taken,
            start,
            Map::<u64, u128>::empty().insert(sk(start, 0), 0),
            Map::<u64, u64>::empty(),
            Map::<u64, (u16, u16, u8)>::empty().insert(sk(start, 0), (start.0, start.1, 0u8)),
            Set::<u64>::empty(),
        ),
{
    reveal(search_ok);
}

proof fn lemma_close(
    free: Set<u32>,
    taken: Set<u64>,
    start: (u16, u16),
    g: Map<u64, u128>,
    came: Map<u64, u64>,
    info: Map<u64, (u16, u16, u8)>,
    closed: Set<u64>,
    s: u64,
)
    requires
        search_ok(free, taken, start, g, came, info, closed),
    ensures
        search_ok(free, taken, start, g, came, info, closed.insert(s)),
{
    reveal(search_ok);
}

proof fn lemma_relax(
    free: Set<u32>,
    taken: Set<u64>,
    start: (u16, u16),
    g: Map<u64, u128>,
    came: Map<u64, u64>,
    info: Map<u64, (u16, u16, u8)>,
    closed: Set<u64>,
    s: u64,
    n: (u16, u16),
    dd: u8,
    ng: u128,
)
    requires
        search_ok(free, taken, start, g, came, info, closed),
        g.contains_key(s),
        closed.contains(s),
        g[s] < ng,
        1 <= dd <= 4,
        free.contains(ck(n)),
        unit_step((info[s].0, info[s].1), n),
        !taken.contains(ek(edge_of((info[s].0, info[s].1), n))),
        !closed.contains(sk(n, dd)),
        g.contains_key(sk(n, dd)) ==> ng < g[sk(n, dd)],
    ensures
        search_ok(
            free,
            taken,
            start,
            g.insert(sk(n, dd), ng),
            came.insert(sk(n, dd), s),
            info.insert(sk(n, dd), (n.0, n.1, dd)),
            closed,
        ),
        g.contains_key(sk(n, dd)) ==> info.insert(sk(n, dd), (n.0, n.1, dd)) == info,
{
    reveal(search_ok);
    let ns = sk(n, dd);
    if g.contains_key(ns) {
        lemma_sk_injective((info[ns].0, info[ns].1), info[ns].2, n, dd);
        assert(info.insert(ns, (n.0, n.1, dd)) =~= info);
    }
    if ns == sk(start, 0) {
        lemma_sk_injective(n, dd, start, 0);
    }
    let g2 = g.insert(ns, ng);
    let came2 = came.insert(ns, s);
    let info2 = info.insert(ns, (n.0, n.1, dd));
    assert forall|k: u64| #[trigger] came2.contains_key(k) implies g2.contains_key(k) && g2.contains_key(came2[k])
        && closed.contains(came2[k]) && g2[came2[k]] < g2[k] && unit_step(
        (info2[came2[k]].0, info2[came2[k]].1),
        (info2[k].0, info2[k].1),
    ) && !taken.contains(ek(edge_of((info2[came2[k]].0, info2[came2[k]].1), (info2[k].0, info2[k].1)))) by {
        if k != ns {
            assert(came2[k] == came[k]);
            assert(came[k] != ns);
        }
    }
}

/// The Manhattan distance between two cells.
pub open spec fn manhattan(a: (u16, u16), b: (u16, u16)) -> int {
    (if a.0 >= b.0 {
        a.0 - b.0
    } else {
        b.0 - a.0
    }) + (if a.1 >= b.1 {
        a.1 - b.1
    } else {
        b.1 - a.1
    })
}

fn manhattan_exec(a: (u16, u16), b: (u16, u16)) -> (r: u128)
    ensures
        r == manhattan(a, b),
{
    let dx: u128 = if a.0 >= b.0 {
        (a.0 - b.0) as u128
    } else {
        (b.0 - a.0) as u128
    };
    let dy: u128 = if a.1 >= b.1 {
        (a.1 - b.1) as u128
    } else {
        (b.1 - a.1) as u128
    };
    dx + dy
}

/// What orders the states to expand: estimated total cost, cost so far, column,
/// row, direction code.
pub open spec fn search_key(
    g: Map<u64, u128>,
    info: Map<u64, (u16, u16, u8)>,
    goal: (u16, u16),
    s: u64,
) -> (int, int, int, int, int) {
    (
        g[s] + manhattan((info[s].0, info[s].1), goal),
        g[s] as int,
        info[s].0 as int,
        info[s].1 as int,
        info[s].2 as int,
    )
}

/// `a` comes strictly before `b` in lexicographic order.
pub open spec fn key_less(a: (int, int, int, int, int), b: (int, int, int, int, int)) -> bool {
    a.0 < b.0 || (a.0 == b.0 && (a.1 < b.1 || (a.1 == b.1 && (a.2 < b.2 || (a.2 == b.2 && (a.3 < b.3
        || (a.3 == b.3 && a.4 < b.4)))))))
}

/// The position in `open` of the state to expand next: the lowest estimated total
/// cost, then the lowest cost so far, then the lowest column, row and direction code;
/// the first such position.
fn select_best(
    open: &Vec<u64>,
    g: &HashMap<u64, u128>,
    info: &HashMap<u64, (u16, u16, u8)>,
    goal: (u16, u16),
    Ghost(bound): Ghost<int>,
) -> (i: usize)
    requires
        open@.len() >= 1,
        forall|j: int| 0 <= j < open@.len() ==> g@.contains_key(#[trigger] open@[j]) && info@.contains_key(open@[j]),
        forall|k: u64| #[trigger] g@.contains_key(k) ==> g@[k] <= bound,
        bound <= 0x1_0000_0000_0000_0000_0000_0000_0000,
    ensures
        i < open@.len(),
        forall|j: int|
            0 <= j < open@.len() ==> !key_less(
                search_key(g@, info@, goal, #[trigger] open@[j]),
                search_key(g@, info@, goal, open@[i as int]),
            ),
        forall|j: int|
            0 <= j < i ==> key_less(
                search_key(g@, info@, goal, open@[i as int]),
                search_key(g@, info@, goal, #[trigger] open@[j]),
            ),
{
    let mut best: usize = 0;
    let mut j: usize = 1;
    while j < open.len()
        invariant
            1 <= j <= open@.len(),
            best < open@.len(),
            forall|q: int| 0 <= q < open@.len() ==> g@.contains_key(#[trigger] open@[q]) && info@.contains_key(open@[q]),
            forall|k: u64| #[trigger] g@.contains_key(k) ==> g@[k] <= bound,
            bound <= 0x1_0000_0000_0000_0000_0000_0000_0000,
            forall|q: int|
                0 <= q < j ==> !key_less(
                    search_key(g@, info@, goal, #[trigger] open@[q]),
                    search_key(g@, info@, goal, open@[best as int]),
                ),
            forall|q: int|
                0 <= q < best ==> key_less(
                    search_key(g@, info@, goal, open@[best as int]),
                    search_key(g@, info@, goal, #[trigger] open@[q]),
                ),
        decreases open@.len() - j,
    {
        let a = open[j];
        let b = open[best];
        let ga = *g.get(&a).unwrap();
        let gb = *g.get(&b).unwrap();
        let ia = *info.get(&a).unwrap();
        let ib = *info.get(&b).unwrap();
        let fa = ga + manhattan_exec((ia.0, ia.1), goal);
        let fb = gb + manhattan_exec((ib.0, ib.1), goal);
        let less = fa < fb || (fa == fb && (ga < gb || (ga == gb && (ia.0 < ib.0 || (ia.0 == ib.0 && (ia.1
            < ib.1 || (ia.1 == ib.1 && ia.2 < ib.2)))))));
        if less {
            best = j;
        }
        j = j + 1;
    }
    best
}

/// Some route from `start` to `goal` runs through the cells `free` holds, along no
/// edge `taken` holds.
pub open spec fn route_exists(free: Set<u32>, taken: Set<u64>, start: (u16, u16), goal: (u16, u16)) -> bool {
    exists|p: Seq<(u16, u16)>| valid_route(free, taken, start, goal, p)
}

/// The direction code of the step from `a` to the adjacent cell `b`.
pub open spec fn step_code(a: (u16, u16), b: (u16, u16)) -> u8 {
    if b.1 < a.1 {
        1
    } else if b.1 > a.1 {
        2
    } else if b.0 < a.0 {
        3
    } else {
        4
    }
}

/// The cost of the step into cell `n` in direction code `d` after a step in direction
/// code `dp` (0 before the first step): 1, plus `bend` for a turn, plus `cross` for
/// entering a cell of `cells`.
pub open spec fn step_cost(dp: u8, d: u8, n: (u16, u16), bend: int, cross: int, cells: Set<u32>) -> int {
    1 + (if dp != 0 && dp != d {
        bend
    } else {
        0
    }) + (if cells.contains(ck(n)) {
        cross
    } else {
        0
    })
}

/// The direction code of the step into `q[i]`; 0 for the first cell.
pub open spec fn dir_at(q: Seq<(u16, u16)>, i: int) -> u8 {
    if i <= 0 {
        0
    } else {
        step_code(q[i - 1], q[i])
    }
}

/// The cost of the first `k` steps of `q`.
pub open spec fn path_cost(q: Seq<(u16, u16)>, k: int, bend: int, cross: int, cells: Set<u32>) -> int
    decreases k,
{
    if k <= 0 {
        0
    } else {
        path_cost(q, k - 1, bend, cross, cells) + step_cost(dir_at(q, k - 1), dir_at(q, k), q[k], bend, cross, cells)
    }
}

/// The cost of a whole route: one per step, `bend` per turn, `cross` per cell of
/// `cells` entered.
pub open spec fn route_cost(q: Seq<(u16, u16)>, bend: int, cross: int, cells: Set<u32>) -> int {
    path_cost(q, q.len() - 1, bend, cross, cells)
}

/// The first `j + 1` cells of `q` form a walk from `start` through `free` in unit
/// steps along no edge of `taken`.
pub open spec fn walk_ok(free: Set<u32>, taken: Set<u64>, start: (u16, u16), q: Seq<(u16, u16)>, j: int) -> bool {
    &&& 0 <= j < q.len()
    &&& q[0] == start
    &&& forall|i: int| 0 <= i <= j ==> free.contains(ck(#[trigger] q[i]))
    &&& forall|i: int|
        0 <= i < j ==> unit_step(#[trigger] q[i], q[i + 1]) && !taken.contains(ek(edge_of(q[i], q[i + 1])))
}

/// The search state a walk `q` stands in after `j` steps.
pub open spec fn state_at(q: Seq<(u16, u16)>, j: int) -> u64 {
    sk(q[j], dir_at(q, j))
}

/// Every step the search may take from cell `c` in a direction of code at most `k`
/// leads to a recorded state.
spec fn expanded_upto(free: Set<u32>, taken: Set<u64>, g: Map<u64, u128>, c: (u16, u16), k: int) -> bool {
    forall|n: (u16, u16)|
        #[trigger] unit_step(c, n) && free.contains(ck(n)) && !taken.contains(ek(edge_of(c, n)))
            && step_code(c, n) <= k ==> g.contains_key(sk(n, step_code(c, n)))
}

/// What the search keeps of its closed states: each is recorded, is not at the goal,
/// and every step the search may take from it leads to a recorded state.
spec fn closed_ok(
    free: Set<u32>,
    taken: Set<u64>,
    goal: (u16, u16),
    g: Map<u64, u128>,
    info: Map<u64, (u16, u16, u8)>,
    closed: Set<u64>,
    except: u64,
) -> bool {
    forall|s: u64|
        #[trigger] closed.contains(s) && s != except ==> g.contains_key(s) && info.contains_key(s) && (
        info[s].0,
        info[s].1,
        ) != goal && expanded_upto(free, taken, g, (info[s].0, info[s].1), 4)
}

/// Every step the search may take from cell `c` (entered in direction `dir`, reached
/// at cost `gs`) in a direction of code at most `k`, into a state not closed, leads to
/// a recorded state no costlier than `gs` plus the step.
spec fn relaxed_upto(
    free: Set<u32>,
    taken: Set<u64>,
    g: Map<u64, u128>,
    closed: Set<u64>,
    cells: Set<u32>,
    bend: int,
    cross: int,
    c: (u16, u16),
    dir: u8,
    gs: int,
    k: int,
) -> bool {
    forall|n: (u16, u16)|
        #[trigger] unit_step(c, n) && free.contains(ck(n)) && !taken.contains(ek(edge_of(c, n)))
            && step_code(c, n) <= k && !closed.contains(sk(n, step_code(c, n))) ==> g.contains_key(
            sk(n, step_code(c, n)),
        ) && g[sk(n, step_code(c, n))] <= gs + step_cost(dir, step_code(c, n), n, bend, cross, cells)
}

/// Every closed state but `except` has relaxed all its steps.
spec fn relaxed_ok(
    free: Set<u32>,
    taken: Set<u64>,
    g: Map<u64, u128>,
    info: Map<u64, (u16, u16, u8)>,
    closed: Set<u64>,
    except: u64,
    cells: Set<u32>,
    bend: int,
    cross: int,
) -> bool {
    forall|u: u64|
        #[trigger] closed.contains(u) && u != except ==> info.contains_key(u) && g.contains_key(u) && relaxed_upto(
            free,
            taken,
            g,
            closed,
            cells,
            bend,
            cross,
            (info[u].0, info[u].1),
            info[u].2,
            g[u] as int,
            4,
        )
}

/// Every closed state's cost is at most the cost of any walk from the start that
/// ends in it.
spec fn closed_opt(
    free: Set<u32>,
    taken: Set<u64>,
    start: (u16, u16),
    g: Map<u64, u128>,
    closed: Set<u64>,
    cells: Set<u32>,
    bend: int,
    cross: int,
) -> bool {
    forall|q: Seq<(u16, u16)>, j: int|
        #[trigger] walk_ok(free, taken, start, q, j) && closed.contains(state_at(q, j)) ==> g.contains_key(
            state_at(q, j),
        ) && g[state_at(q, j)] <= path_cost(q, j, bend, cross, cells)
}

/// Relaxation facts survive when costs only fall and more states close.
proof fn lemma_relaxed_mono(
    free: Set<u32>,
    taken: Set<u64>,
    g: Map<u64, u128>,
    g2: Map<u64, u128>,
    closed: Set<u64>,
    closed2: Set<u64>,
    cells: Set<u32>,
    bend: int,
    cross: int,
    c: (u16, u16),
    dir: u8,
    gs: int,
    k: int,
)
    requires
        relaxed_upto(free, taken, g, closed, cells, bend, cross, c, dir, gs, k),
        forall|q: u64| #[trigger] g.contains_key(q) ==> g2.contains_key(q) && g2[q] <= g[q],
        forall|q: u64| #[trigger] closed.contains(q) ==> closed2.contains(q),
    ensures
        relaxed_upto(free, taken, g2, closed2, cells, bend, cross, c, dir, gs, k),
{
    assert forall|n: (u16, u16)|
        #[trigger] unit_step(c, n) && free.contains(ck(n)) && !taken.contains(ek(edge_of(c, n)))
            && step_code(c, n) <= k && !closed2.contains(sk(n, step_code(c, n))) implies g2.contains_key(
        sk(n, step_code(c, n)),
    ) && g2[sk(n, step_code(c, n))] <= gs + step_cost(dir, step_code(c, n), n, bend, cross, cells) by {
        assert(!closed.contains(sk(n, step_code(c, n))));
        assert(g.contains_key(sk(n, step_code(c, n))));
    }
}

/// The first state of a walk that is not closed is recorded, open, and no costlier
/// than the walk up to it.
proof fn lemma_frontier(
    free: Set<u32>,
    taken: Set<u64>,
    start: (u16, u16),
    g: Map<u64, u128>,
    info: Map<u64, (u16, u16, u8)>,
    closed: Set<u64>,
    cells: Set<u32>,
    bend: int,
    cross: int,
    q: Seq<(u16, u16)>,
    j: int,
)
    requires
        walk_ok(free, taken, start, q, j),
        !closed.contains(state_at(q, j)),
        g.contains_key(sk(start, 0)),
        g[sk(start, 0)] == 0,
        closed_opt(free, taken, start, g, closed, cells, bend, cross),
        relaxed_ok(free, taken, g, info, closed, 0x8_0000_0000, cells, bend, cross),
        forall|u: u64|
            #[trigger] closed.contains(u) ==> info.contains_key(u) && info[u].2 <= 4 && sk((info[u].0, info[u].1), info[u].2)
                == u,
    ensures
        exists|i: int|
            0 <= i <= j && #[trigger] g.contains_key(state_at(q, i)) && !closed.contains(state_at(q, i))
                && g[state_at(q, i)] <= path_cost(q, i, bend, cross, cells),
    decreases j,
{
    if j == 0 {
        assert(state_at(q, 0) == sk(start, 0));
        assert(g.contains_key(state_at(q, 0)) && g[state_at(q, 0)] <= path_cost(q, 0, bend, cross, cells));
    } else {
        let u = state_at(q, j - 1);
        assert(walk_ok(free, taken, start, q, j - 1));
        if closed.contains(u) {
            assert(g.contains_key(u) && g[u] <= path_cost(q, j - 1, bend, cross, cells));
            lemma_sk_bound(q[j - 1], dir_at(q, j - 1));
            lemma_sk_bound((info[u].0, info[u].1), info[u].2);
            lemma_sk_injective((info[u].0, info[u].1), info[u].2, q[j - 1], dir_at(q, j - 1));
            let a = q[j - 1];
            let n = q[j];
            assert(unit_step(a, n) && !taken.contains(ek(edge_of(a, n))));
            assert(free.contains(ck(n)));
            assert(relaxed_upto(free, taken, g, closed, cells, bend, cross, a, dir_at(q, j - 1), g[u] as int, 4));
            assert(step_code(a, n) <= 4);
            assert(state_at(q, j) == sk(n, step_code(a, n)));
            assert(g.contains_key(state_at(q, j)));
        } else {
            lemma_frontier(free, taken, start, g, info, closed, cells, bend, cross, q, j - 1);
            let i = choose|i: int|
                0 <= i <= j - 1 && #[trigger] g.contains_key(state_at(q, i)) && !closed.contains(state_at(q, i))
                    && g[state_at(q, i)] <= path_cost(q, i, bend, cross, cells);
            assert(0 <= i <= j && g.contains_key(state_at(q, i)));
        }
    }
}

/// The distance still to go bounds how far the walk from `q[i]` to `q[j]` gets
/// closer to `goal`: each step costs at least 1 and moves one cell.
proof fn lemma_h_step(
    free: Set<u32>,
    taken: Set<u64>,
    start: (u16, u16),
    q: Seq<(u16, u16)>,
    i: int,
    j: int,
    goal: (u16, u16),
    cells: Set<u32>,
    bend: int,
    cross: int,
)
    requires
        walk_ok(free, taken, start, q, j),
        0 <= i <= j,
        bend >= 0,
        cross >= 0,
    ensures
        manhattan(q[i], goal) <= path_cost(q, j, bend, cross, cells) - path_cost(q, i, bend, cross, cells) + manhattan(
            q[j],
            goal,
        ),
    decreases j - i,
{
    if i < j {
        lemma_h_step(free, taken, start, q, i + 1, j, goal, cells, bend, cross);
        assert(unit_step(q[i], q[i + 1]));
        assert(path_cost(q, i + 1, bend, cross, cells) >= path_cost(q, i, bend, cross, cells) + 1);
    }
}

/// A walk's cost is never negative.
proof fn lemma_path_cost_nonneg(q: Seq<(u16, u16)>, k: int, bend: int, cross: int, cells: Set<u32>)
    requires
        bend >= 0,
        cross >= 0,
    ensures
        path_cost(q, k, bend, cross, cells) >= 0,
    decreases k,
{
    if k > 0 {
        lemma_path_cost_nonneg(q, k - 1, bend, cross, cells);
    }
}

/// A step by a direction's delta is a unit step of that direction's code.
proof fn lemma_code_of(c: (u16, u16), n: (u16, u16), code: u8, dx: i32, dy: i32)
    requires
        (code == 1 && dx == 0 && dy == -1) || (code == 2 && dx == 0 && dy == 1) || (code == 3 && dx == -1
            && dy == 0) || (code == 4 && dx == 1 && dy == 0),
        n.0 == c.0 + dx,
        n.1 == c.1 + dy,
    ensures
        unit_step(c, n),
        step_code(c, n) == code,
{
}

/// Recording a step into a state not closed, from a closed state, keeps every
/// recorded step exact.
proof fn lemma_came_relax(
    g: Map<u64, u128>,
    came: Map<u64, u64>,
    info: Map<u64, (u16, u16, u8)>,
    closed: Set<u64>,
    s: u64,
    n: (u16, u16),
    code: u8,
    ns: u64,
    ng: u128,
    bend: int,
    cross: int,
    cells: Set<u32>,
)
    requires
        came_exact(g, came, info, bend, cross, cells),
        forall|k: u64| #[trigger] came.contains_key(k) ==> closed.contains(came[k]),
        closed.contains(s),
        !closed.contains(ns),
        g.contains_key(s),
        info.contains_key(s),
        code == step_code((info[s].0, info[s].1), n),
        ng == g[s] + step_cost(info[s].2, code, n, bend, cross, cells),
        g.contains_key(ns) ==> info[ns] == (n.0, n.1, code),
    ensures
        came_exact(g.insert(ns, ng), came.insert(ns, s), info.insert(ns, (n.0, n.1, code)), bend, cross, cells),
{
    let g2 = g.insert(ns, ng);
    let came2 = came.insert(ns, s);
    let info2 = info.insert(ns, (n.0, n.1, code));
    assert forall|k: u64| #[trigger] came2.contains_key(k) implies info2.contains_key(k) && info2.contains_key(came2[k])
        && g2.contains_key(k) && g2.contains_key(came2[k]) && info2[k].2 == step_code(
        (info2[came2[k]].0, info2[came2[k]].1),
        (info2[k].0, info2[k].1),
    ) && g2[k] == g2[came2[k]] + step_cost(info2[came2[k]].2, info2[k].2, (info2[k].0, info2[k].1), bend, cross, cells) by {
        if k == ns {
            assert(s != ns);
        } else {
            assert(came2[k] == came[k]);
            assert(closed.contains(came[k]));
            assert(came[k] != ns);
        }
    }
}

/// Relaxation facts of closed states survive a step that only lowers costs of
/// states not closed.
proof fn lemma_relaxed_ok_grow(
    free: Set<u32>,
    taken: Set<u64>,
    g: Map<u64, u128>,
    g2: Map<u64, u128>,
    info: Map<u64, (u16, u16, u8)>,
    info2: Map<u64, (u16, u16, u8)>,
    closed: Set<u64>,
    except: u64,
    cells: Set<u32>,
    bend: int,
    cross: int,
)
    requires
        relaxed_ok(free, taken, g, info, closed, except, cells, bend, cross),
        forall|q: u64| #[trigger] g.contains_key(q) ==> g2.contains_key(q) && g2[q] <= g[q],
        forall|q: u64| #[trigger] g.contains_key(q) ==> info2.contains_key(q) && info2[q] == info[q],
        forall|q: u64| #[trigger] closed.contains(q) && g.contains_key(q) ==> g2[q] == g[q],
    ensures
        relaxed_ok(free, taken, g2, info2, closed, except, cells, bend, cross),
{
    assert forall|u: u64| #[trigger] closed.contains(u) && u != except implies info2.contains_key(u) && g2.contains_key(u)
        && relaxed_upto(free, taken, g2, closed, cells, bend, cross, (info2[u].0, info2[u].1), info2[u].2, g2[u] as int, 4) by {
        assert(g.contains_key(u));
        lemma_relaxed_mono(free, taken, g, g2, closed, closed, cells, bend, cross, (info[u].0, info[u].1), info[u].2, g[u] as int, 4);
    }
}

/// The state chosen for expansion costs, with the distance still to go, no more than
/// any walk from the start into a state not closed, with that walk's distance to go.
proof fn lemma_selected(
    free: Set<u32>,
    taken: Set<u64>,
    start: (u16, u16),
    goal: (u16, u16),
    g: Map<u64, u128>,
    info: Map<u64, (u16, u16, u8)>,
    closed: Set<u64>,
    open: Seq<u64>,
    sel: u64,
    cells: Set<u32>,
    bend: int,
    cross: int,
)
    requires
        bend >= 0,
        cross >= 0,
        g.contains_key(sel),
        info.contains_key(sel),
        forall|j: int|
            0 <= j < open.len() ==> g.contains_key(#[trigger] open[j]) && info.contains_key(open[j]) && !key_less(
                search_key(g, info, goal, open[j]),
                search_key(g, info, goal, sel),
            ),
        forall|q: u64| #[trigger] g.contains_key(q) ==> open.contains(q) || closed.contains(q),
        forall|q: u64|
            #[trigger] g.contains_key(q) ==> info.contains_key(q) && info[q].2 <= 4 && sk((info[q].0, info[q].1), info[q].2)
                == q,
        forall|q: u64| #[trigger] closed.contains(q) ==> g.contains_key(q),
        g.contains_key(sk(start, 0)),
        g[sk(start, 0)] == 0,
        closed_opt(free, taken, start, g, closed, cells, bend, cross),
        relaxed_ok(free, taken, g, info, closed, 0x8_0000_0000, cells, bend, cross),
    ensures
        forall|q: Seq<(u16, u16)>, j: int|
            #[trigger] walk_ok(free, taken, start, q, j) && !closed.contains(state_at(q, j)) ==> g[sel] + manhattan(
                (info[sel].0, info[sel].1),
                goal,
            ) <= path_cost(q, j, bend, cross, cells) + manhattan(q[j], goal),
{
    assert forall|u: u64| #[trigger] closed.contains(u) implies info.contains_key(u) && info[u].2 <= 4 && sk(
        (info[u].0, info[u].1),
        info[u].2,
    ) == u by {
        assert(g.contains_key(u));
    }
    assert forall|q: Seq<(u16, u16)>, j: int|
        #[trigger] walk_ok(free, taken, start, q, j) && !closed.contains(state_at(q, j)) implies g[sel] + manhattan(
        (info[sel].0, info[sel].1),
        goal,
    ) <= path_cost(q, j, bend, cross, cells) + manhattan(q[j], goal) by {
        lemma_frontier(free, taken, start, g, info, closed, cells, bend, cross, q, j);
        let i = choose|i: int|
            0 <= i <= j && #[trigger] g.contains_key(state_at(q, i)) && !closed.contains(state_at(q, i))
                && g[state_at(q, i)] <= path_cost(q, i, bend, cross, cells);
        let t = state_at(q, i);
        assert(open.contains(t));
        let idx = choose|idx: int| 0 <= idx < open.len() && open[idx] == t;
        assert(!key_less(search_key(g, info, goal, open[idx]), search_key(g, info, goal, sel)));
        lemma_sk_injective((info[t].0, info[t].1), info[t].2, q[i], dir_at(q, i));
        lemma_h_step(free, taken, start, q, i, j, goal, cells, bend, cross);
    }
}

/// The states of a search are numbered below 2^35, so a set of them is finite and
/// holds at most 2^35.
proof fn lemma_state_space(closed: Set<u64>)
    requires
        forall|k: u64| #[trigger] closed.contains(k) ==> k < 0x8_0000_0000,
    ensures
        closed.finite(),
        closed.len() <= 0x8_0000_0000,
{
    let u = Set::new(|k: u64| k < 0x8_0000_0000u64);
    let r = vstd::set_lib::set_int_range(0, 0x8_0000_0000);
    let f = |i: int| i as u64;
    vstd::set_lib::lemma_int_range(0, 0x8_0000_0000);
    assert(r.map(f) =~= u) by {
        assert forall|k: u64| u.contains(k) implies r.map(f).contains(k) by {
            assert(r.contains(k as int) && f(k as int) == k);
        }
    }
    assert(vstd::relations::injective_on(f, r));
    vstd::set_lib::lemma_map_size(r, u, f);
    assert(closed.subset_of(u));
    vstd::set_lib::lemma_len_subset(closed, u);
}

/// A state's key is below 2^35.
proof fn lemma_sk_bound(c: (u16, u16), d: u8)
    requires
        d <= 4,
    ensures
        sk(c, d) < 0x8_0000_0000,
{
}

/// Along a route every cell has a recorded state, when every recorded state is closed
/// and every closed state is expanded.
proof fn lemma_reach(
    free: Set<u32>,
    taken: Set<u64>,
    start: (u16, u16),
    goal: (u16, u16),
    g: Map<u64, u128>,
    info: Map<u64, (u16, u16, u8)>,
    closed: Set<u64>,
    p: Seq<(u16, u16)>,
    k: int,
)
    requires
        g.contains_key(sk(start, 0)),
        info.contains_key(sk(start, 0)),
        info[sk(start, 0)] == (start.0, start.1, 0u8),
        forall|q: u64| #[trigger] g.contains_key(q) ==> closed.contains(q),
        forall|q: u64|
            #[trigger] g.contains_key(q) ==> info.contains_key(q) && info[q].2 <= 4 && sk(
                (info[q].0, info[q].1),
                info[q].2,
            ) == q,
        closed_ok(free, taken, goal, g, info, closed, 0x8_0000_0000),
        valid_route(free, taken, start, goal, p),
        0 <= k < p.len(),
    ensures
        exists|s: u64| #[trigger] g.contains_key(s) && (info[s].0, info[s].1) == p[k],
    decreases k,
{
    if k == 0 {
        assert(g.contains_key(sk(start, 0)) && (info[sk(start, 0)].0, info[sk(start, 0)].1) == p[0]);
    } else {
        lemma_reach(free, taken, start, goal, g, info, closed, p, k - 1);
        let s = choose|s: u64| #[trigger] g.contains_key(s) && (info[s].0, info[s].1) == p[k - 1];
        lemma_sk_bound((info[s].0, info[s].1), info[s].2);
        assert(closed.contains(s) && s != 0x8_0000_0000);
        let a = p[k - 1];
        let n = p[k];
        assert(unit_step(a, n) && !taken.contains(ek(edge_of(a, n))));
        assert(free.contains(ck(n)));
        let ns = sk(n, step_code(a, n));
        assert(g.contains_key(ns));
        lemma_sk_injective((info[ns].0, info[ns].1), info[ns].2, n, step_code(a, n));
    }
}

/// No route exists when every recorded state is closed, every closed state is
/// expanded, and none is at the goal.
proof fn lemma_no_route(
    free: Set<u32>,
    taken: Set<u64>,
    start: (u16, u16),
    goal: (u16, u16),
    g: Map<u64, u128>,
    info: Map<u64, (u16, u16, u8)>,
    closed: Set<u64>,
)
    requires
        g.contains_key(sk(start, 0)),
        info.contains_key(sk(start, 0)),
        info[sk(start, 0)] == (start.0, start.1, 0u8),
        forall|q: u64| #[trigger] g.contains_key(q) ==> closed.contains(q),
        forall|q: u64|
            #[trigger] g.contains_key(q) ==> info.contains_key(q) && info[q].2 <= 4 && sk(
                (info[q].0, info[q].1),
                info[q].2,
            ) == q,
        closed_ok(free, taken, goal, g, info, closed, 0x8_0000_0000),
    ensures
        !route_exists(free, taken, start, goal),
{
    if route_exists(free, taken, start, goal) {
        let p = choose|p: Seq<(u16, u16)>| valid_route(free, taken, start, goal, p);
        lemma_reach(free, taken, start, goal, g, info, closed, p, p.len() - 1);
        let s = choose|s: u64| #[trigger] g.contains_key(s) && (info[s].0, info[s].1) == p[p.len() - 1];
        lemma_sk_bound((info[s].0, info[s].1), info[s].2);
        assert(closed.contains(s));
    }
}

/// A bound on the cost of one step (1, plus `bend_penalty` for a turn, plus
/// `crossing_penalty` for entering a taken cell), both penalties being `u32`.
const STEP_CAP: u128 = 0x4_0000_0000;

/// The step from `c` to the adjacent cell `m` in the direction of code `code` moves
/// by that direction's delta.
proof fn lemma_step_dir(c: (u16, u16), m: (u16, u16), code: u8, dx: i32, dy: i32)
    requires
        unit_step(c, m),
        step_code(c, m) == code,
        (code == 1 && dx == 0 && dy == -1) || (code == 2 && dx == 0 && dy == 1) || (code == 3 && dx == -1
            && dy == 0) || (code == 4 && dx == 1 && dy == 0),
    ensures
        m.0 == c.0 + dx,
        m.1 == c.1 + dy,
{
}

/// Closed states stay expanded when the recorded states only grow and keep their cells.
proof fn lemma_closed_grow(
    free: Set<u32>,
    taken: Set<u64>,
    goal: (u16, u16),
    g: Map<u64, u128>,
    info: Map<u64, (u16, u16, u8)>,
    closed: Set<u64>,
    except: u64,
    g2: Map<u64, u128>,
    info2: Map<u64, (u16, u16, u8)>,
)
    requires
        closed_ok(free, taken, goal, g, info, closed, except),
        forall|q: u64| #[trigger] g.contains_key(q) ==> g2.contains_key(q),
        forall|q: u64| #[trigger] g.contains_key(q) ==> info2.contains_key(q) && info2[q] == info[q],
    ensures
        closed_ok(free, taken, goal, g2, info2, closed, except),
{
    assert forall|s: u64| #[trigger] closed.contains(s) && s != except implies g2.contains_key(s)
        && info2.contains_key(s) && (info2[s].0, info2[s].1) != goal && expanded_upto(
        free,
        taken,
        g2,
        (info2[s].0, info2[s].1),
        4,
    ) by {
        assert(g.contains_key(s));
        let c = (info[s].0, info[s].1);
        assert forall|n: (u16, u16)|
            #[trigger] unit_step(c, n) && free.contains(ck(n)) && !taken.contains(ek(edge_of(c, n)))
                && step_code(c, n) <= 4 implies g2.contains_key(sk(n, step_code(c, n))) by {
            assert(g.contains_key(sk(n, step_code(c, n))));
        }
    }
}

/// Grid A* with a bend penalty, honouring `occ`: a taken edge is impassable and
/// entering a taken cell costs `crossing_penalty` more.  States are a cell and the
/// direction it was entered in; each is expanded at most once.
#[verifier::rlimit(100)]
#[verifier::spinoff_prover]
fn astar(
    free: &HashSet<u32>,
    start: (u16, u16),
    goal: (u16, u16),
    bend_penalty: u32,
    occ: &Occupancy,
    crossing_penalty: u32,
) -> (r: Option<Vec<(u16, u16)>>)
    ensures
        !free@.contains(ck(start)) || !free@.contains(ck(goal)) ==> r is None,
        free@.contains(ck(start)) && free@.contains(ck(goal)) && start == goal ==> (r matches Some(p)
            && p@ == seq![start]),
        r matches Some(p) ==> valid_route(free@, occ.edges@, start, goal, p@),
        r is Some <==> route_exists(free@, occ.edges@, start, goal),
        r matches Some(p) ==> forall|q: Seq<(u16, u16)>|
            #[trigger] valid_route(free@, occ.edges@, start, goal, q) ==> route_cost(
                p@,
                bend_penalty as int,
                crossing_penalty as int,
                occ.cells@,
            ) <= route_cost(q, bend_penalty as int, crossing_penalty as int, occ.cells@),
{
    if !free.contains(&cell_key(start)) || !free.contains(&cell_key(goal)) {
        return None;
    }
    if start.0 == goal.0 && start.1 == goal.1 {
        let p = vec![start];
        proof {
            assert(valid_route(free@, occ.edges@, start, goal, p@));
            assert(route_cost(p@, bend_penalty as int, crossing_penalty as int, occ.cells@) == 0);
            assert forall|q: Seq<(u16, u16)>| #[trigger] valid_route(free@, occ.edges@, start, goal, q) implies route_cost(
                p@,
                bend_penalty as int,
                crossing_penalty as int,
                occ.cells@,
            ) <= route_cost(q, bend_penalty as int, crossing_penalty as int, occ.cells@) by {
                lemma_path_cost_nonneg(q, q.len() - 1, bend_penalty as int, crossing_penalty as int, occ.cells@);
            }
        }
        return Some(p);
    }
    let ghost taken = occ.edges@;
    let start_key: u64 = cell_key(start) as u64 * 8;
    let mut g_score: HashMap<u64, u128> = HashMap::new();
    let mut came: HashMap<u64, u64> = HashMap::new();
    let mut info: HashMap<u64, (u16, u16, u8)> = HashMap::new();
    let mut closed: HashSet<u64> = HashSet::new();
    let mut open: Vec<u64> = Vec::new();
    g_score.insert(start_key, 0);
    info.insert(start_key, (start.0, start.1, 0));
    open.push(start_key);
    proof {
        lemma_init(free@, taken, start);
        assert(g_score@ =~= Map::<u64, u128>::empty().insert(sk(start, 0), 0));
        assert(info@ =~= Map::<u64, (u16, u16, u8)>::empty().insert(sk(start, 0), (start.0, start.1, 0u8)));
        assert(came@ =~= Map::<u64, u64>::empty());
        assert(closed@ =~= Set::<u64>::empty());
        assert(open@[0] == start_key);
        assert(came_exact(g_score@, came@, info@, bend_penalty as int, crossing_penalty as int, occ.cells@));
    }
    let max_iters: u64 = 0x8_0000_0001;
    let mut it: u64 = 0;
    while it < max_iters
        invariant
            taken == occ.edges@,
            start != goal,
            free@.contains(ck(goal)),
            search_ok(free@, taken, start, g_score@, came@, info@, closed@),
            forall|j: int|
                0 <= j < open@.len() ==> g_score@.contains_key(#[trigger] open@[j]) && !closed@.contains(open@[j]),
            open@.no_duplicates(),
            forall|k: u64| #[trigger] g_score@.contains_key(k) ==> g_score@[k] <= it * STEP_CAP,
            forall|q: u64| #[trigger] g_score@.contains_key(q) ==> open@.contains(q) || closed@.contains(q),
            forall|q: u64| #[trigger] closed@.contains(q) ==> g_score@.contains_key(q),
            closed_ok(free@, taken, goal, g_score@, info@, closed@, 0x8_0000_0000),
            closed@.finite(),
            closed@.len() == it,
            g_score@.contains_key(sk(start, 0)),
            g_score@[sk(start, 0)] == 0,
            came_exact(g_score@, came@, info@, bend_penalty as int, crossing_penalty as int, occ.cells@),
            closed_opt(free@, taken, start, g_score@, closed@, occ.cells@, bend_penalty as int, crossing_penalty as int),
            relaxed_ok(free@, taken, g_score@, info@, closed@, 0x8_0000_0000, occ.cells@, bend_penalty as int, crossing_penalty as int),
        decreases max_iters - it,
    {
        it = it + 1;
        if open.len() == 0 {
            proof {
                assert forall|q: u64| #[trigger] g_score@.contains_key(q) implies info@.contains_key(q)
                    && info@[q].2 <= 4 && sk((info@[q].0, info@[q].1), info@[q].2) == q by {
                    lemma_state(free@, taken, start, g_score@, came@, info@, closed@, q);
                }
                lemma_start(free@, taken, start, g_score@, came@, info@, closed@);
                lemma_no_route(free@, taken, start, goal, g_score@, info@, closed@);
            }
            return None;
        }
        proof {
            assert forall|j: int| 0 <= j < open@.len() implies g_score@.contains_key(#[trigger] open@[j])
                && info@.contains_key(open@[j]) by {
                lemma_state(free@, taken, start, g_score@, came@, info@, closed@, open@[j]);
            }
            assert(it * STEP_CAP <= 0x1_0000_0000_0000_0000_0000_0000_0000) by (nonlinear_arith)
                requires
                    it <= u64::MAX,
            ;
        }
        let bi = select_best(&open, &g_score, &info, goal, Ghost(it * STEP_CAP));
        let ghost open0 = open@;
        let ghost closed0 = closed@;
        proof {
            let sel = open@[bi as int];
            assert forall|q: u64| #[trigger] g_score@.contains_key(q) implies info@.contains_key(q)
                && info@[q].2 <= 4 && sk((info@[q].0, info@[q].1), info@[q].2) == q by {
                lemma_state(free@, taken, start, g_score@, came@, info@, closed@, q);
            }
            lemma_selected(free@, taken, start, goal, g_score@, info@, closed@, open@, sel, occ.cells@, bend_penalty as int, crossing_penalty as int);
        }
        let s = open.remove(bi);
        proof {
            assert forall|j: int| 0 <= j < open@.len() implies open@[j] != s by {
                if j < bi {
                    assert(open@[j] == open0[j]);
                } else {
                    assert(open@[j] == open0[j + 1]);
                }
            }
            assert(open@.no_duplicates()) by {
                assert forall|a: int, b: int| 0 <= a < b < open@.len() implies open@[a] != open@[b] by {
                    let a0 = if a < bi { a } else { a + 1 };
                    let b0 = if b < bi { b } else { b + 1 };
                    assert(open@[a] == open0[a0]);
                    assert(open@[b] == open0[b0]);
                }
            }
            assert forall|q: u64| open0.contains(q) && q != s implies open@.contains(q) by {
                let j = choose|j: int| 0 <= j < open0.len() && open0[j] == q;
                if j < bi {
                    assert(open@[j] == q);
                } else {
                    assert(j != bi);
                    assert(open@[j - 1] == q);
                }
            }
            lemma_close(free@, taken, start, g_score@, came@, info@, closed@, s);
            lemma_state(free@, taken, start, g_score@, came@, info@, closed@, s);
            lemma_sk_bound((info@[s].0, info@[s].1), info@[s].2);
        }
        closed.insert(s);
        proof {
            assert(!closed0.contains(s));
            assert(closed@ =~= closed0.insert(s));
            lemma_sk_bound((info@[s].0, info@[s].1), info@[s].2);
            assert forall|q: Seq<(u16, u16)>, j: int|
                #[trigger] walk_ok(free@, taken, start, q, j) && closed@.contains(state_at(q, j)) implies g_score@.contains_key(
                state_at(q, j),
            ) && g_score@[state_at(q, j)] <= path_cost(q, j, bend_penalty as int, crossing_penalty as int, occ.cells@) by {
                if state_at(q, j) == s {
                    assert(walk_ok(free@, taken, start, q, j) && !closed0.contains(state_at(q, j)));
                    lemma_sk_bound(q[j], dir_at(q, j));
                    lemma_sk_injective((info@[s].0, info@[s].1), info@[s].2, q[j], dir_at(q, j));
                } else {
                    assert(closed0.contains(state_at(q, j)));
                }
            }
            assert forall|u: u64| #[trigger] closed@.contains(u) && u != s implies info@.contains_key(u) && g_score@.contains_key(u)
                && relaxed_upto(free@, taken, g_score@, closed@, occ.cells@, bend_penalty as int, crossing_penalty as int, (info@[u].0, info@[u].1), info@[u].2, g_score@[u] as int, 4) by {
                assert(closed0.contains(u));
                lemma_state(free@, taken, start, g_score@, came@, info@, closed0, u);
                lemma_sk_bound((info@[u].0, info@[u].1), info@[u].2);
                lemma_relaxed_mono(free@, taken, g_score@, g_score@, closed0, closed@, occ.cells@, bend_penalty as int, crossing_penalty as int, (info@[u].0, info@[u].1), info@[u].2, g_score@[u] as int, 4);
            }
        }
        let c = *info.get(&s).unwrap();
        if c.0 == goal.0 && c.1 == goal.1 {
            let p = reconstruct(
                &came,
                &g_score,
                &info,
                s,
                start,
                Ghost(free@),
                Ghost(taken),
                Ghost(closed@),
                Ghost(bend_penalty as int),
                Ghost(crossing_penalty as int),
                Ghost(occ.cells@),
            );
            proof {
                assert(valid_route(free@, occ.edges@, start, goal, p@));
                assert forall|q: Seq<(u16, u16)>| #[trigger] valid_route(free@, occ.edges@, start, goal, q) implies route_cost(
                    p@,
                    bend_penalty as int,
                    crossing_penalty as int,
                    occ.cells@,
                ) <= route_cost(q, bend_penalty as int, crossing_penalty as int, occ.cells@) by {
                    let m = q.len() - 1;
                    assert(walk_ok(free@, taken, start, q, m));
                    if closed0.contains(state_at(q, m)) {
                        let u = state_at(q, m);
                        lemma_state(free@, taken, start, g_score@, came@, info@, closed0, u);
                        lemma_sk_bound((info@[u].0, info@[u].1), info@[u].2);
                        lemma_sk_bound(q[m], dir_at(q, m));
                        lemma_sk_injective((info@[u].0, info@[u].1), info@[u].2, q[m], dir_at(q, m));
                    }
                    assert(manhattan(goal, goal) == 0);
                }
            }
            return Some(p);
        }
        proof {
            assert forall|q: u64| #[trigger] closed@.contains(q) && q != s implies g_score@.contains_key(q)
                && info@.contains_key(q) && (info@[q].0, info@[q].1) != goal && expanded_upto(
                free@,
                taken,
                g_score@,
                (info@[q].0, info@[q].1),
                4,
            ) by {
                assert(closed0.contains(q));
                lemma_state(free@, taken, start, g_score@, came@, info@, closed@, q);
                lemma_sk_bound((info@[q].0, info@[q].1), info@[q].2);
            }
        }
        let g = *g_score.get(&s).unwrap();
        let mut k: usize = 0;
        while k < 4
            invariant
                taken == occ.edges@,
                free@.contains(ck(goal)),
                search_ok(free@, taken, start, g_score@, came@, info@, closed@),
                g_score@.contains_key(s),
                closed@.contains(s),
                g_score@[s] == g,
                info@.contains_key(s),
                info@[s] == c,
                s < 0x8_0000_0000,
                (c.0, c.1) != goal,
                k <= 4,
                g <= (it - 1) * STEP_CAP,
                forall|j: int|
                    0 <= j < open@.len() ==> g_score@.contains_key(#[trigger] open@[j]) && !closed@.contains(open@[j]),
                open@.no_duplicates(),
                forall|q: u64| #[trigger] g_score@.contains_key(q) ==> g_score@[q] <= it * STEP_CAP,
                forall|q: u64| #[trigger] g_score@.contains_key(q) ==> open@.contains(q) || closed@.contains(q),
                forall|q: u64| #[trigger] closed@.contains(q) ==> g_score@.contains_key(q),
                closed_ok(free@, taken, goal, g_score@, info@, closed@, s),
                expanded_upto(free@, taken, g_score@, (c.0, c.1), k as int),
                closed@.finite(),
                closed@.len() == it,
                g_score@.contains_key(sk(start, 0)),
                g_score@[sk(start, 0)] == 0,
                came_exact(g_score@, came@, info@, bend_penalty as int, crossing_penalty as int, occ.cells@),
                closed_opt(free@, taken, start, g_score@, closed@, occ.cells@, bend_penalty as int, crossing_penalty as int),
                relaxed_ok(free@, taken, g_score@, info@, closed@, s, occ.cells@, bend_penalty as int, crossing_penalty as int),
                relaxed_upto(free@, taken, g_score@, closed@, occ.cells@, bend_penalty as int, crossing_penalty as int, (c.0, c.1), c.2, g as int, k as int),
            decreases 4 - k,
        {
            let dd = if k == 0 {
                Direction::Up
            } else if k == 1 {
                Direction::Down
            } else if k == 2 {
                Direction::Left
            } else {
                Direction::Right
            };
            let code: u8 = if k == 0 {
                1
            } else if k == 1 {
                2
            } else if k == 2 {
                3
            } else {
                4
            };
            let (dx, dy) = dd.delta();
            let nx = c.0 as i32 + dx;
            let ny = c.1 as i32 + dy;
            let ghost g_before = g_score@;
            let ghost info_before = info@;
            let ghost open_before = open@;
            let ghost gn: (u16, u16) = (#[verifier::truncate] (nx as u16), #[verifier::truncate] (ny as u16));
            let ghost in_range = 0 <= nx <= 0xffff && 0 <= ny <= 0xffff;
            if 0 <= nx && 0 <= ny && nx <= 0xffff && ny <= 0xffff {
                let n = (nx as u16, ny as u16);
                if free.contains(&cell_key(n)) && !occ.edges.contains(&edge_key((c.0, c.1), n)) {
                    let ns: u64 = cell_key(n) as u64 * 8 + code as u64;
                    if !closed.contains(&ns) {
                        let turn = c.2 != 0 && c.2 != code;
                        let cross: u128 = if occ.cells.contains(&cell_key(n)) {
                            crossing_penalty as u128
                        } else {
                            0
                        };
                        let ng: u128 = g + 1 + (if turn {
                            bend_penalty as u128
                        } else {
                            0
                        }) + cross;
                        let improves = match g_score.get(&ns) {
                            None => true,
                            Some(old) => ng < *old,
                        };
                        if improves {
                            proof {
                                assert(ns == sk(n, code));
                                lemma_code_of((c.0, c.1), n, code, dx, dy);
                                assert(ng == g + step_cost(c.2, code, n, bend_penalty as int, crossing_penalty as int, occ.cells@));
                                if ns == sk(start, 0) {
                                    lemma_sk_injective(n, code, start, 0);
                                }
                                assert forall|q: u64| #[trigger] came@.contains_key(q) implies closed@.contains(came@[q]) by {
                                    lemma_state(free@, taken, start, g_score@, came@, info@, closed@, q);
                                }
                                if g_score@.contains_key(ns) {
                                    lemma_state(free@, taken, start, g_score@, came@, info@, closed@, ns);
                                    lemma_sk_injective((info@[ns].0, info@[ns].1), info@[ns].2, n, code);
                                }
                                lemma_came_relax(g_score@, came@, info@, closed@, s, n, code, ns, ng, bend_penalty as int, crossing_penalty as int, occ.cells@);
                                lemma_relax(free@, taken, start, g_score@, came@, info@, closed@, s, n, code, ng);
                            }
                            let fresh = !g_score.contains_key(&ns);
                            g_score.insert(ns, ng);
                            came.insert(ns, s);
                            info.insert(ns, (n.0, n.1, code));
                            if fresh {
                                open.push(ns);
                            }
                            proof {
                                assert forall|j: int| 0 <= j < open@.len() implies g_score@.contains_key(
                                    #[trigger] open@[j],
                                ) && !closed@.contains(open@[j]) by {}
                                assert(open@.no_duplicates());
                                assert(info@ == info_before.insert(ns, (n.0, n.1, code)));
                                assert(fresh == !g_before.contains_key(ns));
                                assert forall|q: u64| #[trigger] g_score@.contains_key(q) implies open@.contains(q)
                                    || closed@.contains(q) by {
                                    if q == ns && fresh {
                                        assert(open@[open@.len() - 1] == ns);
                                    } else {
                                        assert(g_before.contains_key(q));
                                        if !closed@.contains(q) {
                                            assert(open_before.contains(q));
                                            let j = choose|j: int| 0 <= j < open_before.len() && open_before[j] == q;
                                            assert(open@[j] == q);
                                        }
                                    }
                                }
                                assert forall|q: u64| #[trigger] g_before.contains_key(q) implies info@.contains_key(q)
                                    && info@[q] == info_before[q] by {
                                    assert(g_score@.contains_key(q));
                                    lemma_state(free@, taken, start, g_score@, came@, info@, closed@, q);
                                    if fresh {
                                        assert(q != ns);
                                    } else {
                                        assert(info_before.insert(ns, (n.0, n.1, code)) == info_before);
                                    }
                                }
                                lemma_closed_grow(free@, taken, goal, g_before, info_before, closed@, s, g_score@, info@);
                                assert forall|q: u64| #[trigger] g_before.contains_key(q) implies g_score@.contains_key(q)
                                    && g_score@[q] <= g_before[q] by {}
                                assert forall|q: u64| #[trigger] closed@.contains(q) && g_before.contains_key(q) implies g_score@[q]
                                    == g_before[q] by {
                                    assert(q != ns);
                                }
                                lemma_relaxed_ok_grow(free@, taken, g_before, g_score@, info_before, info@, closed@, s, occ.cells@, bend_penalty as int, crossing_penalty as int);
                                assert forall|q: Seq<(u16, u16)>, j: int|
                                    #[trigger] walk_ok(free@, taken, start, q, j) && closed@.contains(state_at(q, j)) implies g_score@.contains_key(
                                    state_at(q, j),
                                ) && g_score@[state_at(q, j)] <= path_cost(q, j, bend_penalty as int, crossing_penalty as int, occ.cells@) by {
                                    assert(state_at(q, j) != ns);
                                    assert(g_before.contains_key(state_at(q, j)));
                                }
                            }
                        }
                    }
                }
            }
            proof {
                assert forall|q: u64| #[trigger] g_before.contains_key(q) implies g_score@.contains_key(q) by {}
                assert(in_range && free@.contains(ck(gn)) && unit_step((c.0, c.1), gn) && !taken.contains(
                    ek(edge_of((c.0, c.1), gn)),
                ) ==> g_score@.contains_key(sk(gn, code)));
                assert(in_range && free@.contains(ck(gn)) && unit_step((c.0, c.1), gn) && !taken.contains(
                    ek(edge_of((c.0, c.1), gn)),
                ) && !closed@.contains(sk(gn, code)) ==> g_score@[sk(gn, code)] <= g + step_cost(c.2, code, gn, bend_penalty as int, crossing_penalty as int, occ.cells@));
                assert forall|q: u64| #[trigger] g_before.contains_key(q) implies g_score@.contains_key(q)
                    && g_score@[q] <= g_before[q] by {}
                lemma_relaxed_mono(free@, taken, g_before, g_score@, closed@, closed@, occ.cells@, bend_penalty as int, crossing_penalty as int, (c.0, c.1), c.2, g as int, k as int);
                assert forall|m: (u16, u16)|
                    #[trigger] unit_step((c.0, c.1), m) && free@.contains(ck(m)) && !taken.contains(
                        ek(edge_of((c.0, c.1), m)),
                    ) && step_code((c.0, c.1), m) <= k + 1 && !closed@.contains(sk(m, step_code((c.0, c.1), m))) implies g_score@.contains_key(
                    sk(m, step_code((c.0, c.1), m)),
                ) && g_score@[sk(m, step_code((c.0, c.1), m))] <= g + step_cost(c.2, step_code((c.0, c.1), m), m, bend_penalty as int, crossing_penalty as int, occ.cells@) by {
                    if step_code((c.0, c.1), m) > k {
                        lemma_step_dir((c.0, c.1), m, code, dx, dy);
                        assert(m == gn);
                    }
                }
                assert forall|m: (u16, u16)|
                    #[trigger] unit_step((c.0, c.1), m) && free@.contains(ck(m)) && !taken.contains(
                        ek(edge_of((c.0, c.1), m)),
                    ) && step_code((c.0, c.1), m) <= k + 1 implies g_score@.contains_key(
                    sk(m, step_code((c.0, c.1), m)),
                ) by {
                    if step_code((c.0, c.1), m) <= k {
                        assert(g_before.contains_key(sk(m, step_code((c.0, c.1), m))));
                    } else {
                        lemma_step_dir((c.0, c.1), m, code, dx, dy);
                        assert(m == gn);
                    }
                }
            }
            k = k + 1;
        }
        proof {
            assert forall|q: u64| #[trigger] closed@.contains(q) && q != 0x8_0000_0000 implies g_score@.contains_key(q)
                && info@.contains_key(q) && (info@[q].0, info@[q].1) != goal && expanded_upto(
                free@,
                taken,
                g_score@,
                (info@[q].0, info@[q].1),
                4,
            ) by {
                if q == s {
                    assert(info@[q] == c);
                }
            }
            assert forall|u: u64| #[trigger] closed@.contains(u) && u != 0x8_0000_0000 implies info@.contains_key(u)
                && g_score@.contains_key(u) && relaxed_upto(free@, taken, g_score@, closed@, occ.cells@, bend_penalty as int, crossing_penalty as int, (info@[u].0, info@[u].1), info@[u].2, g_score@[u] as int, 4) by {
                if u == s {
                    assert(info@[u] == c);
                }
            }
        }
    }
    proof {
        assert forall|q: u64| #[trigger] closed@.contains(q) implies q < 0x8_0000_0000 by {
            lemma_state(free@, taken, start, g_score@, came@, info@, closed@, q);
            lemma_sk_bound((info@[q].0, info@[q].1), info@[q].2);
        }
        lemma_state_space(closed@);
    }
    None
}


/// Find an orthogonal path of free cells from `start` to `goal`, preferring few
/// corners: each step costs 1 and each turn `bend_penalty` more.  `None` exactly when
/// no such path exists (in particular when either end is not free); a path found runs
/// from `start` to `goal` through free cells in unit steps, and no such path costs
/// less.
pub fn route(free: &HashSet<u32>, start: (u16, u16), goal: (u16, u16), bend_penalty: u32) -> (r: Option<
    Vec<(u16, u16)>,
>)
    ensures
        !free@.contains(ck(start)) || !free@.contains(ck(goal)) ==> r is None,
        free@.contains(ck(start)) && free@.contains(ck(goal)) && start == goal ==> (r matches Some(p)
            && p@ == seq![start]),
        r matches Some(p) ==> valid_route(free@, Set::empty(), start, goal, p@),
        r is Some <==> route_exists(free@, Set::empty(), start, goal),
        r matches Some(p) ==> forall|q: Seq<(u16, u16)>|
            #[trigger] valid_route(free@, Set::empty(), start, goal, q) ==> route_cost(p@, bend_penalty as int, 0, Set::empty())
                <= route_cost(q, bend_penalty as int, 0, Set::empty()),
{
    let occ = Occupancy { edges: HashSet::new(), cells: HashSet::new() };
    proof {
        assert(occ.edges@ =~= Set::<u64>::empty());
        assert(occ.cells@ =~= Set::<u32>::empty());
    }
    astar(free, start, goal, bend_penalty, &occ, 0)
}

/// A routed connector: its path, and the directions from each end toward its socket.
#[derive(Debug, Clone, PartialEq, Eq)]
pub struct Connector {
    /// Cells from the start socket's attach cell to the goal's, in unit steps.
    pub path: Vec<(u16, u16)>,
    /// Direction from the first cell toward its socket.
    pub from: Direction,
    /// Direction from the last cell toward its socket.
    pub to: Direction,
}

impl Connector {
    /// Route a connector between two attach cells, as [`route`] does; `from` and `to`
    /// are the directions from each end toward its socket.
    pub fn route(
        free: &HashSet<u32>,
        start: (u16, u16),
        goal: (u16, u16),
        bend_penalty: u32,
        from: Direction,
        to: Direction,
    ) -> (r: Option<Connector>)
        ensures
            !free@.contains(ck(start)) || !free@.contains(ck(goal)) ==> r is None,
            free@.contains(ck(start)) && free@.contains(ck(goal)) && start == goal ==> (r matches Some(c)
                && c.path@ == seq![start]),
            r matches Some(c) ==> valid_route(free@, Set::empty(), start, goal, c.path@) && c.from == from
                && c.to == to,
            r is Some <==> route_exists(free@, Set::empty(), start, goal),
            r matches Some(c) ==> forall|q: Seq<(u16, u16)>|
                #[trigger] valid_route(free@, Set::empty(), start, goal, q) ==> route_cost(c.path@, bend_penalty as int, 0, Set::empty())
                    <= route_cost(q, bend_penalty as int, 0, Set::empty()),
    {
        match route(free, start, goal, bend_penalty) {
            Some(path) => Some(Connector { path, from, to }),
            None => None,
        }
    }
}

/// One wire to route between two attach cells, with the directions from each end
/// toward its socket.
#[derive(Debug, Clone, Copy, PartialEq, Eq)]
pub struct RouteRequest {
    pub start: (u16, u16),
    pub goal: (u16, u16),
    pub from: Direction,
    pub to: Direction,
}

impl RouteRequest {
    /// A request from `start` to `goal`.
    pub fn new(start: (u16, u16), goal: (u16, u16), from: Direction, to: Direction) -> (r: Self)
        ensures
            r == (RouteRequest { start, goal, from, to }),
    {
        RouteRequest { start, goal, from, to }
    }
}

impl Occupancy {
    /// Record every edge and cell of `path` as taken.
    fn add(&mut self, path: &Vec<(u16, u16)>)
        requires
            forall|i: int| 0 <= i < path@.len() - 1 ==> unit_step(#[trigger] path@[i], path@[i + 1]),
        ensures
            final(self).edges@ == old(self).edges@.union(path_edges(path@)),
            final(self).cells@ == old(self).cells@.union(path_cells(path@)),
    {
        let ghost c0 = self.cells@;
        let ghost e0 = self.edges@;
        let m: usize = if path.len() >= 1 {
            path.len() - 1
        } else {
            0
        };
        let mut i: usize = 0;
        while i < m
            invariant
                forall|j: int| 0 <= j < path@.len() - 1 ==> unit_step(#[trigger] path@[j], path@[j + 1]),
                m == (if path@.len() >= 1 { path@.len() - 1 } else { 0 }),
                i <= m,
                self.cells@ == c0,
                self.edges@ == e0.union(Set::new(|k: u64| exists|j: int| 0 <= j < i && k == ek(edge_of(#[trigger] path@[j], path@[j + 1])))),
            decreases path@.len() - i,
        {
            let ghost before = self.edges@;
            self.edges.insert(edge_key(path[i], path[i + 1]));
            proof {
                assert(self.edges@ =~= e0.union(Set::new(|k: u64| exists|j: int| 0 <= j < i + 1 && k == ek(edge_of(#[trigger] path@[j], path@[j + 1]))))) by {
                    assert forall|k: u64| self.edges@.contains(k) <==> e0.union(Set::new(|k: u64| exists|j: int| 0 <= j < i + 1 && k == ek(edge_of(#[trigger] path@[j], path@[j + 1])))).contains(k) by {
                        if k == ek(edge_of(path@[i as int], path@[i + 1])) {
                        }
                    }
                }
            }
            i = i + 1;
        }
        proof {
            assert(self.edges@ =~= e0.union(path_edges(path@))) by {
                assert forall|k: u64| self.edges@.contains(k) <==> e0.union(path_edges(path@)).contains(k) by {
                    if path_edges(path@).contains(k) {
                        let j = choose|j: int| 0 <= j < path@.len() - 1 && k == ek(edge_of(#[trigger] path@[j], path@[j + 1]));
                        assert(j < i);
                    }
                }
            }
        }
        proof {
            assert(self.cells@ =~= c0.union(Set::new(|k: u32| exists|i: int| 0 <= i < 0 && k == ck(#[trigger] path@[i]))));
        }
        let mut j: usize = 0;
        while j < path.len()
            invariant
                self.edges@ == e0.union(path_edges(path@)),
                j <= path@.len(),
                self.cells@ == c0.union(Set::new(|k: u32| exists|i: int| 0 <= i < j && k == ck(#[trigger] path@[i]))),
            decreases path@.len() - j,
        {
            self.cells.insert(cell_key(path[j]));
            proof {
                assert(self.cells@ =~= c0.union(Set::new(|k: u32| exists|i: int| 0 <= i < j + 1 && k == ck(#[trigger] path@[i])))) by {
                    assert forall|k: u32| self.cells@.contains(k) <==> c0.union(Set::new(|k: u32| exists|i: int| 0 <= i < j + 1 && k == ck(#[trigger] path@[i]))).contains(k) by {
                        if k == ck(path@[j as int]) {
                        }
                    }
                }
            }
            j = j + 1;
        }
        proof {
            assert(self.cells@ =~= c0.union(path_cells(path@)));
        }
    }
}

/// Route many connectors in turn with nudging: each request is routed over `free` but
/// may not run along an edge an earlier wire took, and crossing an earlier wire costs
/// `crossing_penalty` more.  One entry per request, in order; `None` exactly where no
/// route for that wire exists.  Every wire found runs from its start to its goal
/// through free cells in unit steps, along no edge of an earlier wire, and no such
/// route costs less, counting `crossing_penalty` for each cell of an earlier wire it
/// enters.
pub fn route_all(
    free: &HashSet<u32>,
    requests: &[RouteRequest],
    bend_penalty: u32,
    crossing_penalty: u32,
) -> (out: Vec<Option<Connector>>)
    ensures
        out@.len() == requests@.len(),
        forall|i: int|
            0 <= i < out@.len() ==> match #[trigger] out@[i] {
                Some(c) => valid_route(free@, earlier_edges(out@, i), requests@[i].start, requests@[i].goal, c.path@)
                    && c.from == requests@[i].from && c.to == requests@[i].to && forall|q: Seq<(u16, u16)>|
                    #[trigger] valid_route(free@, earlier_edges(out@, i), requests@[i].start, requests@[i].goal, q)
                        ==> route_cost(c.path@, bend_penalty as int, crossing_penalty as int, earlier_cells(out@, i))
                        <= route_cost(q, bend_penalty as int, crossing_penalty as int, earlier_cells(out@, i)),
                None => !route_exists(free@, earlier_edges(out@, i), requests@[i].start, requests@[i].goal),
            },
{
    let mut occ = Occupancy { edges: HashSet::new(), cells: HashSet::new() };
    let mut out: Vec<Option<Connector>> = Vec::new();
    let mut i: usize = 0;
    proof {
        assert(occ.edges@ =~= earlier_edges(out@, 0));
        assert(occ.cells@ =~= earlier_cells(out@, 0));
    }
    while i < requests.len()
        invariant
            i <= requests@.len(),
            out@.len() == i,
            occ.edges@ == earlier_edges(out@, i as int),
            occ.cells@ == earlier_cells(out@, i as int),
            forall|k: int|
                0 <= k < out@.len() ==> match #[trigger] out@[k] {
                    Some(c) => valid_route(free@, earlier_edges(out@, k), requests@[k].start, requests@[k].goal, c.path@)
                        && c.from == requests@[k].from && c.to == requests@[k].to && forall|q: Seq<(u16, u16)>|
                        #[trigger] valid_route(free@, earlier_edges(out@, k), requests@[k].start, requests@[k].goal, q)
                            ==> route_cost(c.path@, bend_penalty as int, crossing_penalty as int, earlier_cells(out@, k))
                            <= route_cost(q, bend_penalty as int, crossing_penalty as int, earlier_cells(out@, k)),
                    None => !route_exists(free@, earlier_edges(out@, k), requests@[k].start, requests@[k].goal),
                },
        decreases requests@.len() - i,
    {
        let req = requests[i];
        let ghost out0 = out@;
        match astar(free, req.start, req.goal, bend_penalty, &occ, crossing_penalty) {
            Some(path) => {
                occ.add(&path);
                out.push(Some(Connector { path, from: req.from, to: req.to }));
                proof {
                    lemma_earlier_push(out0, out@[i as int], i as int);
                    lemma_earlier_cells_prefix(out0, out@, i as int);
                }
            },
            None => {
                out.push(None);
                proof {
                    lemma_earlier_push(out0, None, i as int);
                    lemma_earlier_cells_prefix(out0, out@, i as int);
                }
            },
        }
        proof {
            assert forall|k: int| 0 <= k < out@.len() implies match #[trigger] out@[k] {
                Some(c) => valid_route(free@, earlier_edges(out@, k), requests@[k].start, requests@[k].goal, c.path@)
                    && c.from == requests@[k].from && c.to == requests@[k].to && forall|q: Seq<(u16, u16)>|
                    #[trigger] valid_route(free@, earlier_edges(out@, k), requests@[k].start, requests@[k].goal, q)
                        ==> route_cost(c.path@, bend_penalty as int, crossing_penalty as int, earlier_cells(out@, k))
                        <= route_cost(q, bend_penalty as int, crossing_penalty as int, earlier_cells(out@, k)),
                None => !route_exists(free@, earlier_edges(out@, k), requests@[k].start, requests@[k].goal),
            } by {
                if k < i {
                    assert(out@[k] == out0[k]);
                    lemma_earlier_prefix(out0, out@, k);
                    lemma_earlier_cells_prefix(out0, out@, k);
                } else {
                    lemma_earlier_prefix(out0, out@, k);
                    lemma_earlier_cells_prefix(out0, out@, k);
                }
            }
        }
        i = i + 1;
    }
    out
}

/// The edges of the wires found among the first `k` entries.
pub open spec fn earlier_edges(out: Seq<Option<Connector>>, k: int) -> Set<u64>
    decreases k,
{
    if k <= 0 {
        Set::empty()
    } else {
        earlier_edges(out, k - 1).union(
            match out[k - 1] {
                Some(c) => path_edges(c.path@),
                None => Set::empty(),
            },
        )
    }
}

/// The cells of the wires found among the first `k` entries.
pub open spec fn earlier_cells(out: Seq<Option<Connector>>, k: int) -> Set<u32>
    decreases k,
{
    if k <= 0 {
        Set::empty()
    } else {
        earlier_cells(out, k - 1).union(
            match out[k - 1] {
                Some(c) => path_cells(c.path@),
                None => Set::empty(),
            },
        )
    }
}

proof fn lemma_earlier_cells_prefix(a: Seq<Option<Connector>>, b: Seq<Option<Connector>>, k: int)
    requires
        0 <= k <= a.len(),
        k <= b.len(),
        forall|i: int| 0 <= i < k ==> a[i] == b[i],
    ensures
        earlier_cells(a, k) == earlier_cells(b, k),
    decreases k,
{
    if k > 0 {
        lemma_earlier_cells_prefix(a, b, k - 1);
    }
}

proof fn lemma_earlier_prefix(a: Seq<Option<Connector>>, b: Seq<Option<Connector>>, k: int)
    requires
        0 <= k <= a.len(),
        k <= b.len(),
        forall|i: int| 0 <= i < k ==> a[i] == b[i],
    ensures
        earlier_edges(a, k) == earlier_edges(b, k),
    decreases k,
{
    if k > 0 {
        lemma_earlier_prefix(a, b, k - 1);
    }
}

proof fn lemma_earlier_push(a: Seq<Option<Connector>>, x: Option<Connector>, k: int)
    requires
        k == a.len(),
    ensures
        earlier_edges(a.push(x), k + 1) == earlier_edges(a, k).union(
            match x {
                Some(c) => path_edges(c.path@),
                None => Set::empty(),
            },
        ),
{
    lemma_earlier_prefix(a, a.push(x), k);
}

/// Wires routed together never share an edge: no wire runs along another's track.
pub proof fn lemma_routed_wires_edge_disjoint(free: Set<u32>, requests: Seq<RouteRequest>, out: Seq<Option<Connector>>, i: int, j: int, e: u64)
    requires
        out.len() == requests.len(),
        forall|k: int|
            0 <= k < out.len() ==> match #[trigger] out[k] {
                Some(c) => valid_route(free, earlier_edges(out, k), requests[k].start, requests[k].goal, c.path@),
                None => true,
            },
        0 <= i < j < out.len(),
        out[i] is Some,
        out[j] is Some,
    ensures
        !(path_edges(out[i]->0.path@).contains(e) && path_edges(out[j]->0.path@).contains(e)),
{
    lemma_earlier_contains(out, i, j);
    if path_edges(out[j]->0.path@).contains(e) {
        let p = out[j]->0.path@;
        let q = choose|q: int| 0 <= q < p.len() - 1 && e == ek(edge_of(#[trigger] p[q], p[q + 1]));
        assert(match out[j] {
            Some(c) => valid_route(free, earlier_edges(out, j), requests[j].start, requests[j].goal, c.path@),
            None => true,
        });
        assert(!earlier_edges(out, j).contains(ek(edge_of(p[q], p[q + 1]))));
    }
}

proof fn lemma_earlier_contains(out: Seq<Option<Connector>>, i: int, j: int)
    requires
        0 <= i < j <= out.len(),
        out[i] is Some,
    ensures
        path_edges(out[i]->0.path@).subset_of(earlier_edges(out, j)),
    decreases j,
{
    if j > i + 1 {
        lemma_earlier_contains(out, i, j - 1);
    }
}

/// `(x, y)` lies in one of the rects of `skip`.
pub open spec fn skipped(skip: Seq<Rect>, x: int, y: int) -> bool {
    exists|i: int| 0 <= i < skip.len() && #[trigger] skip[i].contains_spec(x, y)
}

/// The colour of the cell with key `k`: its net's, else the plain style.
pub open spec fn wire_style(col: Map<u32, Style>, k: u32) -> Style {
    if col.contains_key(k) {
        col[k]
    } else {
        plain_style()
    }
}

/// The cells after drawing the first `n` cells of canvas row `y` (from column `x0`) of
/// grid `g`: each cell outside `skip` whose arms resolve to a glyph is written at its
/// place relative to `origin`, in its net's colour.
pub open spec fn wire_row_fold(
    v: Seq<CellView>,
    barea: Rect,
    g: EdgeGrid,
    canvas: Rect,
    origin: (u16, u16),
    skip: Seq<Rect>,
    col: Map<u32, Style>,
    y: int,
    n: int,
) -> Seq<CellView>
    decreases n,
{
    if n <= 0 {
        v
    } else {
        let prev = wire_row_fold(v, barea, g, canvas, origin, skip, col, y, n - 1);
        let x = canvas.x + n - 1;
        if skipped(skip, x, y) {
            prev
        } else {
            match resolve_spec(g.cell_at(x, y)) {
                Some(ch) => put_grapheme(
                    prev,
                    barea,
                    origin.0 + (x - canvas.x),
                    origin.1 + (y - canvas.y),
                    seq![ch],
                    wire_style(col, ck((x as u16, y as u16))),
                ).0,
                None => prev,
            }
        }
    }
}

/// The cells after drawing the first `rows` rows of the canvas.
pub open spec fn wire_fold(
    v: Seq<CellView>,
    barea: Rect,
    g: EdgeGrid,
    canvas: Rect,
    origin: (u16, u16),
    skip: Seq<Rect>,
    col: Map<u32, Style>,
    rows: int,
) -> Seq<CellView>
    decreases rows,
{
    if rows <= 0 {
        v
    } else {
        wire_row_fold(
            wire_fold(v, barea, g, canvas, origin, skip, col, rows - 1),
            barea,
            g,
            canvas,
            origin,
            skip,
            col,
            canvas.y + rows - 1,
            canvas.width as int,
        )
    }
}

/// The neighbour of `cell` one step in `dir`, when it lies in the coordinate space.
pub open spec fn stub_end(cell: (u16, u16), dir: Direction) -> Option<(u16, u16)> {
    let (dx, dy): (int, int) = match dir {
        Direction::Up => (0, -1),
        Direction::Down => (0, 1),
        Direction::Left => (-1, 0),
        Direction::Right => (1, 0),
    };
    let nx = cell.0 + dx;
    let ny = cell.1 + dy;
    if nx < 0 || ny < 0 || nx > 0xffff || ny > 0xffff {
        None
    } else {
        Some((nx as u16, ny as u16))
    }
}

/// Add a one-cell arm at `cell` pointing in `dir`, toward the socket: the line from
/// `cell` to its neighbour that way, when the neighbour lies in the coordinate space.
fn stub(grid: &mut EdgeGrid, cell: (u16, u16), dir: Direction, weight: LineWeight)
    requires
        old(grid).wf(),
        old(grid).region().fits(),
    ensures
        final(grid).wf(),
        final(grid).region() == old(grid).region(),
        stub_end(cell, dir) is None ==> *final(grid) == *old(grid),
        stub_end(cell, dir) matches Some(n) ==> forall|xx: int, yy: int|
            in_area(old(grid).region(), xx, yy) ==> final(grid).cell_at(xx, yy) == match dir {
                Direction::Left | Direction::Right => h_line_effect(
                    old(grid).region(),
                    if cell.0 <= n.0 { cell.0 } else { n.0 },
                    if cell.0 <= n.0 { n.0 } else { cell.0 },
                    cell.1,
                    weight,
                    xx,
                    yy,
                    old(grid).cell_at(xx, yy),
                ),
                Direction::Up | Direction::Down => v_line_effect(
                    old(grid).region(),
                    if cell.1 <= n.1 { cell.1 } else { n.1 },
                    if cell.1 <= n.1 { n.1 } else { cell.1 },
                    cell.0,
                    weight,
                    xx,
                    yy,
                    old(grid).cell_at(xx, yy),
                ),
            },
{
    let (dx, dy) = dir.delta();
    let nx = cell.0 as i32 + dx;
    let ny = cell.1 as i32 + dy;
    if nx < 0 || ny < 0 || nx > 0xffff || ny > 0xffff {
        return;
    }
    let n = (nx as u16, ny as u16);
    match dir {
        Direction::Left | Direction::Right => {
            let lo = if cell.0 <= n.0 {
                cell.0
            } else {
                n.0
            };
            let hi = if cell.0 <= n.0 {
                n.0
            } else {
                cell.0
            };
            grid.add_h_line(lo, hi, cell.1, weight);
        },
        Direction::Up | Direction::Down => {
            let lo = if cell.1 <= n.1 {
                cell.1
            } else {
                n.1
            };
            let hi = if cell.1 <= n.1 {
                n.1
            } else {
                cell.1
            };
            grid.add_v_line(lo, hi, cell.0, weight);
        },
    }
}

/// The line between consecutive path cells `a` and `b`: along their shared row, or
/// else along their shared column.
pub open spec fn seg_op(a: (u16, u16), b: (u16, u16)) -> LineOp {
    if a.1 == b.1 {
        (false, if a.0 <= b.0 { a.0 } else { b.0 }, if a.0 <= b.0 { b.0 } else { a.0 }, a.1)
    } else {
        (true, if a.1 <= b.1 { a.1 } else { b.1 }, if a.1 <= b.1 { b.1 } else { a.1 }, a.0)
    }
}

/// The lines of the first `j` steps of path `p`.
pub open spec fn path_ops(p: Seq<(u16, u16)>, j: int) -> Seq<LineOp>
    decreases j,
{
    if j <= 0 {
        Seq::empty()
    } else {
        path_ops(p, j - 1).push(seg_op(p[j - 1], p[j]))
    }
}

/// The one-cell arm at `cell` toward `dir`, when the neighbour that way lies in the
/// coordinate space.
pub open spec fn stub_ops(cell: (u16, u16), dir: Direction) -> Seq<LineOp> {
    match stub_end(cell, dir) {
        None => Seq::empty(),
        Some(n) => match dir {
            Direction::Left | Direction::Right => seq![
                (false, if cell.0 <= n.0 { cell.0 } else { n.0 }, if cell.0 <= n.0 { n.0 } else { cell.0 }, cell.1),
            ],
            Direction::Up | Direction::Down => seq![
                (true, if cell.1 <= n.1 { cell.1 } else { n.1 }, if cell.1 <= n.1 { n.1 } else { cell.1 }, cell.0),
            ],
        },
    }
}

/// The lines of a connector: its path's steps, then the stubs at its two ends.
pub open spec fn connector_ops(c: Connector) -> Seq<LineOp> {
    path_ops(c.path@, c.path@.len() - 1) + stub_ops(c.path@[0], c.from) + stub_ops(
        c.path@[c.path@.len() - 1],
        c.to,
    )
}

/// The lines of the first `i` connectors, in order.
pub open spec fn wires_ops(cs: Seq<Connector>, i: int) -> Seq<LineOp>
    decreases i,
{
    if i <= 0 {
        Seq::empty()
    } else {
        wires_ops(cs, i - 1) + connector_ops(cs[i - 1])
    }
}

/// The style of connector `i`: its entry of `styles`, or plain.
pub open spec fn style_of(styles: Seq<Style>, i: int) -> Style {
    if i < styles.len() {
        styles[i]
    } else {
        plain_style()
    }
}

/// `m` with the first `k` cells of path `p` coloured `st`.
pub open spec fn path_colors(m: Map<u32, Style>, p: Seq<(u16, u16)>, st: Style, k: int) -> Map<u32, Style>
    decreases k,
{
    if k <= 0 {
        m
    } else {
        path_colors(m, p, st, k - 1).insert(ck(p[k - 1]), st)
    }
}

/// The colours of the cells of the first `i` connectors: each cell takes the style of
/// the last connector through it.
pub open spec fn wire_colors(cs: Seq<Connector>, styles: Seq<Style>, i: int) -> Map<u32, Style>
    decreases i,
{
    if i <= 0 {
        Map::empty()
    } else {
        path_colors(wire_colors(cs, styles, i - 1), cs[i - 1].path@, style_of(styles, i - 1), cs[i - 1].path@.len() as int)
    }
}

/// What [`stub`] promises makes the grid `g1` with the stub's line laid.
proof fn lemma_stub_after(g1: EdgeGrid, g2: EdgeGrid, cell: (u16, u16), dir: Direction, weight: LineWeight)
    requires
        g2.region() == g1.region(),
        stub_end(cell, dir) is None ==> g2 == g1,
        stub_end(cell, dir) matches Some(n) ==> forall|xx: int, yy: int|
            in_area(g1.region(), xx, yy) ==> #[trigger] g2.cell_at(xx, yy) == match dir {
                Direction::Left | Direction::Right => h_line_effect(
                    g1.region(),
                    if cell.0 <= n.0 { cell.0 } else { n.0 },
                    if cell.0 <= n.0 { n.0 } else { cell.0 },
                    cell.1,
                    weight,
                    xx,
                    yy,
                    g1.cell_at(xx, yy),
                ),
                Direction::Up | Direction::Down => v_line_effect(
                    g1.region(),
                    if cell.1 <= n.1 { cell.1 } else { n.1 },
                    if cell.1 <= n.1 { n.1 } else { cell.1 },
                    cell.0,
                    weight,
                    xx,
                    yy,
                    g1.cell_at(xx, yy),
                ),
            },
    ensures
        grid_after(g1, g2, stub_ops(cell, dir), weight),
{
    match stub_end(cell, dir) {
        None => {
            lemma_grid_after_empty(g1, weight);
        },
        Some(n) => {
            let o = stub_ops(cell, dir)[0];
            assert(stub_ops(cell, dir) == seq![o]);
            lemma_grid_after_line(g1, g2, o, weight);
        },
    }
}

/// Render `connectors` (in canvas coordinates, the canvas's origin drawn at screen
/// `origin`) colour-per-net: every path and its two socket stubs are laid into one
/// edge grid over `canvas`, so turns and crossings resolve to the right glyph;
/// `styles[i]` colours connector `i` (plain when missing) and a crossing takes the
/// later net's colour.  Cells inside a `skip` rect are not drawn.
#[verifier::rlimit(60)]
#[verifier::spinoff_prover]
pub fn render(
    buf: &mut Buffer,
    canvas: Rect,
    origin: (u16, u16),
    connectors: &[Connector],
    styles: &[Style],
    skip: &[Rect],
    weight: LineWeight,
)
    requires
        old(buf).wf(),
        canvas.fits(),
        origin.0 + canvas.width <= u16::MAX,
        origin.1 + canvas.height <= u16::MAX,
        forall|i: int| 0 <= i < connectors@.len() ==> (#[trigger] connectors@[i]).path@.len() >= 1,
    ensures
        final(buf).wf(),
        final(buf).area == old(buf).area,
        exists|g: EdgeGrid, col: Map<u32, Style>|
            #![trigger wire_fold(old(buf).view(), old(buf).area, g, canvas, origin, skip@, col, canvas.height as int)]
            g.wf() && g.region() == canvas && col == wire_colors(connectors@, styles@, connectors@.len() as int)
                && (forall|x: int, y: int|
                in_area(canvas, x, y) ==> #[trigger] g.cell_at(x, y) == ops_cell(
                    canvas,
                    wires_ops(connectors@, connectors@.len() as int),
                    weight,
                    x,
                    y,
                    bare_cell(),
                )) && final(buf).view() == wire_fold(
                old(buf).view(),
                old(buf).area,
                g,
                canvas,
                origin,
                skip@,
                col,
                canvas.height as int,
            ),
{
    let mut grid = EdgeGrid::new(canvas);
    let mut colors: HashMap<u32, Style> = HashMap::new();
    let ghost g0 = grid;
    proof {
        lemma_grid_after_empty(g0, weight);
        assert(colors@ =~= wire_colors(connectors@, styles@, 0));
    }
    let mut i: usize = 0;
    while i < connectors.len()
        invariant
            g0.region() == canvas,
            forall|x: int, y: int| in_area(canvas, x, y) ==> #[trigger] g0.cell_at(x, y) == bare_cell(),
            grid_after(g0, grid, wires_ops(connectors@, i as int), weight),
            colors@ == wire_colors(connectors@, styles@, i as int),
            i <= connectors@.len(),
            grid.wf(),
            grid.region() == canvas,
            canvas.fits(),
            forall|q: int| 0 <= q < connectors@.len() ==> (#[trigger] connectors@[q]).path@.len() >= 1,
        decreases connectors@.len() - i,
    {
        let style = if i < styles.len() {
            styles[i]
        } else {
            Style::default()
        };
        let c = &connectors[i];
        let plen = c.path.len();
        let mut j: usize = 0;
        let ghost wi = wires_ops(connectors@, i as int);
        proof {
            assert(wi + path_ops(c.path@, 0) =~= wi);
        }
        while j + 1 < plen
            invariant
                g0.region() == canvas,
                grid_after(g0, grid, wi + path_ops(c.path@, j as int), weight),
                grid.wf(),
                grid.region() == canvas,
                canvas.fits(),
                plen == c.path@.len(),
                c.path@.len() >= 1,
                j < plen,
            decreases c.path@.len() - j,
        {
            let a = c.path[j];
            let b = c.path[j + 1];
            let ghost ga = grid;
            if a.1 == b.1 {
                let lo = if a.0 <= b.0 {
                    a.0
                } else {
                    b.0
                };
                let hi = if a.0 <= b.0 {
                    b.0
                } else {
                    a.0
                };
                grid.add_h_line(lo, hi, a.1, weight);
            } else {
                let lo = if a.1 <= b.1 {
                    a.1
                } else {
                    b.1
                };
                let hi = if a.1 <= b.1 {
                    b.1
                } else {
                    a.1
                };
                grid.add_v_line(lo, hi, a.0, weight);
            }
            proof {
                lemma_grid_after_line(ga, grid, seg_op(a, b), weight);
                lemma_grid_after_trans(g0, ga, grid, wi + path_ops(c.path@, j as int), seq![seg_op(a, b)], weight);
                assert(wi + path_ops(c.path@, j as int) + seq![seg_op(a, b)] =~= wi + path_ops(c.path@, j + 1));
            }
            j = j + 1;
        }
        let ghost gp = grid;
        let ghost pp = wi + path_ops(c.path@, c.path@.len() - 1);
        proof {
            assert(j == c.path@.len() - 1);
        }
        stub(&mut grid, c.path[0], c.from, weight);
        let ghost gs = grid;
        proof {
            lemma_stub_after(gp, gs, c.path@[0], c.from, weight);
            lemma_grid_after_trans(g0, gp, gs, pp, stub_ops(c.path@[0], c.from), weight);
        }
        stub(&mut grid, c.path[c.path.len() - 1], c.to, weight);
        proof {
            lemma_stub_after(gs, grid, c.path@[c.path@.len() - 1], c.to, weight);
            lemma_grid_after_trans(g0, gs, grid, pp + stub_ops(c.path@[0], c.from), stub_ops(c.path@[c.path@.len() - 1], c.to), weight);
            assert(pp + stub_ops(c.path@[0], c.from) + stub_ops(c.path@[c.path@.len() - 1], c.to) =~= wires_ops(
                connectors@,
                i + 1,
            ));
            assert(style == style_of(styles@, i as int));
        }
        let ghost m0 = colors@;
        let mut k: usize = 0;
        while k < c.path.len()
            invariant
                colors@ == path_colors(m0, c.path@, style, k as int),
                k <= c.path@.len(),
            decreases c.path@.len() - k,
        {
            colors.insert(cell_key(c.path[k]), style);
            k = k + 1;
        }
        i = i + 1;
    }
    proof {
        assert forall|x: int, y: int| in_area(canvas, x, y) implies #[trigger] grid.cell_at(x, y) == ops_cell(
            canvas,
            wires_ops(connectors@, connectors@.len() as int),
            weight,
            x,
            y,
            bare_cell(),
        ) by {
            assert(g0.cell_at(x, y) == bare_cell());
        }
    }
    let ghost g = grid;
    let ghost col = colors@;
    let ghost v0 = buf.view();
    let ghost barea = buf.area;
    let mut y = canvas.y;
    while y < canvas.y + canvas.height
        invariant
            buf.wf(),
            buf.area == barea,
            canvas.fits(),
            origin.0 + canvas.width <= u16::MAX,
            origin.1 + canvas.height <= u16::MAX,
            grid == g,
            g.wf(),
            g.region() == canvas,
            colors@ == col,
            canvas.y <= y <= canvas.y + canvas.height,
            buf.view() == wire_fold(v0, barea, g, canvas, origin, skip@, col, y - canvas.y),
        decreases canvas.y + canvas.height - y,
    {
        let mut x = canvas.x;
        while x < canvas.x + canvas.width
            invariant
                buf.wf(),
                buf.area == barea,
                canvas.fits(),
                origin.0 + canvas.width <= u16::MAX,
                origin.1 + canvas.height <= u16::MAX,
                grid == g,
                g.wf(),
                g.region() == canvas,
                colors@ == col,
                canvas.y <= y < canvas.y + canvas.height,
                canvas.x <= x <= canvas.x + canvas.width,
                buf.view() == wire_row_fold(
                    wire_fold(v0, barea, g, canvas, origin, skip@, col, y - canvas.y),
                    barea,
                    g,
                    canvas,
                    origin,
                    skip@,
                    col,
                    y as int,
                    x - canvas.x,
                ),
            decreases canvas.x + canvas.width - x,
        {
            let mut in_skip = false;
            let mut q: usize = 0;
            while q < skip.len()
                invariant
                    q <= skip@.len(),
                    in_skip <==> exists|t: int| 0 <= t < q && #[trigger] skip@[t].contains_spec(x as int, y as int),
                decreases skip@.len() - q,
            {
                if skip[q].contains(x, y) {
                    in_skip = true;
                }
                q = q + 1;
            }
            if !in_skip {
                match grid.get(x, y) {
                    Some(cell) => match resolve(cell) {
                        Some(ch) => {
                            let style = match colors.get(&cell_key((x, y))) {
                                Some(st) => *st,
                                None => Style::default(),
                            };
                            let sx = origin.0 + (x - canvas.x);
                            let sy = origin.1 + (y - canvas.y);
                            let mut text = String::new();
                            append_char(&mut text, ch);
                            proof {
                                assert(text@ =~= seq![ch]);
                            }
                            let _ = buf.set_grapheme(sx, sy, text.as_str(), style);
                        },
                        None => {},
                    },
                    None => {},
                }
            }
            x = x + 1;
        }
        y = y + 1;
    }
}
} // verus!
