use vstd::prelude::*;

use crate::textops::str_equals;

verus! {

/// One line of an edit script.
#[derive(Debug, Clone, PartialEq, Eq)]
pub enum DiffOp<'a> {
    /// A line present, unchanged, in both inputs.
    Equal(&'a str),
    /// A line added in the new input.
    Insert(&'a str),
    /// A line removed from the old input.
    Delete(&'a str),
}

/// The length of a longest common subsequence of `a[i..]` and `b[j..]`.
pub open spec fn lcs(a: Seq<Seq<char>>, b: Seq<Seq<char>>, i: int, j: int) -> nat
    decreases (a.len() - i) + (b.len() - j),
{
    if i < 0 || j < 0 || i >= a.len() || j >= b.len() {
        0
    } else if a[i] == b[j] {
        1 + lcs(a, b, i + 1, j + 1)
    } else {
        let x = lcs(a, b, i + 1, j);
        let y = lcs(a, b, i, j + 1);
        if x >= y {
            x
        } else {
            y
        }
    }
}

/// The lines an edit script keeps from the old input: its `Equal` and `Delete` lines.
pub open spec fn old_side(ops: Seq<DiffOp>) -> Seq<Seq<char>>
    decreases ops.len(),
{
    if ops.len() == 0 {
        Seq::empty()
    } else {
        let rest = old_side(ops.drop_last());
        match ops.last() {
            DiffOp::Equal(t) => rest.push(t@),
            DiffOp::Delete(t) => rest.push(t@),
            DiffOp::Insert(_) => rest,
        }
    }
}

/// The lines an edit script gives the new input: its `Equal` and `Insert` lines.
pub open spec fn new_side(ops: Seq<DiffOp>) -> Seq<Seq<char>>
    decreases ops.len(),
{
    if ops.len() == 0 {
        Seq::empty()
    } else {
        let rest = new_side(ops.drop_last());
        match ops.last() {
            DiffOp::Equal(t) => rest.push(t@),
            DiffOp::Insert(t) => rest.push(t@),
            DiffOp::Delete(_) => rest,
        }
    }
}

/// The number of `Equal` lines of an edit script.
pub open spec fn equal_count(ops: Seq<DiffOp>) -> nat
    decreases ops.len(),
{
    if ops.len() == 0 {
        0
    } else {
        equal_count(ops.drop_last()) + match ops.last() {
            DiffOp::Equal(_) => 1nat,
            _ => 0nat,
        }
    }
}

/// The views of a list of lines.
pub open spec fn lines_view(s: Seq<&str>) -> Seq<Seq<char>> {
    s.map_values(|t: &str| t@)
}

proof fn lemma_lcs_bound(a: Seq<Seq<char>>, b: Seq<Seq<char>>, i: int, j: int)
    requires
        0 <= i <= a.len(),
        0 <= j <= b.len(),
    ensures
        lcs(a, b, i, j) <= a.len() - i,
    decreases (a.len() - i) + (b.len() - j),
{
    if i < a.len() && j < b.len() {
        lemma_lcs_bound(a, b, i + 1, j + 1);
        lemma_lcs_bound(a, b, i + 1, j);
        lemma_lcs_bound(a, b, i, j + 1);
    }
}

/// The LCS table: `dp[i][j]` is the length of a longest common subsequence of
/// `old[i..]` and `new[j..]`.
fn lcs_table(old: &[&str], new: &[&str]) -> (dp: Vec<Vec<u32>>)
    requires
        old@.len() < u32::MAX,
        new@.len() < usize::MAX,
    ensures
        dp@.len() == old@.len() + 1,
        forall|i: int|
            0 <= i <= old@.len() ==> (#[trigger] dp@[i])@.len() == new@.len() + 1,
        forall|i: int, j: int|
            0 <= i <= old@.len() && 0 <= j <= new@.len() ==> #[trigger] dp@[i]@[j] == lcs(
                lines_view(old@),
                lines_view(new@),
                i,
                j,
            ),
{
    let ghost a = lines_view(old@);
    let ghost b = lines_view(new@);
    let n = old.len();
    let m = new.len();
    let mut dp: Vec<Vec<u32>> = Vec::new();
    let mut k: usize = 0;
    while k <= n
        invariant
            n == old@.len(),
            m == new@.len(),
            n < u32::MAX,
            m < usize::MAX,
            k <= n + 1,
            dp@.len() == k,
            forall|r: int| 0 <= r < k ==> (#[trigger] dp@[r])@.len() == m + 1,
            forall|r: int, c: int| 0 <= r < k && 0 <= c <= m ==> #[trigger] dp@[r]@[c] == 0,
        decreases n + 1 - k,
    {
        let mut row: Vec<u32> = Vec::new();
        let mut c: usize = 0;
        while c <= m
            invariant
                m < usize::MAX,
                c <= m + 1,
                row@.len() == c,
                forall|q: int| 0 <= q < c ==> #[trigger] row@[q] == 0,
            decreases m + 1 - c,
        {
            row.push(0);
            c = c + 1;
        }
        dp.push(row);
        k = k + 1;
    }
    let mut i = n;
    while i > 0
        invariant
            n == old@.len(),
            m == new@.len(),
            n < u32::MAX,
            a == lines_view(old@),
            b == lines_view(new@),
            i <= n,
            dp@.len() == n + 1,
            forall|r: int| 0 <= r <= n ==> (#[trigger] dp@[r])@.len() == m + 1,
            forall|r: int, c: int|
                i <= r <= n && 0 <= c <= m ==> #[trigger] dp@[r]@[c] == lcs(a, b, r, c),
            forall|r: int, c: int| 0 <= r < i && 0 <= c <= m ==> #[trigger] dp@[r]@[c] == 0,
        decreases i,
    {
        i = i - 1;
        let mut j = m;
        while j > 0
            invariant
                n == old@.len(),
                m == new@.len(),
                n < u32::MAX,
                a == lines_view(old@),
                b == lines_view(new@),
                i < n,
                j <= m,
                dp@.len() == n + 1,
                forall|r: int| 0 <= r <= n ==> (#[trigger] dp@[r])@.len() == m + 1,
                forall|r: int, c: int|
                    i + 1 <= r <= n && 0 <= c <= m ==> #[trigger] dp@[r]@[c] == lcs(a, b, r, c),
                forall|c: int| j <= c <= m ==> #[trigger] dp@[i as int]@[c] == lcs(a, b, i as int, c),
                forall|r: int, c: int| 0 <= r < i && 0 <= c <= m ==> #[trigger] dp@[r]@[c] == 0,
            decreases j,
        {
            j = j - 1;
            proof {
                lemma_lcs_bound(a, b, i + 1, j + 1);
                lemma_lcs_bound(a, b, i as int, j as int);
            }
            let v = if str_equals(old[i], new[j]) {
                dp[i + 1][j + 1] + 1
            } else {
                let x = dp[i + 1][j];
                let y = dp[i][j + 1];
                if x >= y {
                    x
                } else {
                    y
                }
            };
            dp[i].set(j, v);
        }
    }
    dp
}

} // verus!

verus! {

/// Longest-common-subsequence line diff of `old` into `new`: an edit script whose
/// `Equal` and `Delete` lines are `old`, whose `Equal` and `Insert` lines are `new`,
/// and which keeps as many lines `Equal` as any common subsequence can.  Where a
/// line could go either way, the deletion comes first.
pub fn diff_lines<'a>(old: &'a [&'a str], new: &'a [&'a str]) -> (ops: Vec<DiffOp<'a>>)
    requires
        old@.len() < u32::MAX,
        new@.len() < usize::MAX,
    ensures
        old_side(ops@) == lines_view(old@),
        new_side(ops@) == lines_view(new@),
        equal_count(ops@) == lcs(lines_view(old@), lines_view(new@), 0, 0),
{
    let ghost a = lines_view(old@);
    let ghost b = lines_view(new@);
    let n = old.len();
    let m = new.len();
    let dp = lcs_table(old, new);
    let mut ops: Vec<DiffOp<'a>> = Vec::new();
    let mut i: usize = 0;
    let mut j: usize = 0;
    while i < n && j < m
        invariant
            n == old@.len(),
            m == new@.len(),
            a == lines_view(old@),
            b == lines_view(new@),
            i <= n,
            j <= m,
            dp@.len() == n + 1,
            forall|r: int| 0 <= r <= n ==> (#[trigger] dp@[r])@.len() == m + 1,
            forall|r: int, c: int|
                0 <= r <= n && 0 <= c <= m ==> #[trigger] dp@[r]@[c] == lcs(a, b, r, c),
            old_side(ops@) == a.take(i as int),
            new_side(ops@) == b.take(j as int),
            equal_count(ops@) + lcs(a, b, i as int, j as int) == lcs(a, b, 0, 0),
        decreases (n - i) + (m - j),
    {
        let ghost before = ops@;
        if str_equals(old[i], new[j]) {
            ops.push(DiffOp::Equal(old[i]));
            proof {
                assert(ops@.drop_last() =~= before);
                assert(a.take(i + 1) =~= a.take(i as int).push(a[i as int]));
                assert(b.take(j + 1) =~= b.take(j as int).push(b[j as int]));
            }
            i = i + 1;
            j = j + 1;
        } else if dp[i + 1][j] >= dp[i][j + 1] {
            ops.push(DiffOp::Delete(old[i]));
            proof {
                assert(ops@.drop_last() =~= before);
                assert(a.take(i + 1) =~= a.take(i as int).push(a[i as int]));
            }
            i = i + 1;
        } else {
            ops.push(DiffOp::Insert(new[j]));
            proof {
                assert(ops@.drop_last() =~= before);
                assert(b.take(j + 1) =~= b.take(j as int).push(b[j as int]));
            }
            j = j + 1;
        }
    }
    while i < n
        invariant
            n == old@.len(),
            m == new@.len(),
            a == lines_view(old@),
            b == lines_view(new@),
            i <= n,
            j <= m,
            i < n ==> j == m,
            old_side(ops@) == a.take(i as int),
            new_side(ops@) == b.take(j as int),
            equal_count(ops@) + lcs(a, b, i as int, j as int) == lcs(a, b, 0, 0),
        decreases n - i,
    {
        let ghost before = ops@;
        ops.push(DiffOp::Delete(old[i]));
        proof {
            assert(ops@.drop_last() =~= before);
            assert(a.take(i + 1) =~= a.take(i as int).push(a[i as int]));
        }
        i = i + 1;
    }
    while j < m
        invariant
            n == old@.len(),
            m == new@.len(),
            a == lines_view(old@),
            b == lines_view(new@),
            i == n,
            j <= m,
            old_side(ops@) == a.take(i as int),
            new_side(ops@) == b.take(j as int),
            equal_count(ops@) + lcs(a, b, i as int, j as int) == lcs(a, b, 0, 0),
        decreases m - j,
    {
        let ghost before = ops@;
        ops.push(DiffOp::Insert(new[j]));
        proof {
            assert(ops@.drop_last() =~= before);
            assert(b.take(j + 1) =~= b.take(j as int).push(b[j as int]));
        }
        j = j + 1;
    }
    proof {
        assert(a.take(n as int) =~= a);
        assert(b.take(m as int) =~= b);
    }
    ops
}

} // verus!
