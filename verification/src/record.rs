use vstd::prelude::*;

verus! {

broadcast use vstd::seq_lib::group_to_multiset_ensures;

/// A contiguous run of rows fetched from a record source, and whether the fetch
/// reached the end of the source in the direction it read.
#[derive(Debug, Clone, PartialEq, Eq)]
pub struct Window<Row> {
    pub rows: Vec<Row>,
    pub reached_boundary: bool,
}

impl<Row> Window<Row> {
    pub fn new(rows: Vec<Row>, reached_boundary: bool) -> (w: Self)
        ensures
            w.rows@ == rows@,
            w.reached_boundary == reached_boundary,
    {
        Window { rows, reached_boundary }
    }

    /// No rows, at the boundary.
    pub fn empty() -> (w: Self)
        ensures
            w.rows@.len() == 0,
            w.reached_boundary,
    {
        Window { rows: Vec::new(), reached_boundary: true }
    }

    pub fn len(&self) -> (n: usize)
        ensures
            n == self.rows@.len(),
    {
        self.rows.len()
    }

    pub fn is_empty(&self) -> (b: bool)
        ensures
            b == (self.rows@.len() == 0),
    {
        self.rows.len() == 0
    }
}

/// Keys in non-decreasing order.
pub open spec fn keys_sorted<V>(s: Seq<(u64, V)>) -> bool {
    forall|i: int, j: int| 0 <= i < j < s.len() ==> s[i].0 <= s[j].0
}

/// Number of rows whose key satisfies `key <= k` (for `strict` false) or `key < k`
/// (for `strict` true), in a key-sorted sequence: the index of the first row past them.
pub open spec fn is_partition_point<V>(s: Seq<(u64, V)>, k: u64, strict: bool, p: int) -> bool {
    &&& 0 <= p <= s.len()
    &&& forall|i: int|
        0 <= i < p ==> if strict {
            s[i].0 < k
        } else {
            s[i].0 <= k
        }
    &&& forall|i: int|
        p <= i < s.len() ==> if strict {
            s[i].0 >= k
        } else {
            s[i].0 > k
        }
}

/// An in-memory record source over `(key, value)` rows, kept sorted by key.
#[derive(Debug, Clone)]
pub struct VecRecordSource<V> {
    rows: Vec<(u64, V)>,
    knows_len: bool,
}

impl<V: Clone> VecRecordSource<V> {
    pub closed spec fn rows_spec(self) -> Seq<(u64, V)> {
        self.rows@
    }

    pub closed spec fn knows_len_spec(self) -> bool {
        self.knows_len
    }

    /// Rows are sorted by key.
    pub open spec fn wf(self) -> bool {
        keys_sorted(self.rows_spec())
    }

    /// A source over `rows`, sorted by key (stably: rows with equal keys keep their
    /// order), whose length is known.
    pub fn new(rows: Vec<(u64, V)>) -> (s: Self)
        ensures
            s.wf(),
            s.rows_spec().to_multiset() == rows@.to_multiset(),
            s.knows_len_spec(),
            exists|idx: Seq<int>| #[trigger] stable_arrangement(rows@, s.rows_spec(), idx),
    {
        let sorted = sort_rows_by_key(rows);
        VecRecordSource { rows: sorted, knows_len: true }
    }

    /// The same source, hiding its exact length.
    pub fn estimated(self) -> (s: Self)
        ensures
            s.rows_spec() == self.rows_spec(),
            !s.knows_len_spec(),
    {
        VecRecordSource { rows: self.rows, knows_len: false }
    }

    pub fn len(&self) -> (n: usize)
        ensures
            n == self.rows_spec().len(),
    {
        self.rows.len()
    }

    pub fn is_empty(&self) -> (b: bool)
        ensures
            b == (self.rows_spec().len() == 0),
    {
        self.rows.len() == 0
    }

    /// The key of a row.
    pub fn key_of(&self, row: &(u64, V)) -> (k: u64)
        ensures
            k == row.0,
    {
        row.0
    }

    /// First index whose key is past `k` (`> k`, or `>= k` when `strict`).
    fn partition_point(&self, k: u64, strict: bool) -> (p: usize)
        requires
            self.wf(),
        ensures
            is_partition_point(self.rows_spec(), k, strict, p as int),
    {
        let mut lo: usize = 0;
        let mut hi: usize = self.rows.len();
        while lo < hi
            invariant
                keys_sorted(self.rows@),
                0 <= lo <= hi <= self.rows@.len(),
                forall|i: int|
                    0 <= i < lo ==> if strict {
                        self.rows@[i].0 < k
                    } else {
                        self.rows@[i].0 <= k
                    },
                forall|i: int|
                    hi <= i < self.rows@.len() ==> if strict {
                        self.rows@[i].0 >= k
                    } else {
                        self.rows@[i].0 > k
                    },
            decreases hi - lo,
        {
            let mid = lo + (hi - lo) / 2;
            let mk = self.rows[mid].0;
            let before = if strict {
                mk < k
            } else {
                mk <= k
            };
            if before {
                lo = mid + 1;
            } else {
                hi = mid;
            }
        }
        lo
    }

    /// Clones of the rows in `[start, end)`.
    fn clone_range(&self, start: usize, end: usize) -> (out: Vec<(u64, V)>)
        requires
            start <= end <= self.rows_spec().len(),
        ensures
            out@.len() == end - start,
            forall|i: int|
                0 <= i < out@.len() ==> out@[i].0 == self.rows_spec()[start + i].0 && cloned(
                    self.rows_spec()[start + i].1,
                    out@[i].1,
                ),
    {
        let mut out: Vec<(u64, V)> = Vec::new();
        let mut i = start;
        while i < end
            invariant
                start <= i <= end <= self.rows@.len(),
                out@.len() == i - start,
                forall|j: int|
                    0 <= j < out@.len() ==> out@[j].0 == self.rows@[start + j].0 && cloned(
                        self.rows@[start + j].1,
                        out@[j].1,
                    ),
            decreases end - i,
        {
            let k = self.rows[i].0;
            let v = self.rows[i].1.clone();
            out.push((k, v));
            i = i + 1;
        }
        out
    }

    /// Up to `n` rows after `key` (from the start when `None`); at the boundary when
    /// the window reaches the last row.
    pub fn fetch_after(&mut self, key: Option<u64>, n: usize) -> (w: Window<(u64, V)>)
        requires
            old(self).wf(),
        ensures
            *final(self) == *old(self),
            exists|start: int|
                {
                    &&& (match key {
                        None => start == 0,
                        Some(k) => is_partition_point(old(self).rows_spec(), k, false, start),
                    })
                    &&& #[trigger] window_after(old(self).rows_spec(), start, n as int, w)
                },
    {
        let start = match key {
            None => 0,
            Some(k) => self.partition_point(k, false),
        };
        let len = self.rows.len();
        let end = if n <= len - start {
            start + n
        } else {
            len
        };
        let rows = self.clone_range(start, end);
        let w = Window::new(rows, end == len);
        assert(window_after(self.rows@, start as int, n as int, w));
        w
    }

    /// Up to `n` rows before `key` (up to the end when `None`); at the boundary when
    /// the window reaches the first row.
    pub fn fetch_before(&mut self, key: Option<u64>, n: usize) -> (w: Window<(u64, V)>)
        requires
            old(self).wf(),
        ensures
            *final(self) == *old(self),
            exists|end: int|
                {
                    &&& (match key {
                        None => end == old(self).rows_spec().len(),
                        Some(k) => is_partition_point(old(self).rows_spec(), k, true, end),
                    })
                    &&& #[trigger] window_before(old(self).rows_spec(), end, n as int, w)
                },
    {
        let end = match key {
            None => self.rows.len(),
            Some(k) => self.partition_point(k, true),
        };
        let start = end.saturating_sub(n);
        let rows = self.clone_range(start, end);
        let w = Window::new(rows, start == 0);
        assert(window_before(self.rows@, end as int, n as int, w));
        w
    }

    /// The number of rows, unless hidden by [`VecRecordSource::estimated`].
    pub fn exact_len(&mut self) -> (r: Option<u64>)
        ensures
            *final(self) == *old(self),
            r == if old(self).knows_len_spec() {
                Some(old(self).rows_spec().len() as u64)
            } else {
                None
            },
    {
        if self.knows_len {
            Some(self.rows.len() as u64)
        } else {
            None
        }
    }

    /// How many rows have a key strictly below `key`: the ordinal that a scrollbar
    /// position is the fraction of.
    pub fn rows_before(&self, key: u64) -> (p: usize)
        requires
            self.wf(),
        ensures
            p <= self.rows_spec().len(),
            forall|i: int| 0 <= i < p ==> self.rows_spec()[i].0 < key,
            forall|i: int| p <= i < self.rows_spec().len() ==> self.rows_spec()[i].0 >= key,
    {
        self.partition_point(key, true)
    }
}

/// `w` holds the (up to) `n` rows from `start`, at the boundary when it reaches the end.
pub open spec fn window_after<V: Clone>(rows: Seq<(u64, V)>, start: int, n: int, w: Window<(u64, V)>) -> bool {
    let end = if start + n <= rows.len() {
        start + n
    } else {
        rows.len() as int
    };
    window_of(rows, start, end, w) && w.reached_boundary == (start + n >= rows.len())
}

/// `w` holds the (up to) `n` rows before `end`, at the boundary when it reaches the start.
pub open spec fn window_before<V: Clone>(rows: Seq<(u64, V)>, end: int, n: int, w: Window<(u64, V)>) -> bool {
    let start = if end >= n {
        end - n
    } else {
        0
    };
    window_of(rows, start, end, w) && w.reached_boundary == (end <= n)
}

/// `w` holds clones of `rows[start..end]`.
pub open spec fn window_of<V: Clone>(rows: Seq<(u64, V)>, start: int, end: int, w: Window<(u64, V)>) -> bool {
    &&& 0 <= start <= end <= rows.len()
    &&& w.rows@.len() == end - start
    &&& forall|i: int|
        0 <= i < w.rows@.len() ==> w.rows@[i].0 == rows[start + i].0 && cloned(
            rows[start + i].1,
            w.rows@[i].1,
        )
}

/// `sorted` is `orig` rearranged by the index map `idx` (`sorted[p] == orig[idx[p]]`,
/// `idx` a permutation), sorted by key, with rows of equal key in their original order.
pub open spec fn stable_arrangement<V>(orig: Seq<(u64, V)>, sorted: Seq<(u64, V)>, idx: Seq<int>) -> bool {
    &&& sorted.len() == orig.len()
    &&& idx.len() == orig.len()
    &&& forall|p: int| 0 <= p < idx.len() ==> 0 <= #[trigger] idx[p] < orig.len()
    &&& forall|p: int, q: int| 0 <= p < q < idx.len() ==> idx[p] != idx[q]
    &&& forall|p: int| 0 <= p < idx.len() ==> #[trigger] sorted[p] == orig[idx[p]]
    &&& keys_sorted(sorted)
    &&& forall|p: int, q: int|
        0 <= p < q < sorted.len() && sorted[p].0 == sorted[q].0 ==> idx[p] < idx[q]
}

/// Stable sort of rows by key (insertion from the back, each row placed before the
/// rows of equal or greater key already placed).
fn sort_rows_by_key<V>(rows: Vec<(u64, V)>) -> (out: Vec<(u64, V)>)
    ensures
        keys_sorted(out@),
        out@.to_multiset() == rows@.to_multiset(),
        exists|idx: Seq<int>| #[trigger] stable_arrangement(rows@, out@, idx),
{
    let ghost orig = rows@;
    let mut rest = rows;
    let mut out: Vec<(u64, V)> = Vec::new();
    let ghost mut idx: Seq<int> = Seq::empty();
    while rest.len() > 0
        invariant
            rest@ == orig.subrange(0, rest@.len() as int),
            rest@.len() + out@.len() == orig.len(),
            idx.len() == out@.len(),
            forall|p: int| 0 <= p < idx.len() ==> rest@.len() <= #[trigger] idx[p] < orig.len(),
            forall|p: int, q: int| 0 <= p < q < idx.len() ==> idx[p] != idx[q],
            forall|p: int| 0 <= p < idx.len() ==> #[trigger] out@[p] == orig[idx[p]],
            keys_sorted(out@),
            forall|p: int, q: int|
                0 <= p < q < out@.len() && out@[p].0 == out@[q].0 ==> idx[p] < idx[q],
            out@.to_multiset().add(rest@.to_multiset()) == orig.to_multiset(),
        decreases rest@.len(),
    {
        let ghost r = rest@.len() - 1;
        let ghost rest_before = rest@;
        let item = rest.pop().unwrap();
        let k = item.0;
        let mut pos: usize = 0;
        while pos < out.len() && out[pos].0 < k
            invariant
                0 <= pos <= out@.len(),
                forall|p: int| 0 <= p < pos ==> out@[p].0 < k,
            decreases out@.len() - pos,
        {
            pos = pos + 1;
        }
        let ghost out_before = out@;
        out.insert(pos, item);
        proof {
            let new_idx = idx.insert(pos as int, r);
            assert(rest_before =~= rest@.push(item));
            assert(rest@ =~= orig.subrange(0, rest@.len() as int));
            assert(orig[r] == item) by {
                assert(rest_before[r] == orig.subrange(0, rest_before.len() as int)[r]);
            }
            assert forall|p: int| 0 <= p < new_idx.len() implies #[trigger] out@[p] == orig[new_idx[p]]
                by {
                if p < pos {
                } else if p == pos {
                } else {
                    assert(out@[p] == out_before[p - 1]);
                }
            }
            assert forall|p: int, q: int| 0 <= p < q < out@.len() implies out@[p].0 <= out@[q].0 by {
                if q < pos {
                } else if p < pos && q == pos {
                } else if p < pos {
                    assert(out@[q] == out_before[q - 1]);
                } else if p == pos {
                    assert(out@[q] == out_before[q - 1]);
                    if pos < out_before.len() {
                        assert(out_before[pos as int].0 >= k);
                    }
                } else {
                    assert(out@[q] == out_before[q - 1]);
                    assert(out@[p] == out_before[p - 1]);
                }
            }
            assert forall|p: int, q: int|
                0 <= p < q < out@.len() && out@[p].0 == out@[q].0 implies new_idx[p] < new_idx[q] by {
                if q < pos {
                } else if p < pos && q == pos {
                    assert(out@[p].0 < k);
                } else if p < pos {
                    assert(out@[q] == out_before[q - 1]);
                } else if p == pos {
                    assert(new_idx[q] >= rest@.len() + 1 || new_idx[q] == idx[q - 1]);
                } else {
                    assert(out@[q] == out_before[q - 1]);
                    assert(out@[p] == out_before[p - 1]);
                }
            }
            assert forall|p: int, q: int| 0 <= p < q < new_idx.len() implies new_idx[p]
                != new_idx[q] by {
                if p < pos && q == pos {
                } else if p == pos {
                } else {
                }
            }
            vstd::seq_lib::to_multiset_insert(out_before, pos as int, item);
            assert(out@ =~= out_before.insert(pos as int, item));
            idx = new_idx;
        }
    }
    proof {
        assert(rest@.to_multiset() =~= vstd::multiset::Multiset::empty());
        assert(out@.to_multiset() =~= orig.to_multiset()) by {
            broadcast use vstd::multiset::group_multiset_axioms;

        }
        assert(stable_arrangement(orig, out@, idx));
    }
    out
}

/// A virtual record source over the indices `0..len`, building each row on demand
/// from its index.
pub struct RangeSource<T, F> {
    len: u64,
    build: F,
    _marker: std::marker::PhantomData<T>,
}

impl<T, F: Fn(u64) -> T> RangeSource<T, F> {
    pub closed spec fn len_spec(self) -> u64 {
        self.len
    }

    pub closed spec fn build_spec(self) -> F {
        self.build
    }

    /// A source of `len` rows, row `i` being `(i, build(i))`.
    pub fn new(len: u64, build: F) -> (s: Self)
        ensures
            s.len_spec() == len,
            s.build_spec() == build,
    {
        RangeSource { len, build, _marker: std::marker::PhantomData }
    }

    pub fn len(&self) -> (n: u64)
        ensures
            n == self.len_spec(),
    {
        self.len
    }

    pub fn is_empty(&self) -> (b: bool)
        ensures
            b == (self.len_spec() == 0),
    {
        self.len == 0
    }

    /// The key of a row.
    pub fn key_of(&self, row: &(u64, T)) -> (k: u64)
        ensures
            k == row.0,
    {
        row.0
    }

    /// Rows `start..end`, each built from its index.
    fn build_rows(&self, start: u64, end: u64) -> (rows: Vec<(u64, T)>)
        requires
            start <= end,
            end - start <= usize::MAX,
            forall|i: u64| start <= i < end ==> call_requires(self.build_spec(), (i,)),
        ensures
            rows@.len() == end - start,
            forall|j: int|
                0 <= j < rows@.len() ==> rows@[j].0 == start + j && call_ensures(
                    self.build_spec(),
                    ((start + j) as u64,),
                    rows@[j].1,
                ),
    {
        let mut rows: Vec<(u64, T)> = Vec::new();
        let mut i = start;
        while i < end
            invariant
                start <= i <= end,
                rows@.len() == i - start,
                forall|i: u64| start <= i < end ==> call_requires(self.build_spec(), (i,)),
                forall|j: int|
                    0 <= j < rows@.len() ==> rows@[j].0 == start + j && call_ensures(
                        self.build_spec(),
                        ((start + j) as u64,),
                        rows@[j].1,
                    ),
            decreases end - i,
        {
            assert(call_requires(self.build_spec(), (i,)));
            assert(self.build_spec() == self.build);
            let v = (self.build)(i);
            rows.push((i, v));
            i = i + 1;
        }
        rows
    }

    /// Up to `n` rows after `key` (from index 0 when `None`); at the boundary when the
    /// window reaches the last index.
    pub fn fetch_after(&mut self, key: Option<u64>, n: usize) -> (w: Window<(u64, T)>)
        requires
            forall|i: u64| i < old(self).len_spec() ==> call_requires(old(self).build_spec(), (i,)),
        ensures
            *final(self) == *old(self),
            ({
                let s0: int = match key {
                    None => 0,
                    Some(k) => if k == u64::MAX {
                        u64::MAX as int
                    } else {
                        k + 1
                    },
                };
                let start = if s0 <= old(self).len_spec() {
                    s0
                } else {
                    old(self).len_spec() as int
                };
                let end = if start + n <= old(self).len_spec() {
                    start + n
                } else {
                    old(self).len_spec() as int
                };
                &&& w.rows@.len() == end - start
                &&& forall|j: int|
                    0 <= j < w.rows@.len() ==> w.rows@[j].0 == start + j && call_ensures(
                        old(self).build_spec(),
                        ((start + j) as u64,),
                        w.rows@[j].1,
                    )
                &&& w.reached_boundary == (end >= old(self).len_spec())
            }),
    {
        let s0 = match key {
            None => 0,
            Some(k) => k.saturating_add(1),
        };
        let start = if s0 <= self.len {
            s0
        } else {
            self.len
        };
        let e0 = start.saturating_add(n as u64);
        let end = if e0 <= self.len {
            e0
        } else {
            self.len
        };
        let rows = self.build_rows(start, end);
        Window::new(rows, end >= self.len)
    }

    /// Up to `n` rows before `key` (before `len` when `None`); at the boundary when the
    /// window reaches index 0.
    pub fn fetch_before(&mut self, key: Option<u64>, n: usize) -> (w: Window<(u64, T)>)
        requires
            forall|i: u64| i < old(self).len_spec() ==> call_requires(old(self).build_spec(), (i,)),
        ensures
            *final(self) == *old(self),
            ({
                let e0: int = match key {
                    None => old(self).len_spec() as int,
                    Some(k) => k as int,
                };
                let end = if e0 <= old(self).len_spec() {
                    e0
                } else {
                    old(self).len_spec() as int
                };
                let start = if end >= n {
                    end - n
                } else {
                    0
                };
                &&& w.rows@.len() == end - start
                &&& forall|j: int|
                    0 <= j < w.rows@.len() ==> w.rows@[j].0 == start + j && call_ensures(
                        old(self).build_spec(),
                        ((start + j) as u64,),
                        w.rows@[j].1,
                    )
                &&& w.reached_boundary == (start == 0)
            }),
    {
        let e0 = match key {
            None => self.len,
            Some(k) => k,
        };
        let end = if e0 <= self.len {
            e0
        } else {
            self.len
        };
        let start = end.saturating_sub(n as u64);
        let rows = self.build_rows(start, end);
        Window::new(rows, start == 0)
    }

    /// The exact length, always known.
    pub fn exact_len(&mut self) -> (r: Option<u64>)
        ensures
            *final(self) == *old(self),
            r == Some(old(self).len_spec()),
    {
        Some(self.len)
    }
}

} // verus!
