use vstd::prelude::*;

verus! {

broadcast use vstd::seq_lib::group_to_multiset_ensures;

/// Lexicographic order on pairs.
pub open spec fn pair_le(a: (u16, u16), b: (u16, u16)) -> bool {
    a.0 < b.0 || (a.0 == b.0 && a.1 <= b.1)
}

/// The pairs are in non-decreasing lexicographic order.
pub open spec fn pairs_sorted(s: Seq<(u16, u16)>) -> bool {
    forall|i: int, j: int| 0 <= i < j < s.len() ==> pair_le(s[i], s[j])
}

/// Swapping two entries keeps the multiset of a sequence.
pub proof fn lemma_swap_multiset<A>(s: Seq<A>, i: int, j: int)
    requires
        0 <= i < s.len(),
        0 <= j < s.len(),
    ensures
        s.update(i, s[j]).update(j, s[i]).to_multiset() == s.to_multiset(),
{
    broadcast use vstd::multiset::group_multiset_axioms;

    let t = s.update(i, s[j]);
    vstd::seq_lib::to_multiset_update(s, i, s[j]);
    vstd::seq_lib::to_multiset_update(t, j, s[i]);
    if i == j {
        assert(t.update(j, s[i]) =~= s);
    } else {
        assert(t[j] == s[j]);
        assert(t.update(j, s[i]).to_multiset() =~= s.to_multiset());
    }
}

/// Sort pairs lexicographically, in place (insertion sort, stable).
pub fn sort_pairs(v: &mut [(u16, u16)])
    ensures
        final(v)@.len() == old(v)@.len(),
        pairs_sorted(final(v)@),
        final(v)@.to_multiset() == old(v)@.to_multiset(),
{
    let n = v.len();
    let mut i: usize = 1;
    if n == 0 {
        return;
    }
    while i < n
        invariant
            n == v@.len(),
            1 <= i <= n,
            pairs_sorted(v@.subrange(0, i as int)),
            v@.to_multiset() == old(v)@.to_multiset(),
        decreases n - i,
    {
        let mut j = i;
        proof {
            let sub = v@.subrange(0, i as int);
            assert forall|a: int, b: int| 0 <= a < b <= i && a != j && b != j implies pair_le(
                v@[a],
                v@[b],
            ) by {
                assert(sub[a] == v@[a] && sub[b] == v@[b]);
            }
        }
        while j > 0 && !pair_le_exec(v[j - 1], v[j])
            invariant
                n == v@.len(),
                0 <= j <= i < n,
                v@.to_multiset() == old(v)@.to_multiset(),
                // the prefix without position j is sorted
                forall|a: int, b: int|
                    0 <= a < b <= i && a != j && b != j ==> pair_le(v@[a], v@[b]),
                // the element at j is below everything after it in the prefix
                forall|b: int| j < b <= i ==> pair_le(v@[j as int], v@[b]),
            decreases j,
        {
            let a = v[j - 1];
            let b = v[j];
            proof {
                lemma_swap_multiset(v@, j - 1, j as int);
            }
            v[j - 1] = b;
            v[j] = a;
            j = j - 1;
        }
        proof {
            let sub = v@.subrange(0, i + 1);
            assert forall|a: int, b: int| 0 <= a < b < sub.len() implies #[trigger] pair_le(
                sub[a],
                sub[b],
            ) by {
                if a != j && b != j {
                } else if a == j {
                } else {
                    // b == j, a < j: then j > 0 and v[j-1] <= v[j]
                    assert(j > 0);
                    assert(pair_le(v@[j - 1], v@[j as int]));
                    if a < j - 1 {
                        assert(pair_le(v@[a], v@[j - 1]));
                    }
                }
            }
        }
        i = i + 1;
    }
    assert(v@.subrange(0, n as int) =~= v@);
}

fn pair_le_exec(a: (u16, u16), b: (u16, u16)) -> (r: bool)
    ensures
        r == pair_le(a, b),
{
    a.0 < b.0 || (a.0 == b.0 && a.1 <= b.1)
}

} // verus!
