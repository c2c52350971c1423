use vstd::prelude::*;


verus! {

/// One guide column per ancestor level: blank under an ancestor that is its
/// parent's last child, a vertical rule otherwise.
pub open spec fn guides(ancestor_last: Seq<bool>) -> Seq<char>
    decreases ancestor_last.len(),
{
    if ancestor_last.len() == 0 {
        Seq::empty()
    } else {
        guides(ancestor_last.drop_last()) + if ancestor_last.last() {
            seq![' ', ' ', ' ']
        } else {
            seq!['│', ' ', ' ']
        }
    }
}

/// The guide prefix of an outline row: the ancestor guides, this node's connector
/// (`└─ ` for a last child, `├─ ` otherwise), then the expander (`▾ ` open, `▸ `
/// closed, nothing for a leaf).
pub open spec fn prefix_spec(ancestor_last: Seq<bool>, is_last: bool, expanded: Option<bool>) -> Seq<char> {
    guides(ancestor_last) + (if is_last {
        seq!['└', '─', ' ']
    } else {
        seq!['├', '─', ' ']
    }) + match expanded {
        Some(true) => seq!['▾', ' '],
        Some(false) => seq!['▸', ' '],
        None => Seq::empty(),
    }
}


/// The guide column of depth `i`: blank under a last child, a vertical rule otherwise.
pub open spec fn guide_char(last: bool) -> char {
    if last {
        ' '
    } else {
        '│'
    }
}

/// Guides occupy three characters per ancestor level, in depth order: the block of
/// depth `i` is its rule (or a blank) followed by two blanks.
pub proof fn lemma_guides_layout(a: Seq<bool>)
    ensures
        guides(a).len() == 3 * a.len(),
        forall|i: int|
            0 <= i < a.len() ==> {
                &&& #[trigger] guides(a)[3 * i] == guide_char(a[i])
                &&& guides(a)[3 * i + 1] == ' '
                &&& guides(a)[3 * i + 2] == ' '
            },
    decreases a.len(),
{
    if a.len() > 0 {
        let p = a.drop_last();
        lemma_guides_layout(p);
        assert forall|i: int| 0 <= i < a.len() implies {
            &&& #[trigger] guides(a)[3 * i] == guide_char(a[i])
            &&& guides(a)[3 * i + 1] == ' '
            &&& guides(a)[3 * i + 2] == ' '
        } by {
            if i < p.len() {
                assert(guides(p)[3 * i] == guide_char(p[i]));
                assert(p[i] == a[i]);
            }
        }
    }
}

/// An outline row's prefix: for each depth `i` the three characters at `3·i` are the
/// guide of that ancestor level (a rule, or a blank under a last child) and two
/// blanks; then the connector (`└─ ` for a last child, `├─ ` otherwise); then the
/// expander (`▾ ` open, `▸ ` closed, nothing for a leaf).
pub proof fn lemma_prefix_layout(a: Seq<bool>, is_last: bool, expanded: Option<bool>)
    ensures
        ({
            let p = prefix_spec(a, is_last, expanded);
            let n = 3 * a.len() as int;
            &&& p.len() == n + 3 + (if expanded is Some { 2int } else { 0int })
            &&& forall|i: int|
                0 <= i < a.len() ==> {
                    &&& #[trigger] p[3 * i] == guide_char(a[i])
                    &&& p[3 * i + 1] == ' '
                    &&& p[3 * i + 2] == ' '
                }
            &&& p[n] == (if is_last { '└' } else { '├' })
            &&& p[n + 1] == '─'
            &&& p[n + 2] == ' '
            &&& expanded == Some(true) ==> p[n + 3] == '▾' && p[n + 4] == ' '
            &&& expanded == Some(false) ==> p[n + 3] == '▸' && p[n + 4] == ' '
        }),
{
    lemma_guides_layout(a);
    let g = guides(a);
    let p = prefix_spec(a, is_last, expanded);
    assert forall|i: int| 0 <= i < a.len() implies {
        &&& #[trigger] p[3 * i] == guide_char(a[i])
        &&& p[3 * i + 1] == ' '
        &&& p[3 * i + 2] == ' '
    } by {
        assert(g[3 * i] == guide_char(a[i]));
    }
}

/// The guide prefix for an outline row (see [`prefix_spec`]).
pub fn tree_prefix(ancestor_last: &[bool], is_last: bool, expanded: Option<bool>) -> (s: String)
    ensures
        s@ == prefix_spec(ancestor_last@, is_last, expanded),
{
    let mut s = String::new();
    let mut i: usize = 0;
    while i < ancestor_last.len()
        invariant
            i <= ancestor_last@.len(),
            s@ == guides(ancestor_last@.take(i as int)),
        decreases ancestor_last@.len() - i,
    {
        proof {
            assert(ancestor_last@.take(i + 1).drop_last() =~= ancestor_last@.take(i as int));
            reveal_strlit("   ");
            reveal_strlit("│  ");
        }
        if ancestor_last[i] {
            s.append("   ");
        } else {
            s.append("│  ");
        }
        i = i + 1;
    }
    proof {
        assert(ancestor_last@.take(ancestor_last@.len() as int) =~= ancestor_last@);
        reveal_strlit("└─ ");
        reveal_strlit("├─ ");
        reveal_strlit("▾ ");
        reveal_strlit("▸ ");
    }
    if is_last {
        s.append("└─ ");
    } else {
        s.append("├─ ");
    }
    match expanded {
        Some(true) => s.append("▾ "),
        Some(false) => s.append("▸ "),
        None => {},
    }
    proof {
        assert(s@ =~= prefix_spec(ancestor_last@, is_last, expanded));
    }
    s
}

} // verus!
