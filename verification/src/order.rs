//! Candidate lists: (distance, node) pairs kept sorted by distance, then by node.
use vstd::prelude::*;

verus! {

/// `a` comes before `b`: a smaller distance, or the same distance and a smaller node.
pub open spec fn pair_lt(a: (u32, usize), b: (u32, usize)) -> bool {
    a.0 < b.0 || (a.0 == b.0 && a.1 < b.1)
}

/// Strictly increasing under [`pair_lt`].
pub open spec fn ascending(s: Seq<(u32, usize)>) -> bool {
    forall|i: int, j: int| 0 <= i < j < s.len() ==> pair_lt(#[trigger] s[i], #[trigger] s[j])
}

/// Strictly decreasing under [`pair_lt`].
pub open spec fn descending(s: Seq<(u32, usize)>) -> bool {
    forall|i: int, j: int| 0 <= i < j < s.len() ==> pair_lt(#[trigger] s[j], #[trigger] s[i])
}

/// How many entries of `s` come before `e`.
pub open spec fn count_before(s: Seq<(u32, usize)>, e: (u32, usize)) -> nat
    decreases s.len(),
{
    if s.len() == 0 {
        0
    } else {
        count_before(s.drop_last(), e) + if pair_lt(s.last(), e) {
            1nat
        } else {
            0nat
        }
    }
}

/// How many entries of `s` come after `e`.
pub open spec fn count_after(s: Seq<(u32, usize)>, e: (u32, usize)) -> nat
    decreases s.len(),
{
    if s.len() == 0 {
        0
    } else {
        count_after(s.drop_last(), e) + if pair_lt(e, s.last()) {
            1nat
        } else {
            0nat
        }
    }
}

/// `s` with `e` inserted after every entry that comes before it.
pub open spec fn insert_asc(s: Seq<(u32, usize)>, e: (u32, usize)) -> Seq<(u32, usize)> {
    s.insert(count_before(s, e) as int, e)
}

/// `s` with `e` inserted after every entry that comes after it.
pub open spec fn insert_desc(s: Seq<(u32, usize)>, e: (u32, usize)) -> Seq<(u32, usize)> {
    s.insert(count_after(s, e) as int, e)
}

proof fn lemma_count_before(s: Seq<(u32, usize)>, e: (u32, usize), pos: int)
    requires
        0 <= pos <= s.len(),
        forall|i: int| 0 <= i < pos ==> pair_lt(#[trigger] s[i], e),
        forall|i: int| pos <= i < s.len() ==> !pair_lt(#[trigger] s[i], e),
    ensures
        count_before(s, e) == pos,
    decreases s.len(),
{
    if s.len() > 0 {
        let t = s.drop_last();
        if pos == s.len() {
            assert(pair_lt(s[s.len() - 1], e));
            lemma_count_before(t, e, pos - 1);
        } else {
            assert(!pair_lt(s[s.len() - 1], e));
            lemma_count_before(t, e, pos);
        }
    }
}

proof fn lemma_count_after(s: Seq<(u32, usize)>, e: (u32, usize), pos: int)
    requires
        0 <= pos <= s.len(),
        forall|i: int| 0 <= i < pos ==> pair_lt(e, #[trigger] s[i]),
        forall|i: int| pos <= i < s.len() ==> !pair_lt(e, #[trigger] s[i]),
    ensures
        count_after(s, e) == pos,
    decreases s.len(),
{
    if s.len() > 0 {
        let t = s.drop_last();
        if pos == s.len() {
            assert(pair_lt(e, s[s.len() - 1]));
            lemma_count_after(t, e, pos - 1);
        } else {
            assert(!pair_lt(e, s[s.len() - 1]));
            lemma_count_after(t, e, pos);
        }
    }
}

/// At most every entry of `s` is counted.
pub proof fn lemma_count_before_bound(s: Seq<(u32, usize)>, e: (u32, usize))
    ensures
        count_before(s, e) <= s.len(),
    decreases s.len(),
{
    if s.len() > 0 {
        lemma_count_before_bound(s.drop_last(), e);
    }
}

/// Nothing of `s` comes before `e` when none is counted.
pub proof fn lemma_count_before_zero(s: Seq<(u32, usize)>, e: (u32, usize))
    requires
        count_before(s, e) == 0,
    ensures
        forall|i: int| 0 <= i < s.len() ==> !pair_lt(#[trigger] s[i], e),
    decreases s.len(),
{
    if s.len() > 0 {
        let t = s.drop_last();
        lemma_count_before_zero(t, e);
        assert forall|i: int| 0 <= i < s.len() implies !pair_lt(#[trigger] s[i], e) by {
            if i < t.len() {
                assert(s[i] == t[i]);
            }
        }
    }
}

/// Some pair of `s` is about node `x`.
pub open spec fn holds(s: Seq<(u32, usize)>, x: usize) -> bool {
    exists|i: int| 0 <= i < s.len() && (#[trigger] s[i]).1 == x
}

pub(crate) proof fn lemma_holds_insert(s: Seq<(u32, usize)>, pos: int, e: (u32, usize), x: usize)
    requires
        0 <= pos <= s.len(),
    ensures
        holds(s.insert(pos, e), x) <==> (holds(s, x) || e.1 == x),
{
    let t = s.insert(pos, e);
    if holds(s, x) {
        let i = choose|i: int| 0 <= i < s.len() && (#[trigger] s[i]).1 == x;
        if i < pos {
            assert(t[i] == s[i]);
        } else {
            assert(t[i + 1] == s[i]);
        }
    }
    if e.1 == x {
        assert(t[pos] == e);
    }
    if holds(t, x) {
        let i = choose|i: int| 0 <= i < t.len() && (#[trigger] t[i]).1 == x;
        if i < pos {
            assert(t[i] == s[i]);
        } else if i > pos {
            assert(t[i] == s[i - 1]);
        }
    }
}

pub(crate) proof fn lemma_holds_drop_last(s: Seq<(u32, usize)>, x: usize)
    requires
        s.len() > 0,
    ensures
        holds(s.drop_last(), x) ==> holds(s, x),
        holds(s, x) && s.last().1 != x ==> holds(s.drop_last(), x),
{
    let t = s.drop_last();
    if holds(t, x) {
        let i = choose|i: int| 0 <= i < t.len() && (#[trigger] t[i]).1 == x;
        assert(s[i] == t[i]);
    }
    if holds(s, x) && s.last().1 != x {
        let i = choose|i: int| 0 <= i < s.len() && (#[trigger] s[i]).1 == x;
        assert(t[i] == s[i]);
    }
}

/// Executable form of [`pair_lt`].
pub(crate) fn pair_less(a: (u32, usize), b: (u32, usize)) -> (r: bool)
    ensures
        r == pair_lt(a, b),
{
    a.0 < b.0 || (a.0 == b.0 && a.1 < b.1)
}

/// Inserts `e` into the ascending list `v` at its place; returns that place.
pub(crate) fn insert_ascending(v: &mut Vec<(u32, usize)>, e: (u32, usize)) -> (pos: usize)
    requires
        ascending(old(v)@),
        forall|i: int| 0 <= i < old(v)@.len() ==> (#[trigger] old(v)@[i]).1 != e.1,
    ensures
        pos <= old(v)@.len(),
        final(v)@ == old(v)@.insert(pos as int, e),
        final(v)@ == insert_asc(old(v)@, e),
        ascending(final(v)@),
{
    let mut pos: usize = 0;
    while pos < v.len() && pair_less(v[pos], e)
        invariant
            pos <= v@.len(),
            forall|i: int| 0 <= i < pos ==> pair_lt(#[trigger] v@[i], e),
        decreases v@.len() - pos,
    {
        pos = pos + 1;
    }
    let ghost s = v@;
    proof {
        assert forall|i: int| pos <= i < s.len() implies !pair_lt(#[trigger] s[i], e) by {
            if pair_lt(s[i], e) {
                assert(s[pos as int] == s[i] || pair_lt(s[pos as int], s[i]));
            }
        }
        lemma_count_before(s, e, pos as int);
    }
    v.insert(pos, e);
    assert forall|i: int, j: int| 0 <= i < j < v@.len() implies pair_lt(
        #[trigger] v@[i],
        #[trigger] v@[j],
    ) by {
        if pos < s.len() {
            assert(s[pos as int].1 != e.1);
            assert(pair_lt(e, s[pos as int]));
        }
        if j < pos {
        } else if j == pos {
        } else if i < pos {
            assert(pair_lt(s[i], e));
            assert(pos == j - 1 || pair_lt(s[pos as int], s[j - 1]));
        } else if i == pos {
            assert(pos == j - 1 || pair_lt(s[pos as int], s[j - 1]));
        } else {
        }
    }
    pos
}

/// Inserts `e` into the descending list `v` at its place; returns that place.
pub(crate) fn insert_descending(v: &mut Vec<(u32, usize)>, e: (u32, usize)) -> (pos: usize)
    requires
        descending(old(v)@),
        forall|i: int| 0 <= i < old(v)@.len() ==> (#[trigger] old(v)@[i]).1 != e.1,
    ensures
        pos <= old(v)@.len(),
        final(v)@ == old(v)@.insert(pos as int, e),
        final(v)@ == insert_desc(old(v)@, e),
        descending(final(v)@),
{
    let mut pos: usize = 0;
    while pos < v.len() && pair_less(e, v[pos])
        invariant
            pos <= v@.len(),
            forall|i: int| 0 <= i < pos ==> pair_lt(e, #[trigger] v@[i]),
        decreases v@.len() - pos,
    {
        pos = pos + 1;
    }
    let ghost s = v@;
    proof {
        assert forall|i: int| pos <= i < s.len() implies !pair_lt(e, #[trigger] s[i]) by {
            if pair_lt(e, s[i]) {
                assert(s[pos as int] == s[i] || pair_lt(s[i], s[pos as int]));
            }
        }
        lemma_count_after(s, e, pos as int);
    }
    v.insert(pos, e);
    assert forall|i: int, j: int| 0 <= i < j < v@.len() implies pair_lt(
        #[trigger] v@[j],
        #[trigger] v@[i],
    ) by {
        if pos < s.len() {
            assert(s[pos as int].1 != e.1);
            assert(pair_lt(s[pos as int], e));
        }
        if j < pos {
        } else if j == pos {
        } else if i < pos {
            assert(pair_lt(e, s[i]));
            assert(pos == j - 1 || pair_lt(s[j - 1], s[pos as int]));
        } else if i == pos {
            assert(pos == j - 1 || pair_lt(s[j - 1], s[pos as int]));
        } else {
        }
    }
    pos
}

} // verus!
