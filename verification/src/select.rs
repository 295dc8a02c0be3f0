//! Choosing a node's neighbours among candidates, and pruning an over-full neighbour list.
use vstd::prelude::*;
use crate::index::Index;
use crate::order::{holds, lemma_holds_insert};
use crate::metric::{distance_key, float_lt, ieee_lt, key_of};
use crate::oracle::{lemma_pair_oracle_computes, pair_computes, pair_dists, pair_oracle};

verus! {

/// Some already chosen neighbour in `chosen` is nearer to `x` than `base` is, the
/// distances `d` being single-precision bit patterns compared by IEEE `<`.
pub open spec fn shadowed(d: spec_fn(usize, usize) -> u32, base: usize, chosen: Seq<usize>, x: usize) -> bool {
    exists|j: int| 0 <= j < chosen.len() && ieee_lt(d(x, #[trigger] chosen[j]), d(x, base))
}

/// The neighbours of `base` chosen from `cands`, in order: a candidate is kept when fewer
/// than `m` are kept so far and no kept one is nearer to it than `base` is.
pub open spec fn select_spec(d: spec_fn(usize, usize) -> u32, base: usize, cands: Seq<usize>, m: nat) -> Seq<usize>
    decreases cands.len(),
{
    if cands.len() == 0 {
        Seq::empty()
    } else {
        let prev = select_spec(d, base, cands.drop_last(), m);
        let x = cands.last();
        if prev.len() >= m || shadowed(d, base, prev, x) {
            prev
        } else {
            prev.push(x)
        }
    }
}

/// No value occurs twice in `s`.
pub open spec fn distinct(s: Seq<usize>) -> bool {
    forall|a: int, b: int| 0 <= a < b < s.len() ==> #[trigger] s[a] != #[trigger] s[b]
}

/// `x` occurs in `c` before position `t`.
pub open spec fn listed_before(c: Seq<usize>, x: usize, t: int) -> bool {
    exists|a: int| 0 <= a < t && c[a] == x
}

/// `r` is a heuristic choice of at most `m` neighbours of `base` among `cands`: it keeps
/// candidates in their order; no kept node has a node kept before it that is nearer to it
/// than `base` is (IEEE `<` on the distances `d`); and every candidate left out comes after
/// the `m`-th kept one, or has a node kept before it that is nearer to it than `base` is.
pub open spec fn heuristic_choice(d: spec_fn(usize, usize) -> u32, base: usize, cands: Seq<usize>, m: nat, r: Seq<usize>) -> bool {
    &&& r.len() <= m
    &&& forall|i: int| 0 <= i < r.len() ==> cands.contains(#[trigger] r[i])
    &&& forall|i: int, j: int|
        0 <= i < j < r.len() ==> exists|b: int|
            0 <= b < cands.len() && cands[b] == #[trigger] r[j] && listed_before(cands, #[trigger] r[i], b)
    &&& forall|i: int, j: int| 0 <= j < i < r.len() ==> !ieee_lt(d(#[trigger] r[i], #[trigger] r[j]), d(r[i], base))
    &&& forall|t: int|
        0 <= t < cands.len() && !r.contains(#[trigger] cands[t]) ==> (r.len() == m && (m == 0 || listed_before(
            cands,
            r[m - 1],
            t,
        ))) || exists|i: int|
            0 <= i < r.len() && listed_before(cands, #[trigger] r[i], t) && ieee_lt(d(cands[t], r[i]), d(cands[t], base))
}

/// The selection of neighbours is the heuristic choice: it keeps a candidate exactly when
/// fewer than `m` are kept before it and no node kept before it is nearer to it than
/// `base` is.
pub proof fn lemma_select_heuristic(d: spec_fn(usize, usize) -> u32, base: usize, cands: Seq<usize>, m: nat)
    ensures
        heuristic_choice(d, base, cands, m, select_spec(d, base, cands, m)),
    decreases cands.len(),
{
    if cands.len() > 0 {
        let c0 = cands.drop_last();
        let n0 = c0.len() as int;
        let prev = select_spec(d, base, c0, m);
        let x = cands.last();
        let r = select_spec(d, base, cands, m);
        lemma_select_heuristic(d, base, c0, m);
        lemma_select_props(d, base, c0, m);
        assert(r == prev || (r == prev.push(x) && prev.len() < m && !shadowed(d, base, prev, x)));
        assert forall|y: usize, t: int| t <= n0 && #[trigger] listed_before(c0, y, t) implies listed_before(cands, y, t) by {
            let a = choose|a: int| 0 <= a < t && c0[a] == y;
            assert(cands[a] == y);
        }
        assert forall|i: int| 0 <= i < prev.len() implies listed_before(cands, #[trigger] prev[i], n0) by {
            assert(c0.contains(prev[i]));
            let a = choose|a: int| 0 <= a < c0.len() && c0[a] == prev[i];
            assert(cands[a] == prev[i]);
        }
        assert forall|i: int| 0 <= i < r.len() implies cands.contains(#[trigger] r[i]) by {
            if i < prev.len() {
                assert(r[i] == prev[i]);
                assert(listed_before(cands, prev[i], n0));
            } else {
                assert(cands[n0] == r[i]);
            }
        }
        assert forall|i: int, j: int| 0 <= i < j < r.len() implies exists|b: int|
            0 <= b < cands.len() && cands[b] == #[trigger] r[j] && listed_before(cands, #[trigger] r[i], b) by {
            assert(r[i] == prev[i]);
            if j < prev.len() {
                assert(r[j] == prev[j]);
                let b = choose|b: int| 0 <= b < c0.len() && c0[b] == prev[j] && listed_before(c0, prev[i], b);
                assert(cands[b] == r[j]);
                assert(listed_before(cands, r[i], b));
            } else {
                assert(cands[n0] == r[j]);
                assert(listed_before(cands, r[i], n0));
            }
        }
        assert forall|i: int, j: int| 0 <= j < i < r.len() implies !ieee_lt(d(#[trigger] r[i], #[trigger] r[j]), d(r[i], base)) by {
            assert(r[j] == prev[j]);
            if i < prev.len() {
                assert(r[i] == prev[i]);
            } else {
                assert(r[i] == x);
                if ieee_lt(d(x, prev[j]), d(x, base)) {
                    assert(shadowed(d, base, prev, x));
                }
            }
        }
        assert forall|t: int| 0 <= t < cands.len() && !r.contains(#[trigger] cands[t]) implies (r.len() == m && (m == 0
            || listed_before(cands, r[m - 1], t))) || exists|i: int|
            0 <= i < r.len() && listed_before(cands, #[trigger] r[i], t) && ieee_lt(d(cands[t], r[i]), d(cands[t], base)) by {
            if t < n0 {
                assert(cands[t] == c0[t]);
                if prev.contains(c0[t]) {
                    let i = choose|i: int| 0 <= i < prev.len() && prev[i] == c0[t];
                    assert(r[i] == prev[i]);
                    assert(r.contains(cands[t]));
                }
                if prev.len() == m && (m == 0 || listed_before(c0, prev[m - 1], t)) {
                    assert(r == prev);
                } else {
                    let i = choose|i: int|
                        0 <= i < prev.len() && listed_before(c0, #[trigger] prev[i], t) && ieee_lt(d(c0[t], prev[i]), d(c0[t], base));
                    assert(r[i] == prev[i]);
                    assert(listed_before(cands, r[i], t));
                }
            } else {
                assert(cands[t] == x);
                if r != prev {
                    assert(r[prev.len() as int] == x);
                    assert(r.contains(x));
                }
                if prev.len() >= m {
                    if m > 0 {
                        assert(listed_before(cands, prev[m - 1], n0));
                    }
                } else {
                    assert(shadowed(d, base, prev, x));
                    let j = choose|j: int| 0 <= j < prev.len() && ieee_lt(d(x, #[trigger] prev[j]), d(x, base));
                    assert(listed_before(cands, prev[j], n0));
                }
            }
        }
    }
}

/// Once `m` neighbours are chosen, later candidates change nothing.
pub proof fn lemma_select_full(d: spec_fn(usize, usize) -> u32, base: usize, cands: Seq<usize>, i: int, m: nat)
    requires
        0 <= i <= cands.len(),
        select_spec(d, base, cands.take(i), m).len() >= m,
    ensures
        select_spec(d, base, cands, m) == select_spec(d, base, cands.take(i), m),
    decreases cands.len() - i,
{
    if i < cands.len() {
        assert(cands.take(i + 1).drop_last() =~= cands.take(i));
        lemma_select_full(d, base, cands, i + 1, m);
    } else {
        assert(cands.take(i) =~= cands);
    }
}

/// When any neighbour may be chosen, the first candidate is chosen first.
pub proof fn lemma_select_first(d: spec_fn(usize, usize) -> u32, base: usize, cands: Seq<usize>, m: nat)
    requires
        cands.len() >= 1,
        m >= 1,
    ensures
        select_spec(d, base, cands, m).len() >= 1,
        select_spec(d, base, cands, m)[0] == cands[0],
    decreases cands.len(),
{
    let r = select_spec(d, base, cands, m);
    let prev = select_spec(d, base, cands.drop_last(), m);
    if cands.len() == 1 {
        assert(cands.drop_last().len() == 0);
        assert(prev == Seq::<usize>::empty());
        assert(!shadowed(d, base, prev, cands.last()));
        assert(r == prev.push(cands.last()));
        assert(r[0] == cands[0]);
    } else {
        lemma_select_first(d, base, cands.drop_last(), m);
        assert(prev[0] == cands[0]);
        assert(r == prev || r == prev.push(cands.last()));
        assert(r[0] == prev[0]);
    }
}

/// Pruning a non-empty list to a positive capacity leaves it non-empty.
pub proof fn lemma_prune_nonempty(d: spec_fn(usize, usize) -> u32, s: usize, xs: Seq<usize>, cap: nat)
    requires
        xs.len() >= 1,
        cap >= 1,
    ensures
        prune_spec(d, s, xs, cap).len() >= 1,
{
    let k = keyed(d, s, xs);
    lemma_sort_props(k);
    lemma_select_first(d, s, nodes_of(sort_by_distance(k)), cap);
}

/// The chosen neighbours are at most `m` candidates, each taken once.
pub proof fn lemma_select_props(d: spec_fn(usize, usize) -> u32, base: usize, cands: Seq<usize>, m: nat)
    ensures
        select_spec(d, base, cands, m).len() <= m,
        select_spec(d, base, cands, m).len() <= cands.len(),
        forall|i: int|
            0 <= i < select_spec(d, base, cands, m).len() ==> cands.contains(
                #[trigger] select_spec(d, base, cands, m)[i],
            ),
        distinct(cands) ==> distinct(select_spec(d, base, cands, m)),
    decreases cands.len(),
{
    if cands.len() > 0 {
        let c0 = cands.drop_last();
        let prev = select_spec(d, base, c0, m);
        lemma_select_props(d, base, c0, m);
        let r = select_spec(d, base, cands, m);
        assert forall|i: int| 0 <= i < r.len() implies cands.contains(#[trigger] r[i]) by {
            if i < prev.len() {
                assert(c0.contains(prev[i]));
                let t = choose|t: int| 0 <= t < c0.len() && c0[t] == prev[i];
                assert(cands[t] == prev[i]);
            } else {
                assert(cands[cands.len() - 1] == r[i]);
            }
        }
        if distinct(cands) {
            assert(distinct(c0)) by {
                assert forall|a: int, b: int| 0 <= a < b < c0.len() implies #[trigger] c0[a] != #[trigger] c0[b] by {
                    assert(c0[a] == cands[a] && c0[b] == cands[b]);
                }
            }
            assert forall|a: int, b: int| 0 <= a < b < r.len() implies #[trigger] r[a] != #[trigger] r[b] by {
                if b == prev.len() {
                    assert(c0.contains(prev[a]));
                    let t = choose|t: int| 0 <= t < c0.len() && c0[t] == prev[a];
                    assert(cands[t] == prev[a]);
                    assert(r[b] == cands[cands.len() - 1]);
                }
            }
        }
    }
}

/// Chooses, with distances `d` computed by `dist`, the neighbours of `base` among `cands`.
pub(crate) fn select_with<F: Fn(usize, usize) -> u32>(
    dist: &F,
    Ghost(d): Ghost<spec_fn(usize, usize) -> u32>,
    Ghost(n): Ghost<nat>,
    base: usize,
    cands: &Vec<usize>,
    m: usize,
) -> (res: Vec<usize>)
    requires
        pair_computes(*dist, n, d),
        base < n,
        forall|i: int| 0 <= i < cands@.len() ==> #[trigger] cands@[i] < n,
    ensures
        res@ == select_spec(d, base, cands@, m as nat),
{
    let mut survivors: Vec<usize> = Vec::new();
    let mut i: usize = 0;
    assert(cands@.len() == 0 ==> cands@.take(0) =~= cands@);
    while i < cands.len()
        invariant
            pair_computes(*dist, n, d),
            base < n,
            forall|t: int| 0 <= t < cands@.len() ==> #[trigger] cands@[t] < n,
            i <= cands@.len(),
            survivors@ == select_spec(d, base, cands@.take(i as int), m as nat),
            i == cands@.len() ==> survivors@ == select_spec(d, base, cands@, m as nat),
        ensures
            survivors@ == select_spec(d, base, cands@, m as nat),
        decreases cands@.len() - i,
    {
        if survivors.len() >= m {
            proof {
                lemma_select_full(d, base, cands@, i as int, m as nat);
            }
            break;
        }
        let node = cands[i];
        let dist1 = dist(node, base);
        let mut keep = true;
        let mut j: usize = 0;
        while j < survivors.len()
            invariant
                pair_computes(*dist, n, d),
                i < cands@.len(),
                node == cands@[i as int],
                node < n,
                dist1 == d(node, base),
                survivors@ == select_spec(d, base, cands@.take(i as int), m as nat),
                forall|t: int| 0 <= t < cands@.len() ==> #[trigger] cands@[t] < n,
                j <= survivors@.len(),
                keep ==> forall|t: int| 0 <= t < j ==> !ieee_lt(d(node, #[trigger] survivors@[t]), d(node, base)),
                !keep ==> shadowed(d, base, survivors@, node),
            ensures
                keep ==> !shadowed(d, base, survivors@, node),
                !keep ==> shadowed(d, base, survivors@, node),
            decreases survivors@.len() - j,
        {
            assert(survivors@[j as int] < n) by {
                lemma_select_props(d, base, cands@.take(i as int), m as nat);
                assert(cands@.take(i as int).contains(survivors@[j as int]));
            }
            let dist2 = dist(node, survivors[j]);
            if float_lt(dist2, dist1) {
                keep = false;
                assert(ieee_lt(d(node, survivors@[j as int]), d(node, base)));
                break;
            }
            j = j + 1;
        }
        if keep {
            survivors.push(node);
        }
        i = i + 1;
        assert(cands@.take(i as int).drop_last() =~= cands@.take(i - 1));
        assert(i == cands@.len() ==> cands@.take(i as int) =~= cands@);
    }
    survivors
}

/// Where a stable sort by distance places an entry of distance `key` among the sorted
/// entries `s`: after every entry that is no farther.
pub open spec fn place_of(s: Seq<(u32, usize)>, key: u32) -> int
    decreases s.len(),
{
    if s.len() == 0 {
        0
    } else if s.last().0 <= key {
        s.len() as int
    } else {
        place_of(s.drop_last(), key)
    }
}

/// `s` sorted stably by distance, the first component: entries of equal distance keep
/// their order.
pub open spec fn sort_by_distance(s: Seq<(u32, usize)>) -> Seq<(u32, usize)>
    decreases s.len(),
{
    if s.len() == 0 {
        s
    } else {
        let r = sort_by_distance(s.drop_last());
        r.insert(place_of(r, s.last().0), s.last())
    }
}

/// Distances never decrease along `s`.
pub open spec fn by_distance(s: Seq<(u32, usize)>) -> bool {
    forall|i: int, j: int| 0 <= i < j < s.len() ==> (#[trigger] s[i]).0 <= (#[trigger] s[j]).0
}

/// No node occurs twice among the entries of `s`.
pub open spec fn nodes_distinct(s: Seq<(u32, usize)>) -> bool {
    forall|a: int, b: int| 0 <= a < b < s.len() ==> (#[trigger] s[a]).1 != (#[trigger] s[b]).1
}

/// The nodes of the entries of `s`, in order.
pub open spec fn nodes_of(s: Seq<(u32, usize)>) -> Seq<usize> {
    s.map_values(|e: (u32, usize)| e.1)
}

/// Each node of `xs` paired with the order key of its distance to `s`.
pub open spec fn keyed(d: spec_fn(usize, usize) -> u32, s: usize, xs: Seq<usize>) -> Seq<(u32, usize)> {
    xs.map_values(|x: usize| (key_of(d(x, s)), x))
}

/// Every entry of `s` sorted is an entry of `s`.
proof fn lemma_sort_entries(s: Seq<(u32, usize)>)
    ensures
        forall|i: int| 0 <= i < sort_by_distance(s).len() ==> s.contains(#[trigger] sort_by_distance(s)[i]),
    decreases s.len(),
{
    if s.len() > 0 {
        let t = s.drop_last();
        let r = sort_by_distance(t);
        lemma_sort_entries(t);
        lemma_sort_props(t);
        lemma_place_of(r, s.last().0);
        let p = place_of(r, s.last().0);
        let out = sort_by_distance(s);
        assert(out == r.insert(p, s.last()));
        assert forall|i: int| 0 <= i < out.len() implies s.contains(#[trigger] out[i]) by {
            if i < p {
                assert(out[i] == r[i]);
                assert(t.contains(r[i]));
                let a = choose|a: int| 0 <= a < t.len() && t[a] == r[i];
                assert(s[a] == t[a]);
            } else if i == p {
                assert(out[i] == s[s.len() - 1]);
            } else {
                assert(out[i] == r[i - 1]);
                assert(t.contains(r[i - 1]));
                let a = choose|a: int| 0 <= a < t.len() && t[a] == r[i - 1];
                assert(s[a] == t[a]);
            }
        }
    }
}

/// `x` occurs in `c` before an occurrence of `y`.
pub open spec fn comes_before<T>(c: Seq<T>, x: T, y: T) -> bool {
    exists|a: int, b: int| 0 <= a < b < c.len() && c[a] == x && c[b] == y
}

/// The sort is stable: entries of equal distance keep the order they had in `s`.
proof fn lemma_sort_stable(s: Seq<(u32, usize)>)
    ensures
        forall|i: int, j: int|
            0 <= i < j < sort_by_distance(s).len() && (#[trigger] sort_by_distance(s)[i]).0 == (#[trigger] sort_by_distance(
                s,
            )[j]).0 ==> comes_before(s, sort_by_distance(s)[i], sort_by_distance(s)[j]),
    decreases s.len(),
{
    if s.len() > 0 {
        let t = s.drop_last();
        let e = s.last();
        let r = sort_by_distance(t);
        lemma_sort_stable(t);
        lemma_sort_entries(t);
        lemma_sort_props(t);
        lemma_place_of(r, e.0);
        let p = place_of(r, e.0);
        let out = sort_by_distance(s);
        assert(out == r.insert(p, e));
        assert forall|i: int, j: int| 0 <= i < j < out.len() && (#[trigger] out[i]).0 == (#[trigger] out[j]).0 implies comes_before(
            s,
            out[i],
            out[j],
        ) by {
            if j < p {
                assert(out[i] == r[i] && out[j] == r[j]);
                assert(comes_before(t, r[i], r[j]));
                let (a, b) = choose|a: int, b: int| 0 <= a < b < t.len() && t[a] == r[i] && t[b] == r[j];
                assert(s[a] == t[a] && s[b] == t[b]);
            } else if j == p {
                assert(out[i] == r[i]);
                assert(t.contains(r[i]));
                let a = choose|a: int| 0 <= a < t.len() && t[a] == r[i];
                assert(s[a] == t[a]);
                assert(s[s.len() - 1] == out[j]);
            } else if i < p {
                assert(out[i] == r[i] && out[j] == r[j - 1]);
                assert(r[j - 1].0 > e.0);
                assert(r[i].0 <= e.0);
            } else if i == p {
                assert(out[j] == r[j - 1]);
                assert(r[j - 1].0 > e.0);
            } else {
                assert(out[i] == r[i - 1] && out[j] == r[j - 1]);
                assert(comes_before(t, r[i - 1], r[j - 1]));
                let (a, b) = choose|a: int, b: int| 0 <= a < b < t.len() && t[a] == r[i - 1] && t[b] == r[j - 1];
                assert(s[a] == t[a] && s[b] == t[b]);
            }
        }
    }
}

/// Pruning the list `xs` of node `s` to `cap` entries sorts it stably by distance to `s`
/// (entries as near keep their order in `xs`), then makes the heuristic choice of `cap`
/// neighbours of `s` among the sorted entries.
pub proof fn lemma_prune_heuristic(d: spec_fn(usize, usize) -> u32, s: usize, xs: Seq<usize>, cap: nat)
    ensures
        ({
            let o = nodes_of(sort_by_distance(keyed(d, s, xs)));
            &&& o.len() == xs.len()
            &&& forall|x: usize| o.contains(x) <==> xs.contains(x)
            &&& forall|i: int, j: int|
                0 <= i < j < o.len() ==> key_of(d(#[trigger] o[i], s)) <= key_of(d(#[trigger] o[j], s))
            &&& forall|i: int, j: int|
                0 <= i < j < o.len() && key_of(d(#[trigger] o[i], s)) == key_of(d(#[trigger] o[j], s))
                    ==> comes_before(xs, o[i], o[j])
            &&& heuristic_choice(d, s, o, cap, prune_spec(d, s, xs, cap))
        }),
{
    let k = keyed(d, s, xs);
    let sorted = sort_by_distance(k);
    let o = nodes_of(sorted);
    lemma_sort_props(k);
    lemma_sort_entries(k);
    lemma_select_heuristic(d, s, o, cap);
    assert forall|i: int| 0 <= i < sorted.len() implies (#[trigger] sorted[i]).0 == key_of(d(sorted[i].1, s)) by {
        assert(k.contains(sorted[i]));
        let w = choose|w: int| 0 <= w < k.len() && k[w] == sorted[i];
    }
    assert forall|i: int, j: int| 0 <= i < j < o.len() implies key_of(d(#[trigger] o[i], s)) <= key_of(d(#[trigger] o[j], s)) by {
        assert(sorted[i].0 <= sorted[j].0);
        assert(sorted[i].0 == key_of(d(sorted[i].1, s)));
        assert(sorted[j].0 == key_of(d(sorted[j].1, s)));
    }
    lemma_sort_stable(k);
    assert forall|i: int, j: int|
        0 <= i < j < o.len() && key_of(d(#[trigger] o[i], s)) == key_of(d(#[trigger] o[j], s)) implies comes_before(xs, o[i], o[j]) by {
        assert(sorted[i].0 == key_of(d(sorted[i].1, s)));
        assert(sorted[j].0 == key_of(d(sorted[j].1, s)));
        assert(comes_before(k, sorted[i], sorted[j]));
        let (a, b) = choose|a: int, b: int| 0 <= a < b < k.len() && k[a] == sorted[i] && k[b] == sorted[j];
        assert(xs[a] == o[i] && xs[b] == o[j]);
    }
    assert forall|x: usize| o.contains(x) <==> xs.contains(x) by {
        if o.contains(x) {
            let i = choose|i: int| 0 <= i < o.len() && o[i] == x;
            assert(sorted[i].1 == x);
            assert(holds(sorted, x));
            assert(holds(k, x));
            let w = choose|w: int| 0 <= w < k.len() && (#[trigger] k[w]).1 == x;
            assert(xs[w] == x);
        }
        if xs.contains(x) {
            let w = choose|w: int| 0 <= w < xs.len() && xs[w] == x;
            assert(k[w].1 == x);
            assert(holds(k, x));
            assert(holds(sorted, x));
            let i = choose|i: int| 0 <= i < sorted.len() && (#[trigger] sorted[i]).1 == x;
            assert(o[i] == x);
        }
    }
}

/// The neighbour list of `s` cut down to `cap` entries: its nodes sorted stably by their
/// distance to `s`, then chosen as [`select_spec`] does.
pub open spec fn prune_spec(d: spec_fn(usize, usize) -> u32, s: usize, xs: Seq<usize>, cap: nat) -> Seq<usize> {
    select_spec(d, s, nodes_of(sort_by_distance(keyed(d, s, xs))), cap)
}

proof fn lemma_place_of(s: Seq<(u32, usize)>, key: u32)
    requires
        by_distance(s),
    ensures
        0 <= place_of(s, key) <= s.len(),
        forall|i: int| 0 <= i < place_of(s, key) ==> (#[trigger] s[i]).0 <= key,
        forall|i: int| place_of(s, key) <= i < s.len() ==> (#[trigger] s[i]).0 > key,
    decreases s.len(),
{
    if s.len() > 0 && s.last().0 > key {
        let t = s.drop_last();
        lemma_place_of(t, key);
        assert forall|i: int| 0 <= i < place_of(s, key) implies (#[trigger] s[i]).0 <= key by {
            assert(s[i] == t[i]);
        }
        assert forall|i: int| place_of(s, key) <= i < s.len() implies (#[trigger] s[i]).0 > key by {
            if i < t.len() {
                assert(s[i] == t[i]);
            }
        }
    }
}

/// The stable sort keeps the entries, orders them by distance, and keeps nodes distinct.
pub proof fn lemma_sort_props(s: Seq<(u32, usize)>)
    ensures
        sort_by_distance(s).len() == s.len(),
        by_distance(sort_by_distance(s)),
        forall|x: usize| holds(sort_by_distance(s), x) <==> holds(s, x),
        nodes_distinct(s) ==> nodes_distinct(sort_by_distance(s)),
    decreases s.len(),
{
    if s.len() > 0 {
        let t = s.drop_last();
        let r = sort_by_distance(t);
        let e = s.last();
        lemma_sort_props(t);
        lemma_place_of(r, e.0);
        let p = place_of(r, e.0);
        let out = r.insert(p, e);
        assert forall|i: int, j: int| 0 <= i < j < out.len() implies (#[trigger] out[i]).0 <= (#[trigger] out[j]).0 by {
            if j < p {
            } else if j == p {
                assert(out[i] == r[i]);
            } else if i < p {
                assert(out[i] == r[i]);
                assert(out[j] == r[j - 1]);
            } else if i == p {
                assert(out[j] == r[j - 1]);
            } else {
                assert(out[i] == r[i - 1]);
                assert(out[j] == r[j - 1]);
            }
        }
        assert forall|x: usize| holds(out, x) <==> holds(s, x) by {
            lemma_holds_insert(r, p, e, x);
            if holds(t, x) {
                let i = choose|i: int| 0 <= i < t.len() && (#[trigger] t[i]).1 == x;
                assert(s[i] == t[i]);
            }
            if holds(s, x) {
                let i = choose|i: int| 0 <= i < s.len() && (#[trigger] s[i]).1 == x;
                if i < t.len() {
                    assert(s[i] == t[i]);
                }
            }
        }
        if nodes_distinct(s) {
            assert(nodes_distinct(t)) by {
                assert forall|a: int, b: int| 0 <= a < b < t.len() implies (#[trigger] t[a]).1 != (#[trigger] t[b]).1 by {
                    assert(t[a] == s[a] && t[b] == s[b]);
                }
            }
            assert(!holds(t, e.1)) by {
                if holds(t, e.1) {
                    let i = choose|i: int| 0 <= i < t.len() && (#[trigger] t[i]).1 == e.1;
                    assert(s[i] == t[i]);
                    assert(s[s.len() - 1] == e);
                }
            }
            assert forall|a: int, b: int| 0 <= a < b < out.len() implies (#[trigger] out[a]).1 != (#[trigger] out[b]).1 by {
                if a == p {
                    assert(out[b] == r[b - 1]);
                    assert(holds(r, out[b].1));
                } else if b == p {
                    assert(out[a] == r[a]);
                    assert(holds(r, out[a].1));
                } else {
                    let a1 = if a < p { a } else { a - 1 };
                    let b1 = if b < p { b } else { b - 1 };
                    assert(out[a] == r[a1]);
                    assert(out[b] == r[b1]);
                }
            }
        }
    }
}

/// Sorts `s` stably by distance.
fn sort_entries(s: &Vec<(u32, usize)>) -> (r: Vec<(u32, usize)>)
    ensures
        r@ == sort_by_distance(s@),
{
    let mut r: Vec<(u32, usize)> = Vec::new();
    let mut i: usize = 0;
    while i < s.len()
        invariant
            i <= s@.len(),
            r@ == sort_by_distance(s@.take(i as int)),
        decreases s@.len() - i,
    {
        let e = s[i];
        let mut p: usize = r.len();
        assert(r@.take(p as int) =~= r@);
        while p > 0 && r[p - 1].0 > e.0
            invariant
                p <= r@.len(),
                place_of(r@, e.0) == place_of(r@.take(p as int), e.0),
            decreases p,
        {
            assert(r@.take(p as int).drop_last() =~= r@.take(p - 1));
            p = p - 1;
        }
        proof {
            if p == r@.len() {
                assert(r@.take(p as int) =~= r@);
            }
            assert(place_of(r@, e.0) == p);
            assert(s@.take(i + 1).drop_last() =~= s@.take(i as int));
        }
        r.insert(p, e);
        i = i + 1;
    }
    assert(s@.take(s@.len() as int) =~= s@);
    r
}

/// Cuts the neighbour list `xs` of node `s` down to `cap` entries, as [`prune_spec`] says.
pub(crate) fn prune_with<F: Fn(usize, usize) -> u32>(
    dist: &F,
    Ghost(d): Ghost<spec_fn(usize, usize) -> u32>,
    Ghost(n): Ghost<nat>,
    s: usize,
    xs: &Vec<usize>,
    cap: usize,
) -> (res: Vec<usize>)
    requires
        pair_computes(*dist, n, d),
        s < n,
        forall|i: int| 0 <= i < xs@.len() ==> #[trigger] xs@[i] < n,
    ensures
        res@ == prune_spec(d, s, xs@, cap as nat),
{
    let mut temp: Vec<(u32, usize)> = Vec::new();
    let mut i: usize = 0;
    while i < xs.len()
        invariant
            pair_computes(*dist, n, d),
            s < n,
            forall|t: int| 0 <= t < xs@.len() ==> #[trigger] xs@[t] < n,
            i <= xs@.len(),
            temp@ == keyed(d, s, xs@.take(i as int)),
        decreases xs@.len() - i,
    {
        let x = xs[i];
        let dx = distance_key(dist(x, s));
        temp.push((dx, x));
        i = i + 1;
        assert(temp@ =~= keyed(d, s, xs@.take(i as int)));
    }
    assert(xs@.take(xs@.len() as int) =~= xs@);
    let sorted = sort_entries(&temp);
    let mut order: Vec<usize> = Vec::new();
    let mut j: usize = 0;
    while j < sorted.len()
        invariant
            j <= sorted@.len(),
            order@ == nodes_of(sorted@.take(j as int)),
        decreases sorted@.len() - j,
    {
        order.push(sorted[j].1);
        j = j + 1;
        assert(order@ =~= nodes_of(sorted@.take(j as int)));
    }
    assert(sorted@.take(sorted@.len() as int) =~= sorted@);
    proof {
        lemma_sort_props(temp@);
        assert forall|t: int| 0 <= t < order@.len() implies #[trigger] order@[t] < n by {
            assert(order@[t] == sorted@[t].1);
            assert(holds(sorted@, order@[t]));
            assert(holds(temp@, order@[t]));
            let u = choose|u: int| 0 <= u < temp@.len() && (#[trigger] temp@[u]).1 == order@[t];
            assert(temp@[u].1 == xs@[u]);
        }
    }
    select_with(dist, Ghost(d), Ghost(n), s, &order, cap)
}

impl Index {
    /// The neighbours of `base_vec` chosen among the candidates `neighbor`, taken in their
    /// order: a candidate is kept while fewer than `m` are kept and no kept node is nearer
    /// to it than `base_vec` is. `dist` reports each distance as the bit pattern of an
    /// `f32`, and "nearer" is the IEEE `<` on those floats, so a NaN distance is never
    /// nearer than anything.
    pub fn select_neighbors<F: Fn(usize, usize) -> u32>(
        &self,
        dist: &F,
        base_vec: usize,
        neighbor: &Vec<usize>,
        m: usize,
    ) -> (res: Vec<usize>)
        requires
            pair_oracle(*dist, self.node_count()),
            base_vec < self.node_count(),
            forall|i: int| 0 <= i < neighbor@.len() ==> #[trigger] neighbor@[i] < self.node_count(),
        ensures
            res@ == select_spec(pair_dists(*dist), base_vec, neighbor@, m as nat),
    {
        proof {
            lemma_pair_oracle_computes(*dist, self.node_count());
        }
        select_with(dist, Ghost(pair_dists(*dist)), Ghost(self.node_count()), base_vec, neighbor, m)
    }
}

} // verus!
