//! Greedy best-first search on one layer, and the layered search from the entry point.
use vstd::prelude::*;
use vstd::set_lib::{lemma_int_range, lemma_len_subset, lemma_map_size_bound, set_int_range};
use std::collections::HashSet;
use crate::index::Index;
use crate::oracle::{lemma_query_oracle_computes, query_computes, query_dist, query_keys, query_oracle};
use crate::metric::{distance_key, key_of};
use crate::select::nodes_of;
use crate::order::{count_before, lemma_count_before_bound, lemma_count_before_zero, insert_asc, insert_desc, ascending, descending, holds, insert_ascending, insert_descending, lemma_holds_drop_last, lemma_holds_insert, pair_lt};

verus! {

broadcast use vstd::std_specs::hash::group_hash_axioms;

/// `x` comes before `y` under the distances `d`: nearer, or as near with a smaller identifier.
pub open spec fn before(d: spec_fn(usize) -> u32, x: usize, y: usize) -> bool {
    pair_lt((d(x), x), (d(y), y))
}

/// How many results a search of breadth `ef` keeps: `ef`, and at least one.
pub open spec fn breadth(ef: usize) -> nat {
    if ef == 0 {
        1
    } else {
        ef as nat
    }
}

/// How many of the `n` nodes of a graph the set `visited` leaves out.
pub open spec fn unvisited(n: nat, visited: Set<usize>) -> int {
    n - visited.len()
}

/// A set of node identifiers below `n` is finite and holds at most `n` of them.
proof fn lemma_bounded_nodes(v: Set<usize>, n: nat)
    requires
        forall|x: usize| v.contains(x) ==> x < n,
    ensures
        v.finite(),
        v.len() <= n,
{
    let f = |i: int| i as usize;
    let r = set_int_range(0, n as int);
    lemma_int_range(0, n as int);
    r.lemma_map_finite(f);
    lemma_map_size_bound(r, r.map(f), f);
    assert forall|x: usize| v.contains(x) implies r.map(f).contains(x) by {
        assert(r.contains(x as int));
        assert(f(x as int) == x);
    }
    lemma_len_subset(v, r.map(f));
}

/// The state of a layer search: the visited nodes, the frontier (farthest first) and the
/// kept results (nearest first).
pub type SearchState = (Set<usize>, Seq<(u32, usize)>, Seq<(u32, usize)>);

/// Visiting the neighbour `nb` during a search of breadth `ef`: a node not yet visited is
/// marked visited; unless `ef` results are kept and the farthest of them is nearer than
/// `nb`, it joins the frontier and the results, and the results drop their farthest entry
/// once they hold more than `ef`.
pub open spec fn visit_step(d: spec_fn(usize) -> u32, ef: usize, st: SearchState, nb: usize) -> SearchState {
    if st.0.contains(nb) {
        st
    } else {
        let vis = st.0.insert(nb);
        let nd = d(nb);
        if st.2.len() >= ef && st.2.last().0 < nd {
            (vis, st.1, st.2)
        } else {
            let b = insert_asc(st.2, (nd, nb));
            (vis, insert_desc(st.1, (nd, nb)), if b.len() > ef {
                b.drop_last()
            } else {
                b
            })
        }
    }
}

/// Visiting the neighbours `nbrs` in order.
pub open spec fn expand_step(d: spec_fn(usize) -> u32, ef: usize, st: SearchState, nbrs: Seq<usize>) -> SearchState
    decreases nbrs.len(),
{
    if nbrs.len() == 0 {
        st
    } else {
        visit_step(d, ef, expand_step(d, ef, st, nbrs.drop_last()), nbrs.last())
    }
}

/// The first kept result `b[0]` is `start` or comes before it under `d`, and is keyed by
/// its distance.
pub open spec fn leads_to_start(d: spec_fn(usize) -> u32, start: usize, b: Seq<(u32, usize)>) -> bool {
    &&& b.len() >= 1
    &&& b[0].0 == d(b[0].1)
    &&& b[0].1 == start || before(d, b[0].1, start)
}

/// Visiting a node never loses a result at least as near as `start`.
proof fn lemma_visit_leads(d: spec_fn(usize) -> u32, ef: usize, st: SearchState, nb: usize, start: usize)
    requires
        leads_to_start(d, start, st.2),
    ensures
        leads_to_start(d, start, visit_step(d, ef, st, nb).2),
{
    if !st.0.contains(nb) {
        let nd = d(nb);
        if !(st.2.len() >= ef && st.2.last().0 < nd) {
            let e = (nd, nb);
            let b = insert_asc(st.2, e);
            let p = count_before(st.2, e);
            lemma_count_before_bound(st.2, e);
            assert(b.len() == st.2.len() + 1);
            if p == 0 {
                lemma_count_before_zero(st.2, e);
                assert(!pair_lt(st.2[0], e));
                assert(b[0] == e);
                assert(b[1] == st.2[0]);
            } else {
                assert(b[0] == st.2[0]);
            }
            if b.len() > ef {
                assert(b.drop_last()[0] == b[0]);
            }
        }
    }
}

/// Visiting a list of nodes never loses a result at least as near as `start`.
proof fn lemma_expand_leads(d: spec_fn(usize) -> u32, ef: usize, st: SearchState, nbrs: Seq<usize>, start: usize)
    requires
        leads_to_start(d, start, st.2),
    ensures
        leads_to_start(d, start, expand_step(d, ef, st, nbrs).2),
    decreases nbrs.len(),
{
    if nbrs.len() > 0 {
        lemma_expand_leads(d, ef, st, nbrs.drop_last(), start);
        lemma_visit_leads(d, ef, expand_step(d, ef, st, nbrs.drop_last()), nbrs.last(), start);
    }
}

/// Rounds enough for any layer search: each round takes a node off the frontier, and a node
/// joins the frontier at most once.
pub open spec fn search_rounds() -> nat {
    usize::MAX as nat + 1
}

impl Index {
    /// The results of a layer search of breadth `ef` on layer `h` from state `st`, within
    /// `rounds` rounds: each round takes the nearest node off the frontier; the search stops
    /// when the frontier is empty, or when `ef` results are kept and the farthest of them is
    /// nearer than that node; otherwise the node's layer-`h` neighbours are visited.
    pub open spec fn greedy_run(
        &self,
        d: spec_fn(usize) -> u32,
        h: int,
        ef: usize,
        st: SearchState,
        rounds: nat,
    ) -> Seq<(u32, usize)>
        decreases rounds,
    {
        if rounds == 0 || st.1.len() == 0 {
            st.2
        } else {
            let p = st.1.last();
            if st.2.len() >= ef && st.2.last().0 < p.0 {
                st.2
            } else {
                self.greedy_run(
                    d,
                    h,
                    ef,
                    expand_step(d, ef, (st.0, st.1.drop_last(), st.2), self.links(p.1 as int, h)),
                    (rounds - 1) as nat,
                )
            }
        }
    }

    /// What the greedy search of layer `h` from `start` with breadth `ef` returns, nearest
    /// first, under the distances `d`.
    pub open spec fn greedy_layer(&self, d: spec_fn(usize) -> u32, h: int, start: usize, ef: usize) -> Seq<usize> {
        nodes_of(
            self.greedy_run(
                d,
                h,
                ef,
                (Set::empty().insert(start), seq![(d(start), start)], seq![(d(start), start)]),
                search_rounds(),
            ),
        )
    }

    /// A layer search stops as soon as it keeps `ef` results and the nearest node waiting
    /// to be expanded is farther than every one of them: the kept results are returned,
    /// and no further node is expanded.
    pub proof fn lemma_greedy_stops(&self, d: spec_fn(usize) -> u32, h: int, ef: usize, st: SearchState, rounds: nat)
        requires
            st.1.len() > 0,
            st.2.len() >= ef,
            st.2.len() > 0,
            st.2.last().0 < st.1.last().0,
        ensures
            self.greedy_run(d, h, ef, st, rounds) == st.2,
    {
    }

    /// The rounds of a layer search never lose a result at least as near as `start`.
    proof fn lemma_run_leads(&self, d: spec_fn(usize) -> u32, h: int, ef: usize, st: SearchState, rounds: nat, start: usize)
        requires
            leads_to_start(d, start, st.2),
        ensures
            leads_to_start(d, start, self.greedy_run(d, h, ef, st, rounds)),
        decreases rounds,
    {
        if rounds > 0 && st.1.len() > 0 {
            let p = st.1.last();
            if !(st.2.len() >= ef && st.2.last().0 < p.0) {
                let st2 = (st.0, st.1.drop_last(), st.2);
                lemma_expand_leads(d, ef, st2, self.links(p.1 as int, h), start);
                self.lemma_run_leads(d, h, ef, expand_step(d, ef, st2, self.links(p.1 as int, h)), (rounds - 1) as nat, start);
            }
        }
    }

    /// A layer search finds at least one node, and the first node it returns is its
    /// starting node or nearer than it.
    pub proof fn lemma_greedy_layer_first(&self, d: spec_fn(usize) -> u32, h: int, start: usize, ef: usize)
        ensures
            self.greedy_layer(d, h, start, ef).len() >= 1,
            self.greedy_layer(d, h, start, ef)[0] == start || before(d, self.greedy_layer(d, h, start, ef)[0], start),
    {
        let st0: SearchState = (Set::empty().insert(start), seq![(d(start), start)], seq![(d(start), start)]);
        assert(st0.2[0] == (d(start), start));
        self.lemma_run_leads(d, h, ef, st0, search_rounds(), start);
        let b = self.greedy_run(d, h, ef, st0, search_rounds());
        assert(self.greedy_layer(d, h, start, ef)[0] == b[0].1);
    }

    /// `x` is a layer-`h` neighbour of some member of `v`.
    pub open spec fn reached(&self, h: int, v: Set<usize>, x: usize) -> bool {
        exists|y: usize, j: int|
            v.contains(y) && 0 <= j < self.links(y as int, h).len() && #[trigger] self.links(
                y as int,
                h,
            )[j] == x
    }

    /// Every layer-`h` neighbour of `x` is in `v`.
    pub open spec fn expanded(&self, h: int, v: Set<usize>, x: usize) -> bool {
        forall|j: int|
            0 <= j < self.links(x as int, h).len() ==> v.contains(#[trigger] self.links(x as int, h)[j])
    }

    /// `b` is in the layer-`h` neighbour list of `a`.
    pub open spec fn links_to(&self, h: int, a: usize, b: usize) -> bool {
        self.links(a as int, h).contains(b)
    }

    /// `s` starts at `start`, and each later entry is a layer-`h` neighbour of an earlier one.
    pub open spec fn spreads_from(&self, h: int, start: usize, s: Seq<usize>) -> bool {
        &&& s.len() >= 1
        &&& s[0] == start
        &&& forall|i: int| 1 <= i < s.len() ==> #[trigger] self.linked_earlier(h, s, i)
    }

    /// The `i`-th entry of `s` is a layer-`h` neighbour of an entry before it.
    pub open spec fn linked_earlier(&self, h: int, s: Seq<usize>, i: int) -> bool {
        exists|j: int| 0 <= j < i && #[trigger] self.links_to(h, s[j], s[i])
    }

    /// `x` can be reached from `start` along layer-`h` edges.
    pub open spec fn reachable(&self, h: int, start: usize, x: usize) -> bool {
        exists|s: Seq<usize>| self.spreads_from(h, start, s) && s.contains(x)
    }

    /// The nodes reachable from `start` along layer-`h` edges.
    pub open spec fn reach_set(&self, h: int, start: usize) -> Set<usize> {
        Set::new(|x: usize| self.reachable(h, start, x))
    }

    /// Every entry of a walk spreading from a node of layer `h` is a node of layer `h`.
    proof fn lemma_spread_valid(&self, h: int, start: usize, s: Seq<usize>, i: int)
        requires
            self.graph_ok(),
            0 <= h,
            start < self.node_count(),
            h < self.levels(start as int),
            self.spreads_from(h, start, s),
            0 <= i < s.len(),
        ensures
            s[i] < self.node_count(),
            h < self.levels(s[i] as int),
        decreases i,
    {
        if i > 0 {
            assert(self.linked_earlier(h, s, i));
            let j = choose|j: int| 0 <= j < i && #[trigger] self.links_to(h, s[j], s[i]);
            self.lemma_spread_valid(h, start, s, j);
            let t = choose|t: int| 0 <= t < self.links(s[j] as int, h).len() && self.links(s[j] as int, h)[t] == s[i];
            assert(self.links(s[j] as int, h)[t] == s[i]);
        }
    }

    /// The reachable nodes form a finite set that holds `start`.
    proof fn lemma_reach_finite(&self, h: int, start: usize)
        requires
            self.graph_ok(),
            0 <= h,
            start < self.node_count(),
            h < self.levels(start as int),
        ensures
            self.reach_set(h, start).finite(),
            self.reach_set(h, start).contains(start),
            self.reach_set(h, start).len() >= 1,
    {
        let r = self.reach_set(h, start);
        let n = self.node_count() as int;
        let f = |i: int| i as usize;
        let b = set_int_range(0, n).map(f);
        lemma_int_range(0, n);
        set_int_range(0, n).lemma_map_finite(f);
        assert forall|x: usize| r.contains(x) implies b.contains(x) by {
            let w = choose|w: Seq<usize>| self.spreads_from(h, start, w) && w.contains(x);
            let i = choose|i: int| 0 <= i < w.len() && w[i] == x;
            self.lemma_spread_valid(h, start, w, i);
            assert(set_int_range(0, n).contains(x as int));
            assert(f(x as int) == x);
        }
        lemma_len_subset(r, b);
        let s0 = seq![start];
        assert(s0[0] == start);
        assert(self.spreads_from(h, start, s0));
        assert(s0.contains(start));
        assert(self.reachable(h, start, start));
        assert(r.contains(start));
        assert(r.remove(start).len() == r.len() - 1);
    }

    /// With fewer results than it may keep, a layer search has visited every node that a
    /// walk from `start` passes.
    proof fn lemma_walk_visited(
        &self,
        d: spec_fn(usize) -> u32,
        h: int,
        start: usize,
        k: nat,
        res: Seq<usize>,
        v: Set<usize>,
        s: Seq<usize>,
        i: int,
    )
        requires
            self.is_layer_result(d, h, start, k, res, v),
            res.len() < k,
            self.spreads_from(h, start, s),
            0 <= i < s.len(),
        ensures
            v.contains(s[i]),
        decreases i,
    {
        if i > 0 {
            assert(self.linked_earlier(h, s, i));
            let j = choose|j: int| 0 <= j < i && #[trigger] self.links_to(h, s[j], s[i]);
            self.lemma_walk_visited(d, h, start, k, res, v, s, j);
            assert(self.expanded(h, v, s[j]));
            let t = choose|t: int| 0 <= t < self.links(s[j] as int, h).len() && self.links(s[j] as int, h)[t] == s[i];
            assert(v.contains(self.links(s[j] as int, h)[t]));
        }
    }

    /// When the search may keep as many results as there are reachable nodes, its results
    /// are exactly the reachable nodes.
    proof fn lemma_layer_covers(
        &self,
        d: spec_fn(usize) -> u32,
        h: int,
        start: usize,
        ef: usize,
        res: Seq<usize>,
        v: Set<usize>,
    )
        requires
            self.graph_ok(),
            0 <= h,
            start < self.node_count(),
            h < self.levels(start as int),
            self.is_layer_result(d, h, start, breadth(ef), res, v),
            self.reach_set(h, start).len() <= ef,
        ensures
            res.to_set() == self.reach_set(h, start),
    {
        let r = self.reach_set(h, start);
        let k = breadth(ef);
        self.lemma_reach_finite(h, start);
        reveal(Index::listed_from);
        let w = choose|w: Seq<usize>|
            self.spreads_from(h, start, w) && (forall|i: int| 0 <= i < w.len() ==> v.contains(#[trigger] w[i]))
                && (forall|x: usize| v.contains(x) ==> w.contains(x));
        assert forall|x: usize| res.to_set().contains(x) implies r.contains(x) by {
            let i = choose|i: int| 0 <= i < res.len() && res[i] == x;
            assert(v.contains(res[i]));
            assert(w.contains(x));
        }
        assert forall|a: int, b: int| 0 <= a < res.len() && 0 <= b < res.len() && a != b implies res[a] != res[b] by {
            if a < b {
                assert(before(d, res[a], res[b]));
            } else {
                assert(before(d, res[b], res[a]));
            }
        }
        assert(res.no_duplicates());
        res.unique_seq_to_set();
        lemma_len_subset(res.to_set(), r);
        assert(ef >= 1);
        assert forall|x: usize| r.contains(x) implies res.to_set().contains(x) by {
            if !res.contains(x) {
                if res.len() < k {
                    let s = choose|s: Seq<usize>| self.spreads_from(h, start, s) && s.contains(x);
                    let i = choose|i: int| 0 <= i < s.len() && s[i] == x;
                    self.lemma_walk_visited(d, h, start, k, res, v, s, i);
                } else {
                    assert(res.to_set().subset_of(r.remove(x)));
                    lemma_len_subset(res.to_set(), r.remove(x));
                }
            }
        }
        assert(res.to_set() =~= r);
    }

    /// The nodes of `v` can be listed from `start` so that each is a layer-`h` neighbour of
    /// one listed before it.
    #[verifier::opaque]
    pub open spec fn listed_from(&self, h: int, start: usize, v: Set<usize>) -> bool {
        exists|s: Seq<usize>|
            self.spreads_from(h, start, s) && (forall|i: int| 0 <= i < s.len() ==> v.contains(#[trigger] s[i]))
                && (forall|x: usize| v.contains(x) ==> s.contains(x))
    }

    /// Adding a layer-`h` neighbour of a listed node keeps the nodes listed.
    pub proof fn lemma_listed_push(&self, h: int, start: usize, v: Set<usize>, y: usize, t: int, nb: usize)
        requires
            self.listed_from(h, start, v),
            v.contains(y),
            0 <= t < self.links(y as int, h).len(),
            self.links(y as int, h)[t] == nb,
        ensures
            self.listed_from(h, start, v.insert(nb)),
    {
        reveal(Index::listed_from);
        let s = choose|s: Seq<usize>|
            self.spreads_from(h, start, s) && (forall|i: int| 0 <= i < s.len() ==> v.contains(#[trigger] s[i]))
                && (forall|x: usize| v.contains(x) ==> s.contains(x));
        let s2 = s.push(nb);
        assert(s.contains(y));
        let jy = choose|j: int| 0 <= j < s.len() && s[j] == y;
        assert forall|i: int| 1 <= i < s2.len() implies #[trigger] self.linked_earlier(h, s2, i) by {
            if i == s.len() {
                assert(s2[jy] == y);
                assert(s2[i] == nb);
                assert(self.links(y as int, h)[t] == nb);
                assert(self.links_to(h, s2[jy], s2[i]));
            } else {
                assert(s2[i] == s[i]);
                assert(self.linked_earlier(h, s, i));
                let j = choose|j: int| 0 <= j < i && #[trigger] self.links_to(h, s[j], s[i]);
                assert(s2[j] == s[j]);
                assert(self.links_to(h, s2[j], s2[i]));
            }
        }
        assert forall|x: usize| v.insert(nb).contains(x) implies s2.contains(x) by {
            if x == nb {
                assert(s2[s.len() as int] == nb);
            } else {
                let i = choose|i: int| 0 <= i < s.len() && s[i] == x;
                assert(s2[i] == x);
            }
        }
        assert forall|i: int| 0 <= i < s2.len() implies v.insert(nb).contains(#[trigger] s2[i]) by {
            if i < s.len() {
                assert(s2[i] == s[i]);
            }
        }
        assert(s2[0] == s[0]);
        assert(s2.len() >= 1);
        assert(s2[0] == start);
        assert(self.spreads_from(h, start, s2));
    }

    /// `res` is what a search of layer `h` from `start`, keeping `k` results, may return
    /// after visiting the nodes `v`: `v` holds `start`, each of its other nodes is a
    /// layer-`h` neighbour of one of its nodes, and all of them can be listed from `start`
    /// along layer-`h` edges; `res` is the `k` first of `v` (all of `v` if it has fewer),
    /// in order of distance; and every node of `v` that is no farther than the last result
    /// has had all its neighbours visited.
    pub open spec fn is_layer_result(
        &self,
        d: spec_fn(usize) -> u32,
        h: int,
        start: usize,
        k: nat,
        res: Seq<usize>,
        v: Set<usize>,
    ) -> bool {
        &&& v.contains(start)
        &&& forall|x: usize| v.contains(x) ==> x < self.node_count() && h < self.levels(x as int)
        &&& forall|x: usize| #[trigger] v.contains(x) && x != start ==> self.reached(h, v, x)
        &&& self.listed_from(h, start, v)
        &&& 1 <= res.len() <= k
        &&& forall|i: int, j: int| 0 <= i < j < res.len() ==> before(d, #[trigger] res[i], #[trigger] res[j])
        &&& forall|i: int| 0 <= i < res.len() ==> v.contains(#[trigger] res[i])
        &&& forall|x: usize| #[trigger] v.contains(x) && !res.contains(x) ==> res.len() == k && before(d, res.last(), x)
        &&& forall|x: usize|
            #[trigger] v.contains(x) && (res.len() < k || !before(d, res.last(), x)) ==> self.expanded(h, v, x)
    }

    /// The nodes of `v` that are not yet expanded lie beyond the last kept result.
    spec fn search_inv(
        &self,
        d: spec_fn(usize) -> u32,
        h: int,
        start: usize,
        k: nat,
        visited: Set<usize>,
        v: Set<usize>,
        e: Set<usize>,
        frontier: Seq<(u32, usize)>,
        board: Seq<(u32, usize)>,
        pending: Option<usize>,
    ) -> bool {
        &&& visited == v
        &&& v.finite()
        &&& v.len() <= self.node_count()
        &&& forall|x: usize| v.contains(x) ==> x < self.node_count() && h < self.levels(x as int)
        &&& v.contains(start)
        &&& forall|x: usize| #[trigger] v.contains(x) && x != start ==> self.reached(h, v, x)
        &&& 1 <= board.len() <= k
        &&& ascending(board)
        &&& forall|t: int|
            0 <= t < board.len() ==> v.contains((#[trigger] board[t]).1) && board[t].0 == d(board[t].1)
        &&& descending(frontier)
        &&& forall|t: int|
            0 <= t < frontier.len() ==> v.contains((#[trigger] frontier[t]).1) && frontier[t].0 == d(
                frontier[t].1,
            )
        &&& forall|x: usize| #[trigger] e.contains(x) ==> v.contains(x) && self.expanded(h, v, x)
        &&& forall|x: usize| #[trigger] v.contains(x) ==> holds(board, x) || settled(d, k, board, x)
        &&& forall|x: usize|
            #[trigger] v.contains(x) ==> pending == Some(x) || e.contains(x) || holds(frontier, x)
                || settled(d, k, board, x)
        &&& pending matches Some(p) ==> v.contains(p)
        &&& self.listed_from(h, start, v)
    }

    /// Visits `nb`, the `j`-th layer-`height` neighbour of the node `id` being expanded.
    #[verifier::rlimit(100)]
    #[verifier::spinoff_prover]
    fn visit<F: Fn(usize) -> u32>(
        &self,
        q: &F,
        Ghost(d): Ghost<spec_fn(usize) -> u32>,
        height: u32,
        ef: usize,
        Ghost(start): Ghost<usize>,
        Ghost(id): Ghost<usize>,
        j: usize,
        nb: usize,
        visited: &mut HashSet<usize>,
        frontier: &mut Vec<(u32, usize)>,
        board: &mut Vec<(u32, usize)>,
        Ghost(v): Ghost<Set<usize>>,
        Ghost(e): Ghost<Set<usize>>,
    ) -> (v2: Ghost<Set<usize>>)
        requires
            self.graph_ok(),
            query_computes(*q, self.node_count(), d),
            self.search_inv(d, height as int, start, breadth(ef), old(visited)@, v, e, old(frontier)@, old(board)@, Some(id)),
            0 <= j < self.links(id as int, height as int).len(),
            self.links(id as int, height as int)[j as int] == nb,
        ensures
            self.search_inv(d, height as int, start, breadth(ef), final(visited)@, v2@, e, final(frontier)@, final(board)@, Some(id)),
            v2@ == v.insert(nb),
            2 * unvisited(self.node_count(), final(visited)@) + final(frontier)@.len() <= 2 * unvisited(self.node_count(), old(visited)@) + old(frontier)@.len(),
            unvisited(self.node_count(), final(visited)@) + final(frontier)@.len() <= unvisited(self.node_count(), old(visited)@) + old(frontier)@.len(),
            (v2@, final(frontier)@, final(board)@) == visit_step(d, ef, (v, old(frontier)@, old(board)@), nb),
    {
        let ghost h = height as int;
        let ghost k = breadth(ef);
        let ghost n = self.node_count();
        assert(nb < n && h < self.levels(nb as int));
        if visited.contains(&nb) {
            assert(v.insert(nb) =~= v);
            return Ghost(v);
        }
        let ghost v0 = v;
        let ghost b0 = board@;
        let ghost f0 = frontier@;
        visited.insert(nb);
        let ghost v1 = v.insert(nb);
        proof {
            lemma_bounded_nodes(v1, n);
        }
        proof {
            assert(self.reached(h, v1, nb)) by {
                assert(self.links(id as int, h)[j as int] == nb);
            }
            self.lemma_listed_push(h, start, v, id, j as int, nb);
            assert forall|x: usize| #[trigger] e.contains(x) implies v1.contains(x) && self.expanded(h, v1, x) by {
                assert(self.expanded(h, v0, x));
            }
            assert forall|x: usize| #[trigger] v1.contains(x) && x != start implies self.reached(h, v1, x) by {
                if x != nb {
                    assert(self.reached(h, v0, x));
                    let (y, jj) = choose|y: usize, jj: int|
                        v0.contains(y) && 0 <= jj < self.links(y as int, h).len() && #[trigger] self.links(
                            y as int,
                            h,
                        )[jj] == x;
                    assert(self.links(y as int, h)[jj] == x);
                }
            }
        }
        let nd = q(nb);
        if board.len() >= ef && board[board.len() - 1].0 < nd {
            proof {
                assert(b0.len() == k);
                assert forall|x: usize| #[trigger] v1.contains(x) implies holds(b0, x) || settled(d, k, b0, x) by {
                    if x != nb {
                        assert(v0.contains(x));
                    }
                }
                assert forall|x: usize| #[trigger] v1.contains(x) implies Some(id) == Some(x) || e.contains(x) || holds(f0, x)
                    || settled(d, k, b0, x) by {
                    if x != nb {
                        assert(v0.contains(x));
                    }
                }
            }
            return Ghost(v1);
        }
        let fpos = insert_descending(frontier, (nd, nb));
        let bpos = insert_ascending(board, (nd, nb));
        let ghost b1 = board@;
        proof {
            assert forall|x: usize| holds(f0, x) || x == nb implies holds(frontier@, x) by {
                lemma_holds_insert(f0, fpos as int, (nd, nb), x);
            }
            assert forall|x: usize| holds(b0, x) || x == nb implies holds(b1, x) by {
                lemma_holds_insert(b0, bpos as int, (nd, nb), x);
            }
            assert(b1[bpos as int] == (nd, nb));
            assert forall|t: int| 0 <= t < b1.len() implies v1.contains((#[trigger] b1[t]).1) && b1[t].0 == d(b1[t].1) by {
                if t < bpos {
                    assert(b1[t] == b0[t]);
                } else if t > bpos {
                    assert(b1[t] == b0[t - 1]);
                }
            }
            assert forall|t: int| 0 <= t < frontier@.len() implies v1.contains((#[trigger] frontier@[t]).1)
                && frontier@[t].0 == d(frontier@[t].1) by {
                if t < fpos {
                    assert(frontier@[t] == f0[t]);
                } else if t > fpos {
                    assert(frontier@[t] == f0[t - 1]);
                }
            }
        }
        if board.len() > ef {
            board.pop();
            proof {
                assert(board@ =~= b1.drop_last());
                assert(b0.len() == k);
                assert forall|x: usize| #[trigger] v1.contains(x) implies holds(board@, x) || settled(d, k, board@, x) by {
                    lemma_evict(d, k, b0, bpos as int, (nd, nb), x);
                    if x != nb {
                        assert(v0.contains(x));
                    }
                }
                assert forall|x: usize| #[trigger] v1.contains(x) implies Some(id) == Some(x) || e.contains(x) || holds(frontier@, x)
                    || settled(d, k, board@, x) by {
                    lemma_evict(d, k, b0, bpos as int, (nd, nb), x);
                    if x != nb {
                        assert(v0.contains(x));
                        assert(Some(id) == Some(x) || e.contains(x) || holds(f0, x) || settled(d, k, b0, x));
                    }
                    if holds(f0, x) || x == nb {
                        assert(holds(frontier@, x));
                    }
                }
            }
        } else {
            proof {
                assert(b0.len() < k);
                assert forall|x: usize| #[trigger] v1.contains(x) implies holds(board@, x) || settled(d, k, board@, x) by {
                    if x != nb {
                        assert(v0.contains(x));
                    }
                }
                assert forall|x: usize| #[trigger] v1.contains(x) implies Some(id) == Some(x) || e.contains(x) || holds(frontier@, x)
                    || settled(d, k, board@, x) by {
                    if x != nb {
                        assert(v0.contains(x));
                        assert(Some(id) == Some(x) || e.contains(x) || holds(f0, x) || settled(d, k, b0, x));
                    }
                    if holds(f0, x) || x == nb {
                        assert(holds(frontier@, x));
                    }
                }
            }
        }
        Ghost(v1)
    }

    /// Once every neighbour of the pending node `id` is visited, `id` counts as expanded.
    proof fn lemma_close_expansion(
        &self,
        d: spec_fn(usize) -> u32,
        h: int,
        start: usize,
        k: nat,
        visited: Set<usize>,
        v: Set<usize>,
        e: Set<usize>,
        frontier: Seq<(u32, usize)>,
        board: Seq<(u32, usize)>,
        id: usize,
    )
        requires
            self.search_inv(d, h, start, k, visited, v, e, frontier, board, Some(id)),
            self.expanded(h, v, id),
        ensures
            self.search_inv(d, h, start, k, visited, v, e.insert(id), frontier, board, None),
    {
        let e2 = e.insert(id);
        assert forall|x: usize| #[trigger] e2.contains(x) implies v.contains(x) && self.expanded(h, v, x) by {
            if x != id {
                assert(e.contains(x));
            }
        }
        assert forall|x: usize| #[trigger] v.contains(x) implies None::<usize> == Some(x) || e2.contains(x) || holds(frontier, x)
            || settled(d, k, board, x) by {
            assert(Some(id) == Some(x) || e.contains(x) || holds(frontier, x) || settled(d, k, board, x));
        }
    }

    /// Expands the popped node `id`: visits its layer-`height` neighbours in order.
    #[verifier::rlimit(100)]
    #[verifier::spinoff_prover]
    fn expand_node<F: Fn(usize) -> u32>(
        &self,
        q: &F,
        Ghost(d): Ghost<spec_fn(usize) -> u32>,
        height: u32,
        ef: usize,
        Ghost(start): Ghost<usize>,
        id: usize,
        visited: &mut HashSet<usize>,
        frontier: &mut Vec<(u32, usize)>,
        board: &mut Vec<(u32, usize)>,
        Ghost(v): Ghost<Set<usize>>,
        Ghost(e): Ghost<Set<usize>>,
    ) -> (out: (Ghost<Set<usize>>, Ghost<Set<usize>>))
        requires
            self.graph_ok(),
            query_computes(*q, self.node_count(), d),
            self.search_inv(d, height as int, start, breadth(ef), old(visited)@, v, e, old(frontier)@, old(board)@, Some(id)),
        ensures
            self.search_inv(d, height as int, start, breadth(ef), final(visited)@, out.0@, out.1@, final(frontier)@, final(board)@, None),
            out.1@ == e.insert(id),
            (out.0@, final(frontier)@, final(board)@) == expand_step(d, ef, (v, old(frontier)@, old(board)@), self.links(id as int, height as int)),
            final(frontier)@.len() + unvisited(self.node_count(), final(visited)@) <= old(frontier)@.len() + unvisited(self.node_count(), old(visited)@),
            2 * unvisited(self.node_count(), final(visited)@) + final(frontier)@.len() <= 2 * unvisited(self.node_count(), old(visited)@) + old(frontier)@.len(),
    {
        let ghost h = height as int;
        let ghost k = breadth(ef);
        let ghost st0: SearchState = (v, frontier@, board@);
        let ghost u0 = unvisited(self.node_count(), visited@);
        let ghost m0 = 2 * unvisited(self.node_count(), visited@) + frontier@.len();
        let ghost mut v = v;
        let neighbors: &Vec<usize> = &self.nodes[id].as_ref().unwrap().neighbors[height as usize];
        assert(neighbors@ == self.links(id as int, h));
        let mut j: usize = 0;
        assert(neighbors@.take(0) =~= Seq::<usize>::empty());
        while j < neighbors.len()
            invariant
                self.graph_ok(),
                query_computes(*q, self.node_count(), d),
                h == height as int,
                k == breadth(ef),
                (v, frontier@, board@) == expand_step(d, ef, st0, neighbors@.take(j as int)),
                frontier@.len() + unvisited(self.node_count(), visited@) <= st0.1.len() + u0,
                2 * unvisited(self.node_count(), visited@) + frontier@.len() <= m0,
                0 <= j <= neighbors@.len(),
                neighbors@ == self.links(id as int, h),
                forall|t: int| 0 <= t < j ==> v.contains(#[trigger] neighbors@[t]),
                self.search_inv(d, h, start, k, visited@, v, e, frontier@, board@, Some(id)),
            decreases neighbors@.len() - j,
        {
            let nb = neighbors[j];
            let Ghost(v2) = self.visit(q, Ghost(d), height, ef, Ghost(start), Ghost(id), j, nb, visited, frontier, board, Ghost(v), Ghost(e));
            proof {
                v = v2;
            }
            j = j + 1;
            assert(neighbors@.take(j as int).drop_last() =~= neighbors@.take(j - 1));
        }
        let ghost e2 = e.insert(id);
        assert(self.expanded(h, v, id));
        proof {
            self.lemma_close_expansion(d, h, start, k, visited@, v, e, frontier@, board@, id);
        }
        assert(neighbors@.take(neighbors@.len() as int) =~= neighbors@);
        (Ghost(v), Ghost(e2))
    }

    #[verifier::loop_isolation(false)]
    #[verifier::rlimit(100)]
    #[verifier::spinoff_prover]
    pub(crate) fn layer_search<F: Fn(usize) -> u32>(
        &self,
        q: &F,
        Ghost(d): Ghost<spec_fn(usize) -> u32>,
        height: u32,
        start: usize,
        ef: usize,
    ) -> (res: Vec<usize>)
        requires
            self.graph_ok(),
            query_computes(*q, self.node_count(), d),
            start < self.node_count(),
            height < self.levels(start as int),
        ensures
            exists|v: Set<usize>| self.is_layer_result(d, height as int, start, breadth(ef), res@, v),
            res@ == self.greedy_layer(d, height as int, start, ef),
    {
        let n = self.nodes.len();
        let ghost h = height as int;
        let ghost k = breadth(ef);
        let mut visited: HashSet<usize> = HashSet::new();
        let c0 = q(start);
        let mut frontier: Vec<(u32, usize)> = Vec::new();
        let mut board: Vec<(u32, usize)> = Vec::new();
        frontier.push((c0, start));
        board.push((c0, start));
        visited.insert(start);
        let ghost mut v: Set<usize> = Set::empty().insert(start);
        assert(visited@ =~= v);
        let ghost mut e: Set<usize> = Set::empty();
        let ghost target = self.greedy_run(
            d,
            h,
            ef,
            (Set::empty().insert(start), seq![(d(start), start)], seq![(d(start), start)]),
            search_rounds(),
        );
        let ghost mut rounds: nat = search_rounds();
        assert(frontier@ =~= seq![(d(start), start)]);
        assert(board@ =~= seq![(d(start), start)]);
        assert(holds(board@, start)) by {
            assert(board@[0].1 == start);
        }
        assert(holds(frontier@, start)) by {
            assert(frontier@[0].1 == start);
        }
        assert(self.listed_from(h, start, v)) by {
            reveal(Index::listed_from);
            let s0 = seq![start];
            assert(s0[0] == start);
            assert(self.spreads_from(h, start, s0));
        }
        loop
            invariant
                self.search_inv(d, h, start, k, visited@, v, e, frontier@, board@, None),
                self.greedy_run(d, h, ef, (v, frontier@, board@), rounds) == target,
                rounds >= frontier@.len() + unvisited(self.node_count(), visited@),
            decreases 2 * unvisited(self.node_count(), visited@) + frontier@.len(),
        {
            if frontier.len() == 0 {
                assert forall|x: usize| #[trigger] v.contains(x) implies e.contains(x) || settled(d, k, board@, x) by {
                    if holds(frontier@, x) {
                        let t = choose|t: int| 0 <= t < frontier@.len() && (#[trigger] frontier@[t]).1 == x;
                    }
                }
                break ;
            }
            let ghost measure0 = 2 * unvisited(self.node_count(), visited@) + frontier@.len();
            let ghost fr0 = frontier@;
            let ghost vis0 = v;
            let ghost u0 = unvisited(self.node_count(), visited@);
            let popped = frontier.pop().unwrap();
            let dist = popped.0;
            let id = popped.1;
            proof {
                assert(fr0.last() == popped);
                assert(fr0[fr0.len() - 1] == popped);
                assert forall|x: usize| holds(fr0, x) && x != id implies holds(frontier@, x) by {
                    lemma_holds_drop_last(fr0, x);
                }
                assert forall|t: int| 0 <= t < frontier@.len() implies pair_lt(popped, #[trigger] frontier@[t]) by {
                    assert(fr0[t] == frontier@[t]);
                }
                assert forall|t: int| 0 <= t < frontier@.len() implies v.contains((#[trigger] frontier@[t]).1)
                    && frontier@[t].0 == d(frontier@[t].1) by {
                    assert(fr0[t] == frontier@[t]);
                }
                assert(v.contains(id) && dist == d(id));
            }
            if board.len() >= ef && board[board.len() - 1].0 < dist {
                assert forall|x: usize| #[trigger] v.contains(x) implies e.contains(x) || settled(d, k, board@, x) by {
                    assert(board@.len() == k);
                    if x == id {
                    } else if !e.contains(x) && holds(fr0, x) {
                        lemma_holds_drop_last(fr0, x);
                        let t = choose|t: int| 0 <= t < frontier@.len() && (#[trigger] frontier@[t]).1 == x;
                        assert(pair_lt(popped, frontier@[t]));
                    }
                }
                break ;
            }
            assert(fr0.drop_last() =~= frontier@);
            let (Ghost(v2), Ghost(e2)) = self.expand_node(q, Ghost(d), height, ef, Ghost(start), id, &mut visited, &mut frontier, &mut board, Ghost(v), Ghost(e));
            proof {
                v = v2;
                e = e2;
                rounds = (rounds - 1) as nat;
            }
        }
        let mut res: Vec<usize> = Vec::new();
        let mut t: usize = 0;
        while t < board.len()
            invariant
                t <= board@.len(),
                res@.len() == t,
                forall|u: int| 0 <= u < t ==> res@[u] == (#[trigger] board@[u]).1,
            decreases board@.len() - t,
        {
            res.push(board[t].1);
            t = t + 1;
        }
        proof {
            assert forall|x: usize| holds(board@, x) implies res@.contains(x) by {
                let u = choose|u: int| 0 <= u < board@.len() && (#[trigger] board@[u]).1 == x;
                assert(res@[u] == x);
            }
            assert forall|a: int, b: int| 0 <= a < b < res@.len() implies before(d, #[trigger] res@[a], #[trigger] res@[b]) by {
                assert(pair_lt(board@[a], board@[b]));
            }
            assert(res@ =~= nodes_of(board@));
            assert(res@.last() == board@.last().1);
            assert forall|u: int| 0 <= u < res@.len() implies v.contains(#[trigger] res@[u]) by {
                assert(res@[u] == board@[u].1);
            }
            assert forall|x: usize| #[trigger] v.contains(x) && !res@.contains(x) implies res@.len() == k && before(d, res@.last(), x) by {
                assert(board@.last().0 == d(board@.last().1));
            }
            assert forall|x: usize| #[trigger] v.contains(x) && (res@.len() < k || !before(d, res@.last(), x)) implies self.expanded(h, v, x) by {
                assert(board@.last().0 == d(board@.last().1));
            }
            assert(self.is_layer_result(d, h, start, k, res@, v));
        }
        res
    }
}

impl Index {
    /// Where the breadth-one searches lead from `s` on layer `i` down to layer 0: each
    /// layer is searched from the first result of the layer above.
    pub open spec fn greedy_descent(&self, d: spec_fn(usize) -> u32, i: nat, s: usize) -> usize
        decreases i,
    {
        if i == 0 {
            s
        } else {
            self.greedy_descent(d, (i - 1) as nat, self.greedy_layer(d, i as int, s, 1)[0])
        }
    }

    /// The descent never leads farther from the query: the node it reaches from `s` on
    /// layer `i` is `s` or nearer than it, and, from a layer above the bottom, it is the
    /// node that the breadth-one search of that layer finds from `s`, or nearer still.
    pub proof fn lemma_descent_nearer(&self, d: spec_fn(usize) -> u32, i: nat, s: usize)
        ensures
            self.greedy_descent(d, i, s) == s || before(d, self.greedy_descent(d, i, s), s),
            i >= 1 ==> ({
                let r = self.greedy_layer(d, i as int, s, 1)[0];
                self.greedy_descent(d, i, s) == r || before(d, self.greedy_descent(d, i, s), r)
            }),
        decreases i,
    {
        if i >= 1 {
            let r = self.greedy_layer(d, i as int, s, 1)[0];
            self.lemma_greedy_layer_first(d, i as int, s, 1);
            self.lemma_descent_nearer(d, (i - 1) as nat, r);
        }
    }

    /// Greedy search of layer `height` from `current_node_index` for the `ef` nodes nearest
    /// to the query, as `dist_to_query` measures them; the result is nearest first.
    pub fn search_layer<F: Fn(usize) -> u32>(
        &self,
        dist_to_query: &F,
        height: u32,
        current_node_index: usize,
        ef: usize,
    ) -> (res: Vec<usize>)
        requires
            self.well_formed(),
            query_oracle(*dist_to_query, self.node_count()),
            current_node_index < self.node_count(),
            height < self.levels(current_node_index as int),
        ensures
            exists|v: Set<usize>|
                self.is_layer_result(
                    query_keys(*dist_to_query),
                    height as int,
                    current_node_index,
                    breadth(ef),
                    res@,
                    v,
                ),
            res@ == self.greedy_layer(query_keys(*dist_to_query), height as int, current_node_index, ef),
            1 <= res@.len() <= breadth(ef),
            forall|i: int, j: int|
                0 <= i < j < res@.len() ==> before(query_keys(*dist_to_query), #[trigger] res@[i], #[trigger] res@[j]),
            forall|i: int|
                0 <= i < res@.len() ==> #[trigger] res@[i] < self.node_count() && height < self.levels(res@[i] as int),
            forall|i: int| 0 <= i < res@.len() ==> self.reachable(height as int, current_node_index, #[trigger] res@[i]),
            self.reach_set(height as int, current_node_index).len() <= ef ==> res@.to_set() == self.reach_set(
                height as int,
                current_node_index,
            ),
    {
        proof {
            lemma_query_oracle_computes(*dist_to_query, self.node_count());
        }
        let n = self.nodes.len();
        let kq = |a: usize| -> (r: u32)
            requires
                a < n,
            ensures
                r == key_of(query_dist(*dist_to_query, a)),
        {
            distance_key(dist_to_query(a))
        };
        assert(query_computes(kq, self.node_count(), query_keys(*dist_to_query))) by {
            assert forall|a: usize, r: u32| call_ensures(kq, (a,), r) implies r == query_keys(*dist_to_query)(a) by {}
        }
        let res = self.layer_search(&kq, Ghost(query_keys(*dist_to_query)), height, current_node_index, ef);
        proof {
            let v = choose|v: Set<usize>|
                self.is_layer_result(query_keys(*dist_to_query), height as int, current_node_index, breadth(ef), res@, v);
            assert forall|i: int| 0 <= i < res@.len() implies #[trigger] res@[i] < self.node_count() && height < self.levels(res@[i] as int) by {
                assert(v.contains(res@[i]));
            }
            reveal(Index::listed_from);
            let s = choose|s: Seq<usize>|
                self.spreads_from(height as int, current_node_index, s) && (forall|i: int| 0 <= i < s.len() ==> v.contains(#[trigger] s[i]))
                    && (forall|x: usize| v.contains(x) ==> s.contains(x));
            assert forall|i: int| 0 <= i < res@.len() implies self.reachable(height as int, current_node_index, #[trigger] res@[i]) by {
                assert(v.contains(res@[i]));
                assert(s.contains(res@[i]));
            }
            if self.reach_set(height as int, current_node_index).len() <= ef {
                self.lemma_layer_covers(query_keys(*dist_to_query), height as int, current_node_index, ef, res@, v);
            }
        }
        res
    }

    /// The `k` nodes nearest to the query that a search of breadth `ef_search` finds:
    /// breadth-one searches lead down from the entry point to the bottom layer, which is
    /// then searched with breadth `ef_search`; the result is nearest first.
    pub fn search<F: Fn(usize) -> u32>(&self, dist_to_query: &F, ef_search: usize, k: usize) -> (res: Vec<usize>)
        requires
            self.well_formed(),
            query_oracle(*dist_to_query, self.node_count()),
        ensures
            self.entry() is None ==> res@.len() == 0,
            self.entry() matches Some(s) ==> res@ == prefix(
                self.greedy_layer(
                    query_keys(*dist_to_query),
                    0,
                    self.greedy_descent(query_keys(*dist_to_query), self.top_layer() as nat, s),
                    ef_search,
                ),
                k as nat,
            ),
            res@.len() <= k,
            self.entry() is Some && k > 0 ==> res@.len() >= 1,
            self.entry() is Some && self.top_layer() == 0 && self.reach_set(0, self.entry().unwrap()).len() <= ef_search
                ==> {
                let s = self.entry().unwrap();
                &&& forall|i: int| 0 <= i < res@.len() ==> self.reachable(0, s, #[trigger] res@[i])
                &&& forall|x: usize|
                    #![trigger self.reachable(0, s, x)]
                    self.reachable(0, s, x) && !res@.contains(x) ==> res@.len() == k && forall|i: int|
                        0 <= i < k ==> before(query_keys(*dist_to_query), #[trigger] res@[i], x)
            },
            forall|i: int, j: int|
                0 <= i < j < res@.len() ==> before(query_keys(*dist_to_query), #[trigger] res@[i], #[trigger] res@[j]),
            forall|i: int| 0 <= i < res@.len() ==> #[trigger] res@[i] < self.node_count(),
    {
        let ghost d = query_keys(*dist_to_query);
        proof {
            lemma_query_oracle_computes(*dist_to_query, self.node_count());
        }
        let n = self.nodes.len();
        let kq = |a: usize| -> (r: u32)
            requires
                a < n,
            ensures
                r == key_of(query_dist(*dist_to_query, a)),
        {
            distance_key(dist_to_query(a))
        };
        assert(query_computes(kq, self.node_count(), d)) by {
            assert forall|a: usize, r: u32| call_ensures(kq, (a,), r) implies r == d(a) by {}
        }
        if self.start_point.is_none() {
            return Vec::new();
        }
        let s0 = self.start_point.unwrap();
        let mut start = s0;
        let mut i: u32 = self.max_height;
        let mut candidate: Vec<usize> = Vec::new();
        loop
            invariant
                self.well_formed(),
                query_computes(kq, self.node_count(), d),
                self.entry() == Some(s0),
                start < self.node_count(),
                i <= self.top_layer(),
                i < self.levels(start as int),
                self.greedy_descent(d, i as nat, start) == self.greedy_descent(d, self.top_layer() as nat, s0),
            ensures
                start == self.greedy_descent(d, self.top_layer() as nat, s0),
                candidate@ == self.greedy_layer(d, 0, start, ef_search),
                exists|v: Set<usize>| self.is_layer_result(d, 0, start, breadth(ef_search), candidate@, v),
            decreases i,
        {
            if i == 0 {
                candidate = self.layer_search(&kq, Ghost(d), 0, start, ef_search);
                break;
            }
            let c = self.layer_search(&kq, Ghost(d), i, start, 1);
            assert(breadth(1) == 1);
            let ghost cv = choose|v: Set<usize>| self.is_layer_result(d, i as int, start, 1, c@, v);
            let next = c[0];
            proof {
                assert(cv.contains(c@[0]));
                assert(self.greedy_descent(d, i as nat, start) == self.greedy_descent(d, (i - 1) as nat, next));
            }
            start = next;
            i = i - 1;
        }
        let ghost full = candidate@;
        let ghost fv = choose|v: Set<usize>| self.is_layer_result(d, 0, start, breadth(ef_search), full, v);
        candidate.truncate(k);
        assert(candidate@ == prefix(full, k as nat));
        proof {
            assert forall|a: int, b: int| 0 <= a < b < candidate@.len() implies before(d, #[trigger] candidate@[a], #[trigger] candidate@[b]) by {
                assert(candidate@[a] == full[a] && candidate@[b] == full[b]);
            }
            assert forall|a: int| 0 <= a < candidate@.len() implies #[trigger] candidate@[a] < self.node_count() by {
                assert(candidate@[a] == full[a]);
                assert(fv.contains(full[a]));
            }
            if self.top_layer() == 0 && self.reach_set(0, s0).len() <= ef_search {
                assert(start == s0);
                self.lemma_layer_covers(d, 0, start, ef_search, full, fv);
                assert forall|a: int| 0 <= a < candidate@.len() implies self.reachable(0, s0, #[trigger] candidate@[a]) by {
                    assert(candidate@[a] == full[a]);
                    assert(full.to_set().contains(full[a]));
                    assert(self.reach_set(0, s0).contains(full[a]));
                }
                assert forall|x: usize| self.reachable(0, s0, x) && !candidate@.contains(x) implies candidate@.len() == k
                    && forall|a: int| 0 <= a < k ==> before(d, #[trigger] candidate@[a], x) by {
                    assert(self.reach_set(0, s0).contains(x));
                    assert(full.to_set().contains(x));
                    let p = choose|p: int| 0 <= p < full.len() && full[p] == x;
                    if p < k {
                        if k <= full.len() {
                            assert(candidate@[p] == full[p]);
                        } else {
                            assert(candidate@[p] == full[p]);
                        }
                        assert(candidate@.contains(x));
                    }
                    assert forall|a: int| 0 <= a < k implies before(d, #[trigger] candidate@[a], x) by {
                        assert(candidate@[a] == full[a]);
                        assert(before(d, full[a], full[p]));
                    }
                }
            }
        }
        candidate
    }
}

/// The first `k` entries of `s`, or all of `s` if it is shorter.
pub open spec fn prefix(s: Seq<usize>, k: nat) -> Seq<usize> {
    if k <= s.len() {
        s.take(k as int)
    } else {
        s
    }
}

/// Of the results of a search that keeps `k2` of the greedy list, the first `k1 <= k2` are
/// what a search keeping `k1` returns, all else equal.
pub proof fn lemma_search_prefix(index: &Index, d: spec_fn(usize) -> u32, s: usize, ef: usize, k1: nat, k2: nat)
    requires
        k1 <= k2,
    ensures
        ({
            let g = index.greedy_layer(d, 0, index.greedy_descent(d, index.top_layer() as nat, s), ef);
            prefix(g, k1) == prefix(prefix(g, k2), k1)
        }),
{
    let g = index.greedy_layer(d, 0, index.greedy_descent(d, index.top_layer() as nat, s), ef);
    assert(prefix(g, k1) =~= prefix(prefix(g, k2), k1));
}

/// Inserting `en` into the full board `b0` and dropping the last entry keeps every node
/// either on the board or beyond its new last entry.
proof fn lemma_evict(d: spec_fn(usize) -> u32, k: nat, b0: Seq<(u32, usize)>, pos: int, en: (u32, usize), x: usize)
    requires
        0 <= pos <= b0.len(),
        b0.len() == k,
        k >= 1,
        ascending(b0.insert(pos, en)),
        forall|t: int| 0 <= t < b0.len() ==> (#[trigger] b0[t]).0 == d(b0[t].1),
        en.0 == d(en.1),
    ensures
        (holds(b0, x) || x == en.1) ==> holds(b0.insert(pos, en).drop_last(), x) || settled(
            d,
            k,
            b0.insert(pos, en).drop_last(),
            x,
        ),
        settled(d, k, b0, x) ==> settled(d, k, b0.insert(pos, en).drop_last(), x),
{
    let b1 = b0.insert(pos, en);
    let b2 = b1.drop_last();
    let last = b2.last();
    assert(last == b1[b1.len() - 2]);
    assert(pair_lt(last, b1.last()));
    assert(b1.last().0 == d(b1.last().1)) by {
        if pos < b0.len() {
            assert(b1.last() == b0.last());
        }
    }
    assert(last == b0.last() || pair_lt(last, b0.last())) by {
        if pos < b0.len() {
            assert(b1.last() == b0.last());
        } else {
            assert(last == b0.last());
        }
    }
    lemma_holds_insert(b0, pos, en, x);
    lemma_holds_drop_last(b1, x);
}

/// `x` lies beyond the last of the `k` kept results `board`, which are all there.
pub open spec fn settled(d: spec_fn(usize) -> u32, k: nat, board: Seq<(u32, usize)>, x: usize) -> bool {
    board.len() == k && pair_lt(board.last(), (d(x), x))
}

} // verus!
