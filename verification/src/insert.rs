//! Inserting a node: searching down the layers and linking it on the layers it lives on.
use vstd::prelude::*;
use crate::index::{Index, Node};
use crate::order::holds;
use crate::select::{
    distinct, heuristic_choice, keyed, lemma_prune_heuristic, lemma_prune_nonempty, lemma_select_first, lemma_select_props, lemma_sort_props, nodes_distinct, nodes_of, prune_spec,
    prune_with, select_spec, select_with, sort_by_distance,
};
use crate::oracle::{lemma_pair_oracle_computes, pair_computes, query_computes, pair_dist, pair_dists, pair_oracle};
use crate::search::{before, breadth, expand_step, search_rounds, SearchState};
use crate::order::count_after;
use crate::metric::{distance_key, key_of};

verus! {

/// The neighbour list `list` of node `s` once the new node `id` is linked to it: `id` is
/// appended, and a list grown beyond `cap` is pruned back to `cap` entries.
pub open spec fn linked_back(
    d: spec_fn(usize, usize) -> u32,
    list: Seq<usize>,
    s: usize,
    id: usize,
    cap: nat,
) -> Seq<usize> {
    let grown = list.push(id);
    if grown.len() > cap {
        prune_spec(d, s, grown, cap)
    } else {
        grown
    }
}

/// The order keys of the distances of all nodes to node `id`, as a query.
pub open spec fn to_query(d: spec_fn(usize, usize) -> u32, id: usize) -> spec_fn(usize) -> u32 {
    |j: usize| key_of(d(j, id))
}

/// The index just after the new node is appended to an empty index is its final state.
proof fn lemma_first_node(g: Index, cur: Index, node: Node, d: spec_fn(usize, usize) -> u32, level: nat)
    requires
        g.well_formed(),
        g.start_point is None,
        node.id == g.node_count(),
        node.neighbors@.len() == level + 1,
        forall|u: int| 0 <= u < node.neighbors@.len() ==> (#[trigger] node.neighbors@[u])@.len() == 0,
        cur.nodes@ == g.nodes@.push(Some(node)),
        cur.start_point == Some(node.id),
        cur.max_height == level,
        cur.m == g.m,
        cur.ef_construction == g.ef_construction,
        cur.dim == g.dim,
    ensures
        cur.well_formed(),
        g.insert_outcome(cur, d, level, Seq::new(1, |l: int| Seq::<usize>::empty())),
{
    let id = node.id;
    assert(g.node_count() == 0);
    let cands = Seq::new(1, |l: int| Seq::<usize>::empty());
    assert(cur.nodes@[0] == Some(node));
    assert forall|x: usize, l: int|
        x <= id && 0 <= l < cur.levels(x as int) implies #[trigger] cur.links(x as int, l)
            == g.list_after_insert(d, id, level, cands, 0, x, l) by {
        assert(x == id);
        assert(cur.links(x as int, l) =~= Seq::<usize>::empty());
    }
    assert forall|i: int, l: int, j: int|
        0 <= i < cur.node_count() && 0 <= l < cur.levels(i) && 0 <= j < cur.links(i, l).len() implies {
        let t = #[trigger] cur.links(i, l)[j];
        &&& t < cur.node_count()
        &&& l < cur.levels(t as int)
    } by {
        assert(i == id);
    }
}

/// The index just after the new node is appended, before any layer is searched.
proof fn lemma_appended(g: Index, cur: Index, node: Node, d: spec_fn(usize, usize) -> u32, level: nat)
    requires
        g.well_formed(),
        g.start_point is Some,
        node.id == g.node_count(),
        node.neighbors@.len() == level + 1,
        forall|u: int| 0 <= u < node.neighbors@.len() ==> (#[trigger] node.neighbors@[u])@.len() == 0,
        cur.nodes@ == g.nodes@.push(Some(node)),
        cur.start_point == g.start_point,
        cur.max_height == g.max_height,
        cur.m == g.m,
        cur.ef_construction == g.ef_construction,
        cur.dim == g.dim,
    ensures
        cur.insert_state(
            g,
            d,
            level,
            Seq::new((g.max_height + 1) as nat, |l: int| Seq::<usize>::empty()),
            g.max_height + 1,
        ),
{
    let id = node.id;
    let top = g.max_height as int;
    let cands = Seq::new((top + 1) as nat, |l: int| Seq::<usize>::empty());
    assert(cur.nodes.len() == cur.nodes@.len());
    assert(cur.nodes@[id as int] == Some(node));
    assert forall|x: int| 0 <= x < id implies #[trigger] cur.nodes@[x] == g.nodes@[x] by {}
    assert forall|x: usize, l: int|
        x <= id && 0 <= l < cur.levels(x as int) implies #[trigger] cur.links(x as int, l)
            == g.list_after_insert(d, id, level, cands, top + 1, x, l) by {
        if x == id {
            assert(cur.links(x as int, l) =~= Seq::<usize>::empty());
        } else {
            assert(cur.nodes@[x as int] == g.nodes@[x as int]);
        }
    }
    assert forall|x: int| 0 <= x <= id implies (#[trigger] cur.node(x)).id == x by {
        if x < id {
            assert(cur.nodes@[x] == g.nodes@[x]);
            assert(g.node(x).id == x);
        }
    }
    assert forall|x: int| 0 <= x < id implies #[trigger] cur.levels(x) == g.levels(x) by {
        assert(cur.nodes@[x] == g.nodes@[x]);
    }
    assert forall|x: usize, l: int|
        x <= id && 0 <= l < top + 1 && l < cur.levels(x as int) implies !(#[trigger] cur.links(x as int, l)).contains(id) by {
        if x < id {
            assert(cur.nodes@[x as int] == g.nodes@[x as int]);
            if cur.links(x as int, l).contains(id) {
                let j = choose|j: int| 0 <= j < g.links(x as int, l).len() && g.links(x as int, l)[j] == id;
                assert(g.links(x as int, l)[j] < g.node_count());
            }
        } else {
            assert(cur.links(x as int, l) =~= Seq::<usize>::empty());
        }
    }
    assert forall|i: int, l: int, j: int|
        0 <= i < cur.node_count() && 0 <= l < cur.levels(i) && 0 <= j < cur.links(i, l).len() implies {
        let t = #[trigger] cur.links(i, l)[j];
        &&& t < cur.node_count()
        &&& l < cur.levels(t as int)
    } by {
        if i < id {
            assert(cur.nodes@[i] == g.nodes@[i]);
            assert(g.links(i, l)[j] < g.node_count());
        } else {
            assert(cur.links(i, l) =~= Seq::<usize>::empty());
        }
    }
}

/// Once every layer is done and the entry point updated, the insertion is complete.
proof fn lemma_finish(g: Index, done: Index, fin: Index, d: spec_fn(usize, usize) -> u32, level: nat, cands: Seq<Seq<usize>>)
    requires
        done.insert_state(g, d, level, cands, 0),
        level < u32::MAX,
        fin.nodes == done.nodes,
        fin.m == done.m,
        fin.ef_construction == done.ef_construction,
        fin.dim == done.dim,
        done.max_height < level ==> fin.max_height == level && fin.start_point == Some(g.node_count() as usize),
        !(done.max_height < level) ==> fin.max_height == done.max_height && fin.start_point == done.start_point,
    ensures
        fin.well_formed(),
        g.insert_outcome(fin, d, level, cands),
        fin.node_count() == g.node_count() + 1,
        fin.node(g.node_count() as int).id == g.node_count(),
        fin.levels(g.node_count() as int) == level + 1,
        forall|x: int| 0 <= x < g.node_count() ==> #[trigger] fin.levels(x) == g.levels(x),
{
    let id = g.node_count() as usize;
    assert forall|x: int| 0 <= x <= id implies #[trigger] fin.levels(x) == done.levels(x) && fin.node(x) == done.node(x) by {}
    assert forall|x: int, l: int| 0 <= x <= id implies #[trigger] fin.links(x, l) == done.links(x, l) by {}
    assert forall|x: int| 0 <= x < fin.node_count() implies (#[trigger] fin.node(x)).id == x && 1 <= fin.node(x).layer_count()
        <= fin.max_height + 1 by {
        assert(fin.node(x) == done.node(x));
        if x < id {
            assert(done.levels(x) == g.levels(x));
            assert(g.node(x).id == x);
        }
    }
    assert forall|x: int, l: int, j: int|
        0 <= x < fin.node_count() && 0 <= l < fin.levels(x) && 0 <= j < fin.links(x, l).len() implies {
        let t = #[trigger] fin.links(x, l)[j];
        &&& t < fin.node_count()
        &&& l < fin.levels(t as int)
    } by {
        assert(fin.links(x, l) == done.links(x, l));
        assert(done.links(x, l)[j] < done.node_count());
    }
    assert(fin.graph_ok());
    assert(g.well_formed());
    assert(g.start_point is Some);
    let s0 = g.start_point.unwrap();
    assert(s0 < id);
    assert(g.levels(s0 as int) == g.max_height + 1);
    assert(done.levels(s0 as int) == g.levels(s0 as int));
    assert forall|x: usize, l: int|
        x <= id && 0 <= l < fin.levels(x as int) implies #[trigger] fin.links(x as int, l)
            == g.list_after_insert(d, id, level, cands, 0, x, l) by {
        assert(fin.links(x as int, l) == done.links(x as int, l));
    }
}

/// Recording the candidates `c` found on layer `i` extends the trace down to `i`.
proof fn lemma_trace_extend(
    g: Index,
    d: spec_fn(usize, usize) -> u32,
    level: nat,
    cands: Seq<Seq<usize>>,
    i: int,
    c: Seq<usize>,
    v: Set<usize>,
)
    requires
        g.insert_trace(d, g.node_count() as usize, level, cands, i + 1),
        0 <= i <= g.max_height,
        g.is_layer_result(
            to_query(d, g.node_count() as usize),
            i,
            g.layer_start(cands, i),
            g.insert_breadth(level, i),
            c,
            v,
        ),
        c == g.greedy_layer(to_query(d, g.node_count() as usize), i, g.layer_start(cands, i), g.insert_ef(level, i)),
    ensures
        g.insert_trace(d, g.node_count() as usize, level, cands.update(i, c), i),
        g.insert_trace(d, g.node_count() as usize, level, cands.update(i, c), i + 1),
{
    let id = g.node_count() as usize;
    let c2 = cands.update(i, c);
    assert(g.found_on_layer(d, id, level, i, g.layer_start(c2, i), c2[i])) by {
        reveal(Index::found_on_layer);
    }
    assert forall|l: int| i < l <= g.max_height implies #[trigger] g.found_on_layer(d, id, level, l, g.layer_start(c2, l), c2[l]) by {
        assert(c2[l] == cands[l]);
        assert(g.layer_start(c2, l) == g.layer_start(cands, l));
        assert(g.found_on_layer(d, id, level, l, g.layer_start(cands, l), cands[l]));
    }
}

/// Recording the candidates of layer `i` changes no list of the layers above it.
proof fn lemma_lists_record(
    cur: Index,
    g: Index,
    d: spec_fn(usize, usize) -> u32,
    level: nat,
    cands: Seq<Seq<usize>>,
    i: int,
    c: Seq<usize>,
)
    requires
        cur.insert_lists(g, d, level, cands, i + 1),
        0 <= i,
        i < cands.len(),
        cands.len() == g.max_height + 1,
    ensures
        cur.insert_lists(g, d, level, cands.update(i, c), i + 1),
{
    let id = g.node_count() as usize;
    let c2 = cands.update(i, c);
    assert forall|x: usize, l: int|
        x <= id && 0 <= l < cur.levels(x as int) implies #[trigger] cur.links(x as int, l)
            == g.list_after_insert(d, id, level, c2, i + 1, x, l) by {
        if i + 1 <= l && l < cands.len() {
            assert(c2[l] == cands[l]);
        }
    }
}

/// Recording the candidates `c` found on layer `i` keeps the state of layer `i + 1`.
proof fn lemma_state_after_search(
    cur: Index,
    g: Index,
    d: spec_fn(usize, usize) -> u32,
    level: nat,
    cands: Seq<Seq<usize>>,
    i: int,
    c: Seq<usize>,
    v: Set<usize>,
)
    requires
        cur.insert_state(g, d, level, cands, i + 1),
        0 <= i <= g.max_height,
        g.is_layer_result(
            to_query(d, g.node_count() as usize),
            i,
            g.layer_start(cands, i),
            g.insert_breadth(level, i),
            c,
            v,
        ),
        c == g.greedy_layer(to_query(d, g.node_count() as usize), i, g.layer_start(cands, i), g.insert_ef(level, i)),
    ensures
        cur.insert_state(g, d, level, cands.update(i, c), i + 1),
        g.insert_trace(d, g.node_count() as usize, level, cands.update(i, c), i),
{
    lemma_trace_extend(g, d, level, cands, i, c, v);
    lemma_lists_record(cur, g, d, level, cands, i, c);
}

/// Linking the new node on layer `i` moves the state from layer `i + 1` down to `i`.
#[verifier::rlimit(60)]
proof fn lemma_state_after_connect(
    mid: Index,
    fin: Index,
    g: Index,
    d: spec_fn(usize, usize) -> u32,
    level: nat,
    cands: Seq<Seq<usize>>,
    i: int,
    cap: nat,
)
    requires
        mid.insert_state(g, d, level, cands, i + 1),
        g.insert_trace(d, g.node_count() as usize, level, cands, i),
        0 <= i <= level,
        i <= g.max_height,
        cap == g.capacity(i),
        fin.graph_ok(),
        fin.same_off_layer(&mid, i),
        fin.links(g.node_count() as int, i) == select_spec(d, g.node_count() as usize, cands[i], mid.m as nat),
        forall|x: usize|
            x < mid.node_count() && x != g.node_count() && i < mid.levels(x as int) ==> #[trigger] fin.links(x as int, i)
                == if select_spec(d, g.node_count() as usize, cands[i], mid.m as nat).contains(x) {
                linked_back(d, mid.links(x as int, i), x, g.node_count() as usize, cap)
            } else {
                mid.links(x as int, i)
            },
    ensures
        fin.insert_state(g, d, level, cands, i),
{
    let id = g.node_count() as usize;
    assert forall|x: int| 0 <= x <= id implies (#[trigger] fin.node(x)).id == x by {
        assert(fin.node(x).id == mid.node(x).id);
    }
    assert forall|x: int| 0 <= x < id implies #[trigger] fin.levels(x) == g.levels(x) by {
        assert(fin.levels(x) == mid.levels(x));
    }
    assert forall|x: usize, l: int|
        x <= id && 0 <= l < fin.levels(x as int) implies #[trigger] fin.links(x as int, l)
            == g.list_after_insert(d, id, level, cands, i, x, l) by {
        assert(fin.levels(x as int) == mid.levels(x as int));
        assert(mid.links(x as int, l) == g.list_after_insert(d, id, level, cands, i + 1, x, l));
        if l != i {
            assert(fin.links(x as int, l) == mid.links(x as int, l));
        } else if x != id {
            assert(x < id);
            assert(mid.links(x as int, l) == g.links(x as int, l));
            assert(fin.links(x as int, i) == if select_spec(d, id, cands[i], mid.m as nat).contains(x) {
                linked_back(d, mid.links(x as int, i), x, id, cap)
            } else {
                mid.links(x as int, i)
            });
        } else {
            assert(g.start_point is Some);
            assert(mid.m == g.m);
        }
    }
    assert forall|x: usize, l: int|
        x <= id && 0 <= l < i && l < fin.levels(x as int) implies !(#[trigger] fin.links(x as int, l)).contains(id) by {
        assert(fin.links(x as int, l) == mid.links(x as int, l));
    }
}

/// The candidates found on a layer are distinct nodes of the index before the insertion.
proof fn lemma_cands_props(g: Index, d: spec_fn(usize, usize) -> u32, level: nat, cands: Seq<Seq<usize>>, l: int)
    requires
        g.insert_trace(d, g.node_count() as usize, level, cands, 0),
        0 <= l <= g.max_height,
    ensures
        forall|t: int| 0 <= t < cands[l].len() ==> #[trigger] cands[l][t] < g.node_count(),
        distinct(cands[l]),
{
    let id = g.node_count() as usize;
    assert(g.found_on_layer(d, id, level, l, g.layer_start(cands, l), cands[l]));
    reveal(Index::found_on_layer);
    let v = choose|v: Set<usize>|
        g.is_layer_result(to_query(d, id), l, g.layer_start(cands, l), g.insert_breadth(level, l), cands[l], v);
    assert forall|t: int| 0 <= t < cands[l].len() implies #[trigger] cands[l][t] < g.node_count() by {
        assert(v.contains(cands[l][t]));
    }
    assert forall|a: int, b: int| 0 <= a < b < cands[l].len() implies #[trigger] cands[l][a] != #[trigger] cands[l][b] by {
        assert(before(to_query(d, id), cands[l][a], cands[l][b]));
    }
}

/// What the insertion makes of one neighbour list keeps it free of self-loops and
/// repeats and within its layer's capacity, if it was before.
proof fn lemma_list_after_props(g: Index, d: spec_fn(usize, usize) -> u32, level: nat, cands: Seq<Seq<usize>>, x: usize, l: int)
    requires
        g.well_formed(),
        g.node_count() < usize::MAX,
        g.start_point is Some ==> g.insert_trace(d, g.node_count() as usize, level, cands, 0),
        x <= g.node_count(),
        0 <= l,
        x < g.node_count() ==> l < g.levels(x as int),
    ensures
        ({
            let id = g.node_count() as usize;
            let after = g.list_after_insert(d, id, level, cands, 0, x, l);
            &&& x == id ==> after.len() <= g.m
            &&& x == id ==> distinct(after)
            &&& x == id ==> forall|t: int| 0 <= t < after.len() ==> #[trigger] after[t] < id
            &&& x < id && g.links(x as int, l).len() <= g.capacity(l) ==> after.len() <= g.capacity(l)
            &&& x < id && distinct(g.links(x as int, l)) ==> distinct(after)
            &&& x < id && !g.links(x as int, l).contains(x) ==> forall|t: int| 0 <= t < after.len() ==> #[trigger] after[t] != x
            &&& x < id ==> forall|t: int| 0 <= t < after.len() ==> #[trigger] after[t] == id || g.links(x as int, l).contains(after[t])
        }),
{
    let id = g.node_count() as usize;
    let after = g.list_after_insert(d, id, level, cands, 0, x, l);
    if g.start_point is Some && l <= level && l <= g.max_height {
        lemma_cands_props(g, d, level, cands, l);
        let sel = select_spec(d, id, cands[l], g.m as nat);
        lemma_select_props(d, id, cands[l], g.m as nat);
        if x == id {
            assert forall|t: int| 0 <= t < after.len() implies #[trigger] after[t] < id by {
                assert(cands[l].contains(after[t]));
            }
        } else if sel.contains(x) {
            let list = g.links(x as int, l);
            lemma_linked_back_props(d, list, x, id, g.capacity(l) as nat);
            assert(!list.contains(id)) by {
                if list.contains(id) {
                    let j = choose|j: int| 0 <= j < list.len() && list[j] == id;
                    assert(g.links(x as int, l)[j] < g.node_count());
                }
            }
            if !list.contains(x) {
                assert forall|t: int| 0 <= t < after.len() implies #[trigger] after[t] != x by {
                    assert(after[t] == id || list.contains(after[t]));
                }
            }
        } else {
            if !g.links(x as int, l).contains(x) {
                assert forall|t: int| 0 <= t < after.len() implies #[trigger] after[t] != x by {
                    assert(g.links(x as int, l)[t] == after[t]);
                }
            }
            assert forall|t: int| 0 <= t < after.len() implies #[trigger] after[t] == id || g.links(x as int, l).contains(after[t]) by {
                assert(g.links(x as int, l)[t] == after[t]);
            }
        }
    } else if x != id {
        if !g.links(x as int, l).contains(x) {
            assert forall|t: int| 0 <= t < after.len() implies #[trigger] after[t] != x by {
                assert(g.links(x as int, l)[t] == after[t]);
            }
        }
        assert forall|t: int| 0 <= t < after.len() implies #[trigger] after[t] == id || g.links(x as int, l).contains(after[t]) by {
            assert(g.links(x as int, l)[t] == after[t]);
        }
    }
}

/// An insertion keeps the index free of self-loops and repeated neighbours, and every
/// neighbour list within its layer's capacity, if it was before.
proof fn lemma_insert_laws(g: Index, fin: Index, d: spec_fn(usize, usize) -> u32, level: nat, cands: Seq<Seq<usize>>)
    requires
        g.well_formed(),
        g.node_count() < usize::MAX,
        g.insert_outcome(fin, d, level, cands),
        fin.node_count() == g.node_count() + 1,
        fin.levels(g.node_count() as int) == level + 1,
        forall|x: int| 0 <= x < g.node_count() ==> #[trigger] fin.levels(x) == g.levels(x),
        fin.m == g.m,
    ensures
        g.no_self_loops() ==> fin.no_self_loops(),
        g.no_duplicate_links() ==> fin.no_duplicate_links(),
        g.degree_bounded() ==> fin.degree_bounded(),
        forall|x: int, l: int, t: int|
            0 <= x < g.node_count() && 0 <= l < g.levels(x) && 0 <= t < fin.links(x, l).len() ==> #[trigger] fin.links(x, l)[t]
                == g.node_count() || g.links(x, l).contains(fin.links(x, l)[t]),
        forall|l: int|
            0 <= l <= level ==> (#[trigger] fin.links(g.node_count() as int, l)).len() <= g.m && forall|t: int|
                0 <= t < fin.links(g.node_count() as int, l).len() ==> #[trigger] fin.links(g.node_count() as int, l)[t] < g.node_count(),
{
    let id = g.node_count() as usize;
    assert forall|x: int, l: int|
        0 <= x < fin.node_count() && 0 <= l < fin.levels(x) implies #[trigger] fin.links(x, l)
            == g.list_after_insert(d, id, level, cands, 0, x as usize, l) by {
        assert(fin.links((x as usize) as int, l) == g.list_after_insert(d, id, level, cands, 0, x as usize, l));
    }
    if g.no_self_loops() {
        assert forall|x: int, l: int, j: int|
            0 <= x < fin.node_count() && 0 <= l < fin.levels(x) && 0 <= j < fin.links(x, l).len() implies #[trigger] fin.links(x, l)[j] != x by {
            lemma_list_after_props(g, d, level, cands, x as usize, l);
            if x < id {
                assert(!g.links(x, l).contains(x as usize)) by {
                    if g.links(x, l).contains(x as usize) {
                        let t = choose|t: int| 0 <= t < g.links(x, l).len() && g.links(x, l)[t] == x;
                        assert(g.links(x, l)[t] != x);
                    }
                }
            }
        }
    }
    if g.no_duplicate_links() {
        assert forall|x: int, l: int, a: int, b: int|
            0 <= x < fin.node_count() && 0 <= l < fin.levels(x) && 0 <= a < b < fin.links(x, l).len() implies #[trigger] fin.links(x, l)[a]
                != #[trigger] fin.links(x, l)[b] by {
            lemma_list_after_props(g, d, level, cands, x as usize, l);
            if x < id {
                assert(distinct(g.links(x, l))) by {
                    assert forall|a2: int, b2: int| 0 <= a2 < b2 < g.links(x, l).len() implies #[trigger] g.links(x, l)[a2] != #[trigger] g.links(x, l)[b2] by {
                        assert(g.links(x, l)[a2] != g.links(x, l)[b2]);
                    }
                }
            }
            assert(distinct(fin.links(x, l)));
        }
    }
    assert forall|x: int, l: int, t: int|
        0 <= x < g.node_count() && 0 <= l < g.levels(x) && 0 <= t < fin.links(x, l).len() implies #[trigger] fin.links(x, l)[t]
            == g.node_count() || g.links(x, l).contains(fin.links(x, l)[t]) by {
        lemma_list_after_props(g, d, level, cands, x as usize, l);
    }
    assert forall|l: int|
        0 <= l <= level implies (#[trigger] fin.links(g.node_count() as int, l)).len() <= g.m && forall|t: int|
            0 <= t < fin.links(g.node_count() as int, l).len() ==> #[trigger] fin.links(g.node_count() as int, l)[t] < g.node_count() by {
        lemma_list_after_props(g, d, level, cands, id, l);
    }
    if g.degree_bounded() {
        assert forall|x: int, l: int| 0 <= x < fin.node_count() && 0 <= l < fin.levels(x) implies (#[trigger] fin.links(x, l)).len() <= fin.capacity(l) by {
            lemma_list_after_props(g, d, level, cands, x as usize, l);
            if x < id {
                assert(g.links(x, l).len() <= g.capacity(l));
            }
        }
    }
}

/// Every frontier entry names a node of `g` that lives on layer `h`.
pub open spec fn frontier_valid(g: Index, h: int, f: Seq<(u32, usize)>) -> bool {
    forall|t: int| 0 <= t < f.len() ==> (#[trigger] f[t]).1 < g.node_count() && h < g.levels(f[t].1 as int)
}

proof fn lemma_count_after_bound(f: Seq<(u32, usize)>, e: (u32, usize))
    ensures
        count_after(f, e) <= f.len(),
    decreases f.len(),
{
    if f.len() > 0 {
        lemma_count_after_bound(f.drop_last(), e);
    }
}

/// Visiting neighbours that are nodes of `g` on layer `h` keeps the frontier valid.
proof fn lemma_expand_valid(g: Index, d: spec_fn(usize) -> u32, h: int, ef: usize, st: SearchState, nbrs: Seq<usize>)
    requires
        frontier_valid(g, h, st.1),
        forall|t: int| 0 <= t < nbrs.len() ==> #[trigger] nbrs[t] < g.node_count() && h < g.levels(nbrs[t] as int),
    ensures
        frontier_valid(g, h, expand_step(d, ef, st, nbrs).1),
    decreases nbrs.len(),
{
    if nbrs.len() > 0 {
        let prev = expand_step(d, ef, st, nbrs.drop_last());
        lemma_expand_valid(g, d, h, ef, st, nbrs.drop_last());
        let nb = nbrs.last();
        assert(nb == nbrs[nbrs.len() - 1]);
        if !prev.0.contains(nb) {
            let e = (d(nb), nb);
            lemma_count_after_bound(prev.1, e);
            let p = count_after(prev.1, e) as int;
            let f2 = prev.1.insert(p, e);
            assert forall|t: int| 0 <= t < f2.len() implies (#[trigger] f2[t]).1 < g.node_count() && h < g.levels(f2[t].1 as int) by {
                if t < p {
                    assert(f2[t] == prev.1[t]);
                } else if t > p {
                    assert(f2[t] == prev.1[t - 1]);
                }
            }
        }
    }
}

/// A layer search reads only the lists of the nodes it meets: two indexes that agree on
/// the layer-`h` lists of the nodes of `g` give the same search from a frontier of them.
proof fn lemma_run_same(cur: Index, g: Index, d: spec_fn(usize) -> u32, h: int, ef: usize, st: SearchState, rounds: nat)
    requires
        g.edges_valid(),
        0 <= h,
        forall|x: usize| x < g.node_count() && h < g.levels(x as int) ==> #[trigger] cur.links(x as int, h) == g.links(x as int, h),
        frontier_valid(g, h, st.1),
    ensures
        cur.greedy_run(d, h, ef, st, rounds) == g.greedy_run(d, h, ef, st, rounds),
    decreases rounds,
{
    if rounds > 0 && st.1.len() > 0 {
        let p = st.1.last();
        if !(st.2.len() >= ef && st.2.last().0 < p.0) {
            assert(p == st.1[st.1.len() - 1]);
            let st2: SearchState = (st.0, st.1.drop_last(), st.2);
            assert(frontier_valid(g, h, st2.1)) by {
                assert forall|t: int| 0 <= t < st2.1.len() implies (#[trigger] st2.1[t]).1 < g.node_count() && h < g.levels(st2.1[t].1 as int) by {
                    assert(st2.1[t] == st.1[t]);
                }
            }
            assert(cur.links(p.1 as int, h) == g.links(p.1 as int, h));
            assert forall|t: int| 0 <= t < g.links(p.1 as int, h).len() implies #[trigger] g.links(p.1 as int, h)[t] < g.node_count()
                && h < g.levels(g.links(p.1 as int, h)[t] as int) by {}
            lemma_expand_valid(g, d, h, ef, st2, g.links(p.1 as int, h));
            lemma_run_same(cur, g, d, h, ef, expand_step(d, ef, st2, g.links(p.1 as int, h)), (rounds - 1) as nat);
        }
    }
}

/// A listing of nodes of `old` along layer-`h` edges of `cur` is one along those of `old`
/// when the two agree on the lists of those nodes.
proof fn lemma_listed_transfer(cur: &Index, old: &Index, h: int, start: usize, v: Set<usize>, id: usize)
    requires
        cur.listed_from(h, start, v),
        forall|x: usize| v.contains(x) ==> x < id && h < old.levels(x as int),
        forall|x: usize| x < id && h < old.levels(x as int) ==> #[trigger] cur.links(x as int, h) == old.links(x as int, h),
    ensures
        old.listed_from(h, start, v),
{
    reveal(Index::listed_from);
    let s = choose|s: Seq<usize>|
        cur.spreads_from(h, start, s) && (forall|i: int| 0 <= i < s.len() ==> v.contains(#[trigger] s[i]))
            && (forall|x: usize| v.contains(x) ==> s.contains(x));
    assert forall|i: int| 1 <= i < s.len() implies #[trigger] old.linked_earlier(h, s, i) by {
        assert(cur.linked_earlier(h, s, i));
        let j = choose|j: int| 0 <= j < i && #[trigger] cur.links_to(h, s[j], s[i]);
        assert(v.contains(s[j]));
        assert(cur.links(s[j] as int, h) == old.links(s[j] as int, h));
        assert(old.links_to(h, s[j], s[i]));
    }
    assert(s.len() >= 1 && s[0] == start);
    assert(old.spreads_from(h, start, s));
}

/// A result of layer `h` in `cur`, the index with the new node `id` appended, is one in
/// `old` too while no layer-`h` list names the new node.
proof fn lemma_result_transfer(
    cur: &Index,
    old: &Index,
    d: spec_fn(usize) -> u32,
    h: int,
    start: usize,
    k: nat,
    res: Seq<usize>,
    v: Set<usize>,
    id: usize,
)
    requires
        cur.is_layer_result(d, h, start, k, res, v),
        old.node_count() == id,
        cur.node_count() == id + 1,
        forall|x: int| 0 <= x < id ==> #[trigger] cur.levels(x) == old.levels(x),
        forall|x: usize| x < id && h < old.levels(x as int) ==> #[trigger] cur.links(x as int, h) == old.links(x as int, h),
        forall|x: usize|
            x <= id && 0 <= h < cur.levels(x as int) ==> !(#[trigger] cur.links(x as int, h)).contains(id),
        start < id,
        0 <= h,
    ensures
        old.is_layer_result(d, h, start, k, res, v),
        !v.contains(id),
{
    if v.contains(id) {
        assert(cur.reached(h, v, id));
        let (y, j) = choose|y: usize, j: int|
            v.contains(y) && 0 <= j < cur.links(y as int, h).len() && #[trigger] cur.links(y as int, h)[j] == id;
        assert(cur.links(y as int, h).contains(id));
    }
    lemma_listed_transfer(cur, old, h, start, v, id);
    assert forall|x: usize| #[trigger] v.contains(x) && x != start implies old.reached(h, v, x) by {
        assert(cur.reached(h, v, x));
        let (y, j) = choose|y: usize, j: int|
            v.contains(y) && 0 <= j < cur.links(y as int, h).len() && #[trigger] cur.links(y as int, h)[j] == x;
        assert(cur.links(y as int, h) == old.links(y as int, h));
        assert(old.links(y as int, h)[j] == x);
    }
    assert forall|x: usize|
        #[trigger] v.contains(x) && (res.len() < k || !before(d, res.last(), x)) implies old.expanded(h, v, x) by {
        assert(cur.expanded(h, v, x));
        assert(cur.links(x as int, h) == old.links(x as int, h));
    }
}

/// With `m` at least one, an insertion into a non-empty index leaves every node with a
/// neighbour on the bottom layer, if every node had one before (or there was one node).
proof fn lemma_insert_bottom(g: Index, fin: Index, d: spec_fn(usize, usize) -> u32, level: nat, cands: Seq<Seq<usize>>)
    requires
        g.well_formed(),
        g.node_count() < usize::MAX,
        g.start_point is Some,
        g.m >= 1,
        g.bottom_linked(),
        g.insert_outcome(fin, d, level, cands),
        fin.node_count() == g.node_count() + 1,
        fin.levels(g.node_count() as int) == level + 1,
        forall|x: int| 0 <= x < g.node_count() ==> #[trigger] fin.levels(x) == g.levels(x),
    ensures
        fin.bottom_linked(),
{
    let id = g.node_count() as usize;
    assert(g.found_on_layer(d, id, level, 0, g.layer_start(cands, 0), cands[0]));
    reveal(Index::found_on_layer);
    let v = choose|v: Set<usize>|
        g.is_layer_result(to_query(d, id), 0, g.layer_start(cands, 0), g.insert_breadth(level, 0), cands[0], v);
    assert(cands[0].len() >= 1);
    let sel = select_spec(d, id, cands[0], g.m as nat);
    lemma_select_first(d, id, cands[0], g.m as nat);
    assert forall|x: int| 0 <= x < fin.node_count() implies #[trigger] fin.links(x, 0).len() >= 1 by {
        if x < id {
            assert(g.levels(x) >= 1);
        }
        assert(fin.links((x as usize) as int, 0) == g.list_after_insert(d, id, level, cands, 0, x as usize, 0));
        if x == id {
        } else if sel.contains(x as usize) {
            let grown = g.links(x, 0).push(id);
            if grown.len() > g.capacity(0) {
                lemma_prune_nonempty(d, x as usize, grown, g.capacity(0) as nat);
            }
        } else if g.node_count() < 2 {
            assert(v.contains(cands[0][0]));
            assert(sel[0] == cands[0][0]);
            assert(sel.contains(x as usize));
        }
    }
}

/// While inserting, each layer below the top is searched from the candidate found nearest
/// to the new node on the layer above: that node is among those candidates, and comes
/// before every other one.
pub proof fn lemma_insert_descends_to_nearest(
    g: Index,
    fin: Index,
    d: spec_fn(usize, usize) -> u32,
    level: nat,
    cands: Seq<Seq<usize>>,
    l: int,
)
    requires
        g.start_point is Some,
        g.insert_outcome(fin, d, level, cands),
        0 <= l < g.max_height,
    ensures
        ({
            let c = cands[l + 1];
            let p = g.layer_start(cands, l);
            &&& c.contains(p)
            &&& forall|t: int| 0 <= t < c.len() && c[t] != p ==> before(to_query(d, g.node_count() as usize), p, #[trigger] c[t])
        }),
{
    let id = g.node_count() as usize;
    let l1 = l + 1;
    let c = cands[l1];
    let st = g.layer_start(cands, l1);
    let k = g.insert_breadth(level, l1);
    let qd = to_query(d, id);
    assert(g.found_on_layer(d, id, level, l1, st, c));
    reveal(Index::found_on_layer);
    let v = choose|v: Set<usize>| g.is_layer_result(qd, l1, st, k, c, v);
    assert(c.len() >= 1);
    assert(g.layer_start(cands, l) == c[0]);
    assert forall|t: int| 0 <= t < c.len() && c[t] != c[0] implies before(to_query(d, id), c[0], #[trigger] c[t]) by {
        if t > 0 {
            assert(before(to_query(d, id), c[0], c[t]));
        }
    }
}

/// Linking the new node `id` back into the list of `s`: while the list has room, `id` is
/// appended; an over-full list is pruned, which sorts it by distance to `s` and then makes
/// the heuristic choice of `cap` neighbours among the sorted entries.
pub proof fn lemma_linked_back_heuristic(d: spec_fn(usize, usize) -> u32, list: Seq<usize>, s: usize, id: usize, cap: nat)
    ensures
        list.len() + 1 <= cap ==> linked_back(d, list, s, id, cap) == list.push(id),
        list.len() + 1 > cap ==> heuristic_choice(
            d,
            s,
            nodes_of(sort_by_distance(keyed(d, s, list.push(id)))),
            cap,
            linked_back(d, list, s, id, cap),
        ),
{
    lemma_prune_heuristic(d, s, list.push(id), cap);
}

/// A pruned list keeps at most `cap` of its entries, each once.
pub proof fn lemma_prune_props(d: spec_fn(usize, usize) -> u32, s: usize, xs: Seq<usize>, cap: nat)
    ensures
        prune_spec(d, s, xs, cap).len() <= cap,
        forall|t: int| 0 <= t < prune_spec(d, s, xs, cap).len() ==> xs.contains(#[trigger] prune_spec(d, s, xs, cap)[t]),
        distinct(xs) ==> distinct(prune_spec(d, s, xs, cap)),
{
    let k = keyed(d, s, xs);
    let sorted = sort_by_distance(k);
    let order = nodes_of(sorted);
    lemma_sort_props(k);
    lemma_select_props(d, s, order, cap);
    let r = prune_spec(d, s, xs, cap);
    assert forall|t: int| 0 <= t < r.len() implies xs.contains(#[trigger] r[t]) by {
        assert(order.contains(r[t]));
        let u = choose|u: int| 0 <= u < order.len() && order[u] == r[t];
        assert(sorted[u].1 == r[t]);
        assert(holds(sorted, r[t]));
        assert(holds(k, r[t]));
        let w = choose|w: int| 0 <= w < k.len() && (#[trigger] k[w]).1 == r[t];
        assert(xs[w] == r[t]);
    }
    if distinct(xs) {
        assert(nodes_distinct(k)) by {
            assert forall|a: int, b: int| 0 <= a < b < k.len() implies (#[trigger] k[a]).1 != (#[trigger] k[b]).1 by {
                assert(k[a].1 == xs[a] && k[b].1 == xs[b]);
            }
        }
        assert(distinct(order)) by {
            assert forall|a: int, b: int| 0 <= a < b < order.len() implies #[trigger] order[a] != #[trigger] order[b] by {
                assert(order[a] == sorted[a].1 && order[b] == sorted[b].1);
            }
        }
    }
}

/// Linking back keeps old entries or adds `id`, respects `cap`, and keeps lists simple.
pub proof fn lemma_linked_back_props(d: spec_fn(usize, usize) -> u32, list: Seq<usize>, s: usize, id: usize, cap: nat)
    ensures
        forall|t: int|
            0 <= t < linked_back(d, list, s, id, cap).len() ==> #[trigger] linked_back(d, list, s, id, cap)[t] == id
                || list.contains(linked_back(d, list, s, id, cap)[t]),
        list.len() <= cap ==> linked_back(d, list, s, id, cap).len() <= cap,
        distinct(list) && !list.contains(id) ==> distinct(linked_back(d, list, s, id, cap)),
{
    let grown = list.push(id);
    let r = linked_back(d, list, s, id, cap);
    lemma_prune_props(d, s, grown, cap);
    assert forall|t: int| 0 <= t < r.len() implies #[trigger] r[t] == id || list.contains(r[t]) by {
        if grown.len() > cap {
            assert(grown.contains(r[t]));
            let u = choose|u: int| 0 <= u < grown.len() && grown[u] == r[t];
            if u < list.len() {
                assert(list[u] == r[t]);
            }
        } else if t < list.len() {
            assert(list[t] == r[t]);
        }
    }
    if distinct(list) && !list.contains(id) {
        assert(distinct(grown)) by {
            assert forall|a: int, b: int| 0 <= a < b < grown.len() implies #[trigger] grown[a] != #[trigger] grown[b] by {
                if b == list.len() {
                    assert(grown[a] == list[a]);
                }
            }
        }
    }
}

/// A copy of `v`.
fn copy_links(v: &Vec<usize>) -> (r: Vec<usize>)
    ensures
        r@ == v@,
{
    let mut r: Vec<usize> = Vec::new();
    let mut i: usize = 0;
    while i < v.len()
        invariant
            i <= v@.len(),
            r@ == v@.take(i as int),
        decreases v@.len() - i,
    {
        r.push(v[i]);
        i = i + 1;
        assert(r@ =~= v@.take(i as int));
    }
    assert(v@.take(v@.len() as int) =~= v@);
    r
}

impl Index {
    /// Only the neighbour list of node `x` on layer `l` may differ between `self` and `other`.
    pub open spec fn same_but(&self, other: &Index, x: int, l: int) -> bool {
        &&& self.node_count() == other.node_count()
        &&& self.dim == other.dim
        &&& self.start_point == other.start_point
        &&& self.max_height == other.max_height
        &&& self.m == other.m
        &&& self.ef_construction == other.ef_construction
        &&& forall|i: int| 0 <= i < self.node_count() ==> (#[trigger] self.nodes@[i]) is Some == other.nodes@[i] is Some
        &&& forall|i: int| 0 <= i < self.node_count() ==> (#[trigger] self.node(i)).id == other.node(i).id
        &&& forall|i: int| 0 <= i < self.node_count() ==> #[trigger] self.levels(i) == other.levels(i)
        &&& forall|i: int, l2: int|
            0 <= i < self.node_count() && 0 <= l2 < self.levels(i) && (i != x || l2 != l) ==> #[trigger] self.links(i, l2)
                == other.links(i, l2)
    }

    /// Replaces the neighbour list of node `x` on layer `l` by `list`.
    fn set_links(&mut self, x: usize, l: usize, list: Vec<usize>)
        requires
            x < old(self).node_count(),
            old(self).nodes@[x as int] is Some,
            l < old(self).levels(x as int),
        ensures
            final(self).same_but(old(self), x as int, l as int),
            final(self).links(x as int, l as int) == list@,
            old(self).graph_ok() && (forall|t: int|
                0 <= t < list@.len() ==> #[trigger] list@[t] < old(self).node_count() && l < old(self).levels(
                    list@[t] as int,
                )) ==> final(self).graph_ok(),
    {
        let ghost n = old(self).node_count();
        let mut slot: Option<Node> = None;
        self.nodes.set_and_swap(x, &mut slot);
        let mut node = slot.unwrap();
        node.neighbors.set(l, list);
        self.nodes.set(x, Some(node));
        proof {
            assert forall|i: int| 0 <= i < n implies (#[trigger] self.nodes@[i]) is Some == old(self).nodes@[i] is Some by {
                if i != x {
                    assert(self.nodes@[i] == old(self).nodes@[i]);
                }
            }
            assert forall|i: int| 0 <= i < n implies (#[trigger] self.node(i)).id == old(self).node(i).id by {
                if i != x {
                    assert(self.nodes@[i] == old(self).nodes@[i]);
                }
            }
            assert forall|i: int| 0 <= i < n implies #[trigger] self.levels(i) == old(self).levels(i) by {
                if i != x {
                    assert(self.nodes@[i] == old(self).nodes@[i]);
                }
            }
            assert forall|i: int, l2: int|
                0 <= i < n && 0 <= l2 < self.levels(i) && (i != x || l2 != l) implies #[trigger] self.links(i, l2)
                    == old(self).links(i, l2) by {
                if i != x {
                    assert(self.nodes@[i] == old(self).nodes@[i]);
                }
            }
            if old(self).graph_ok() && (forall|t: int|
                0 <= t < list@.len() ==> #[trigger] list@[t] < n && l < old(self).levels(list@[t] as int)) {
                assert forall|i: int, l2: int, j: int|
                    0 <= i < self.node_count() && 0 <= l2 < self.levels(i) && 0 <= j < self.links(i, l2).len() implies {
                    let t = #[trigger] self.links(i, l2)[j];
                    &&& t < self.node_count()
                    &&& l2 < self.levels(t as int)
                } by {
                    if i == x && l2 == l {
                        assert(self.links(i, l2)[j] == list@[j]);
                    } else {
                        assert(self.links(i, l2) == old(self).links(i, l2));
                        assert(old(self).links(i, l2)[j] < n);
                    }
                }
            }
        }
    }

    /// Only neighbour lists of layer `l` may differ between `self` and `other`.
    pub open spec fn same_off_layer(&self, other: &Index, l: int) -> bool {
        &&& self.node_count() == other.node_count()
        &&& self.dim == other.dim
        &&& self.start_point == other.start_point
        &&& self.max_height == other.max_height
        &&& self.m == other.m
        &&& self.ef_construction == other.ef_construction
        &&& forall|i: int| 0 <= i < self.node_count() ==> (#[trigger] self.nodes@[i]) is Some == other.nodes@[i] is Some
        &&& forall|i: int| 0 <= i < self.node_count() ==> (#[trigger] self.node(i)).id == other.node(i).id
        &&& forall|i: int| 0 <= i < self.node_count() ==> #[trigger] self.levels(i) == other.levels(i)
        &&& forall|i: int, l2: int|
            0 <= i < self.node_count() && 0 <= l2 < self.levels(i) && l2 != l ==> #[trigger] self.links(i, l2)
                == other.links(i, l2)
    }

    /// Links the new node `id` into the layer-`i` list of its neighbour `s`.
    fn link_back<F: Fn(usize, usize) -> u32>(
        &mut self,
        dist: &F,
        Ghost(d): Ghost<spec_fn(usize, usize) -> u32>,
        s: usize,
        id: usize,
        i: usize,
        cap: usize,
    )
        requires
            old(self).graph_ok(),
            pair_computes(*dist, old(self).node_count(), d),
            s < old(self).node_count(),
            id < old(self).node_count(),
            i < old(self).levels(s as int),
            i < old(self).levels(id as int),
        ensures
            final(self).same_but(old(self), s as int, i as int),
            final(self).links(s as int, i as int) == linked_back(d, old(self).links(s as int, i as int), s, id, cap as nat),
            final(self).graph_ok(),
    {
        let ghost n = self.node_count();
        let ghost old_list = self.links(s as int, i as int);
        let mut sn = copy_links(&self.nodes[s].as_ref().unwrap().neighbors[i]);
        sn.push(id);
        assert forall|t: int| 0 <= t < sn@.len() implies #[trigger] sn@[t] < n by {
            if t < old_list.len() {
                assert(sn@[t] == old_list[t]);
            }
        }
        assert(sn@ == old_list.push(id));
        if sn.len() > cap {
            sn = prune_with(dist, Ghost(d), Ghost(n), s, &sn, cap);
        }
        assert(sn@ == linked_back(d, old_list, s, id, cap as nat));
        proof {
            lemma_linked_back_props(d, old_list, s, id, cap as nat);
            assert forall|t: int| 0 <= t < sn@.len() implies #[trigger] sn@[t] < n && i < self.levels(sn@[t] as int) by {
                if sn@[t] != id {
                    assert(old_list.contains(sn@[t]));
                    let u = choose|u: int| 0 <= u < old_list.len() && old_list[u] == sn@[t];
                    assert(self.links(s as int, i as int)[u] == sn@[t]);
                }
            }
        }
        self.set_links(s, i, sn);
    }

    /// Gives the new node `id` its layer-`i` neighbours chosen among `candidate`, and links
    /// it back into each of their lists, pruned to `cap`.
    fn connect_layer<F: Fn(usize, usize) -> u32>(
        &mut self,
        dist: &F,
        Ghost(d): Ghost<spec_fn(usize, usize) -> u32>,
        id: usize,
        i: usize,
        candidate: &Vec<usize>,
        cap: usize,
    )
        requires
            old(self).graph_ok(),
            pair_computes(*dist, old(self).node_count(), d),
            id < old(self).node_count(),
            i < old(self).levels(id as int),
            forall|t: int|
                0 <= t < candidate@.len() ==> #[trigger] candidate@[t] < old(self).node_count() && candidate@[t]
                    != id && i < old(self).levels(candidate@[t] as int),
            distinct(candidate@),
        ensures
            final(self).graph_ok(),
            final(self).same_off_layer(old(self), i as int),
            final(self).links(id as int, i as int) == select_spec(d, id, candidate@, old(self).m as nat),
            forall|x: usize|
                x < old(self).node_count() && x != id && i < old(self).levels(x as int) ==> #[trigger] final(self).links(x as int, i as int)
                    == if select_spec(d, id, candidate@, old(self).m as nat).contains(x) {
                    linked_back(d, old(self).links(x as int, i as int), x, id, cap as nat)
                } else {
                    old(self).links(x as int, i as int)
                },
    {
        let ghost n = self.node_count();
        let ghost sel = select_spec(d, id, candidate@, self.m as nat);
        let chosen = select_with(dist, Ghost(d), Ghost(n), id, candidate, self.m);
        proof {
            lemma_select_props(d, id, candidate@, self.m as nat);
        }
        assert forall|t: int| 0 <= t < chosen@.len() implies #[trigger] chosen@[t] < n && chosen@[t] != id && i < self.levels(chosen@[t] as int) by {
            assert(candidate@.contains(chosen@[t]));
        }
        let links = copy_links(&chosen);
        self.set_links(id, i, links);
        let mut t: usize = 0;
        while t < chosen.len()
            invariant
                n == self.node_count(),
                chosen@ == sel,
                distinct(sel),
                forall|u: int| 0 <= u < sel.len() ==> #[trigger] sel[u] < n && sel[u] != id && i < self.levels(sel[u] as int),
                t <= sel.len(),
                self.graph_ok(),
                pair_computes(*dist, n, d),
                id < n,
                i < self.levels(id as int),
                self.same_off_layer(old(self), i as int),
                self.links(id as int, i as int) == sel,
                forall|x: usize|
                    x < n && x != id && i < old(self).levels(x as int) ==> #[trigger] self.links(x as int, i as int)
                        == if sel.take(t as int).contains(x) {
                        linked_back(d, old(self).links(x as int, i as int), x, id, cap as nat)
                    } else {
                        old(self).links(x as int, i as int)
                    },
            decreases sel.len() - t,
        {
            let s = chosen[t];
            let ghost before = *self;
            self.link_back(dist, Ghost(d), s, id, i, cap);
            proof {
                assert(!sel.take(t as int).contains(s)) by {
                    if sel.take(t as int).contains(s) {
                        let u = choose|u: int| 0 <= u < t && sel.take(t as int)[u] == s;
                        assert(sel[u] == sel[t as int]);
                    }
                }
                assert forall|x: usize|
                    x < n && x != id && i < old(self).levels(x as int) implies #[trigger] self.links(x as int, i as int)
                        == if sel.take(t + 1).contains(x) {
                        linked_back(d, old(self).links(x as int, i as int), x, id, cap as nat)
                    } else {
                        old(self).links(x as int, i as int)
                    } by {
                    let a = sel.take(t as int);
                    let b = sel.take(t + 1);
                    assert(b =~= a.push(s));
                    if x != s {
                        assert(self.links(x as int, i as int) == before.links(x as int, i as int));
                        if a.contains(x) {
                            let u = choose|u: int| 0 <= u < a.len() && a[u] == x;
                            assert(b[u] == x);
                        }
                        if b.contains(x) {
                            let u = choose|u: int| 0 <= u < b.len() && b[u] == x;
                            assert(u < t);
                            assert(a[u] == x);
                        }
                    } else {
                        assert(b[t as int] == s);
                    }
                }
                assert(self.links(id as int, i as int) == before.links(id as int, i as int));
            }
            t = t + 1;
        }
        assert(sel.take(sel.len() as int) =~= sel);
    }

    /// How many candidates the search on layer `l` keeps while inserting a node of level
    /// `level`: `ef_construction` on the layers the node lives on, one above them.
    pub open spec fn insert_breadth(&self, level: nat, l: int) -> nat {
        if l <= level {
            breadth(self.ef_construction)
        } else {
            1
        }
    }

    /// The breadth the insertion searches layer `l` with: `ef_construction` on the layers
    /// the new node of level `level` lives on, one above them.
    pub open spec fn insert_ef(&self, level: nat, l: int) -> usize {
        if l <= level {
            self.ef_construction
        } else {
            1
        }
    }

    /// Where the search on layer `l` starts while inserting: the entry point on the top
    /// layer, and the first candidate found on the layer above on the others.
    pub open spec fn layer_start(&self, cands: Seq<Seq<usize>>, l: int) -> usize {
        if l == self.max_height {
            self.start_point.unwrap()
        } else {
            cands[l + 1][0]
        }
    }

    /// `c` is what the search of layer `l` from `start` for the new node `id`, of level
    /// `level`, may find in `self`.
    #[verifier::opaque]
    pub open spec fn found_on_layer(
        &self,
        d: spec_fn(usize, usize) -> u32,
        id: usize,
        level: nat,
        l: int,
        start: usize,
        c: Seq<usize>,
    ) -> bool {
        &&& c == self.greedy_layer(to_query(d, id), l, start, self.insert_ef(level, l))
        &&& exists|v: Set<usize>| self.is_layer_result(to_query(d, id), l, start, self.insert_breadth(level, l), c, v)
    }

    /// `cands[l]` is, on every layer `l` from the top down to `lo`, what the search of that
    /// layer for the new node `id` may find in `self`, the index before the insertion.
    pub open spec fn insert_trace(
        &self,
        d: spec_fn(usize, usize) -> u32,
        id: usize,
        level: nat,
        cands: Seq<Seq<usize>>,
        lo: int,
    ) -> bool {
        &&& cands.len() == self.max_height + 1
        &&& forall|l: int|
            lo <= l <= self.max_height ==> #[trigger] self.found_on_layer(d, id, level, l, self.layer_start(cands, l), cands[l])
    }

    /// The neighbour list of `x` on layer `l` once the new node `id` of level `level` is
    /// linked on the layers from `lo` up, with the candidates `cands` of each layer: the
    /// new node keeps the neighbours chosen among the candidates, each chosen neighbour
    /// gets the new node linked back, and every other list stays as it was in `self`.
    pub open spec fn list_after_insert(
        &self,
        d: spec_fn(usize, usize) -> u32,
        id: usize,
        level: nat,
        cands: Seq<Seq<usize>>,
        lo: int,
        x: usize,
        l: int,
    ) -> Seq<usize> {
        if self.start_point is Some && lo <= l && l <= level && l <= self.max_height {
            let sel = select_spec(d, id, cands[l], self.m as nat);
            if x == id {
                sel
            } else if sel.contains(x) {
                linked_back(d, self.links(x as int, l), x, id, self.capacity(l) as nat)
            } else {
                self.links(x as int, l)
            }
        } else if x == id {
            Seq::empty()
        } else {
            self.links(x as int, l)
        }
    }

    /// What an insertion into `g` of a node of level `level` keeps throughout: the nodes,
    /// their identifiers and levels, the new node appended, and the parameters.
    pub open spec fn insert_frame(&self, g: Index, level: nat) -> bool {
        let id = g.node_count() as usize;
        &&& g.node_count() < usize::MAX
        &&& g.well_formed()
        &&& g.start_point is Some
        &&& self.graph_ok()
        &&& self.node_count() == id + 1
        &&& self.start_point == g.start_point
        &&& self.max_height == g.max_height
        &&& self.m == g.m
        &&& self.ef_construction == g.ef_construction
        &&& self.dim == g.dim
        &&& forall|x: int| 0 <= x <= id ==> (#[trigger] self.node(x)).id == x
        &&& forall|x: int| 0 <= x < id ==> #[trigger] self.levels(x) == g.levels(x)
        &&& self.levels(id as int) == level + 1
    }

    /// Every neighbour list is what the insertion makes of it once the layers from `lo`
    /// up are done.
    pub open spec fn insert_lists(
        &self,
        g: Index,
        d: spec_fn(usize, usize) -> u32,
        level: nat,
        cands: Seq<Seq<usize>>,
        lo: int,
    ) -> bool {
        let id = g.node_count() as usize;
        forall|x: usize, l: int|
            x <= id && 0 <= l < self.levels(x as int) ==> #[trigger] self.links(x as int, l)
                == g.list_after_insert(d, id, level, cands, lo, x, l)
    }

    /// No neighbour list below layer `lo` names the new node yet.
    pub open spec fn insert_fresh(&self, g: Index, lo: int) -> bool {
        let id = g.node_count() as usize;
        forall|x: usize, l: int|
            x <= id && 0 <= l < lo && l < self.levels(x as int) ==> !(#[trigger] self.links(x as int, l)).contains(id)
    }

    /// The state of an insertion into `g` of a node of level `level` once the layers from
    /// `lo` up are done.
    pub open spec fn insert_state(
        &self,
        g: Index,
        d: spec_fn(usize, usize) -> u32,
        level: nat,
        cands: Seq<Seq<usize>>,
        lo: int,
    ) -> bool {
        &&& self.insert_frame(g, level)
        &&& g.insert_trace(d, g.node_count() as usize, level, cands, lo)
        &&& self.insert_lists(g, d, level, cands, lo)
        &&& self.insert_fresh(g, lo)
    }

    /// Searches layer `i` for the new node `id` from `start` and, on a layer the node lives
    /// on, links it there; returns where the search of the layer below starts.
    #[verifier::rlimit(100)]
    #[verifier::spinoff_prover]
    fn insert_layer<F: Fn(usize, usize) -> u32, Q: Fn(usize) -> u32>(
        &mut self,
        dist: &F,
        q: &Q,
        Ghost(d): Ghost<spec_fn(usize, usize) -> u32>,
        Ghost(g): Ghost<Index>,
        Ghost(cands): Ghost<Seq<Seq<usize>>>,
        id: usize,
        level: usize,
        i: u32,
        start: usize,
    ) -> (out: (usize, Ghost<Seq<Seq<usize>>>))
        requires
            old(self).insert_state(g, d, level as nat, cands, i + 1),
            query_computes(*q, (id + 1) as nat, to_query(d, id)),
            pair_computes(*dist, (id + 1) as nat, d),
            id == g.node_count(),
            level < u32::MAX,
            2 * g.m <= usize::MAX,
            i <= g.max_height,
            start < id,
            i < g.levels(start as int),
            start == g.layer_start(cands, i as int),
        ensures
            final(self).insert_state(g, d, level as nat, out.1@, i as int),
            out.0 < id,
            i > 0 ==> i - 1 < g.levels(out.0 as int),
            i > 0 ==> out.0 == g.layer_start(out.1@, i - 1),
    {
        let ghost qd = to_query(d, id);
        let ef = if i <= level as u32 {
            self.ef_construction
        } else {
            1
        };
        let ghost cur = *self;
        let candidate = self.layer_search(q, Ghost(qd), i, start, ef);
        let ghost v = choose|v: Set<usize>| cur.is_layer_result(qd, i as int, start, breadth(ef), candidate@, v);
        let ghost c2 = cands.update(i as int, candidate@);
        proof {
            assert forall|x: usize| x < id && (i as int) < g.levels(x as int) implies #[trigger] cur.links(x as int, i as int) == g.links(x as int, i as int) by {
                assert(cur.levels(x as int) == g.levels(x as int));
            }
            lemma_result_transfer(&cur, &g, qd, i as int, start, breadth(ef), candidate@, v, id);
            assert(breadth(ef) == g.insert_breadth(level as nat, i as int));
            assert(ef == g.insert_ef(level as nat, i as int));
            lemma_run_same(
                cur,
                g,
                qd,
                i as int,
                ef,
                (Set::empty().insert(start), seq![(qd(start), start)], seq![(qd(start), start)]),
                search_rounds(),
            );
            assert(candidate@ == g.greedy_layer(qd, i as int, start, ef));
            lemma_state_after_search(cur, g, d, level as nat, cands, i as int, candidate@, v);
        }
        let mut next = start;
        if candidate.len() > 0 {
            next = candidate[0];
            assert(v.contains(candidate@[0]));
            if i <= level as u32 {
                let cap = if i == 0 {
                    2 * self.m
                } else {
                    self.m
                };
                proof {
                    assert forall|a: int, b: int| 0 <= a < b < candidate@.len() implies #[trigger] candidate@[a] != #[trigger] candidate@[b] by {
                        assert(before(qd, candidate@[a], candidate@[b]));
                    }
                    assert forall|u: int| 0 <= u < candidate@.len() implies #[trigger] candidate@[u] < self.node_count()
                        && candidate@[u] != id && i < self.levels(candidate@[u] as int) by {
                        assert(v.contains(candidate@[u]));
                    }
                }
                let ghost mid = *self;
                self.connect_layer(dist, Ghost(d), id, i as usize, &candidate, cap);
                proof {
                    assert(cap == g.capacity(i as int));
                    lemma_state_after_connect(mid, *self, g, d, level as nat, c2, i as int, cap as nat);
                }
            }
        }
        (next, Ghost(c2))
    }

    /// `after` is `self` with a new node of level `level` inserted, the searches on its
    /// layers having found `cands`: see [`Index::insert_trace`] and
    /// [`Index::list_after_insert`].
    pub open spec fn insert_outcome(
        &self,
        after: Index,
        d: spec_fn(usize, usize) -> u32,
        level: nat,
        cands: Seq<Seq<usize>>,
    ) -> bool {
        let id = self.node_count() as usize;
        &&& self.start_point is Some ==> self.insert_trace(d, id, level, cands, 0)
        &&& forall|x: usize, l: int|
            x <= id && 0 <= l < after.levels(x as int) ==> #[trigger] after.links(x as int, l)
                == self.list_after_insert(d, id, level, cands, 0, x, l)
    }

    /// Adds a node of level `level` for the vector last appended by the caller: it lives on
    /// layers `0..=level`; on each layer from the top down the index is searched for it,
    /// and on the layers it lives on it is linked to the neighbours chosen among the
    /// candidates found, which link back to it. `dist` measures distances between nodes,
    /// the new one included.
    pub fn insert_vec<F: Fn(usize, usize) -> u32>(&mut self, dist: &F, level: usize)
        requires
            old(self).well_formed(),
            pair_oracle(*dist, old(self).node_count() + 1),
            level < u32::MAX,
            old(self).entry() is Some ==> 2 * old(self).spec_m() <= usize::MAX,
        ensures
            final(self).well_formed(),
            final(self).node_count() == old(self).node_count() + 1,
            final(self).node(old(self).node_count() as int).node_id() == old(self).node_count(),
            final(self).levels(old(self).node_count() as int) == level + 1,
            forall|x: int| 0 <= x < old(self).node_count() ==> #[trigger] final(self).levels(x) == old(self).levels(x),
            final(self).spec_m() == old(self).spec_m(),
            final(self).spec_ef_construction() == old(self).spec_ef_construction(),
            final(self).spec_dim() == old(self).spec_dim(),
            old(self).entry() is None ==> final(self).entry() == Some(old(self).node_count() as usize)
                && final(self).top_layer() == level,
            old(self).entry() is Some && level > old(self).top_layer() ==> final(self).entry() == Some(
                old(self).node_count() as usize,
            ) && final(self).top_layer() == level,
            old(self).entry() is Some && level <= old(self).top_layer() ==> final(self).entry() == old(self).entry()
                && final(self).top_layer() == old(self).top_layer(),
            exists|cands: Seq<Seq<usize>>|
                #[trigger] old(self).insert_outcome(*final(self), pair_dists(*dist), level as nat, cands),
            old(self).no_self_loops() ==> final(self).no_self_loops(),
            old(self).no_duplicate_links() ==> final(self).no_duplicate_links(),
            old(self).degree_bounded() ==> final(self).degree_bounded(),
            old(self).spec_m() >= 1 && old(self).bottom_linked() ==> final(self).bottom_linked(),
            forall|x: int, l: int, t: int|
                0 <= x < old(self).node_count() && 0 <= l < old(self).levels(x) && 0 <= t < final(self).links(x, l).len()
                    ==> #[trigger] final(self).links(x, l)[t] == old(self).node_count() || old(self).links(x, l).contains(
                    final(self).links(x, l)[t],
                ),
            forall|l: int|
                0 <= l <= level ==> (#[trigger] final(self).links(old(self).node_count() as int, l)).len() <= old(self).spec_m()
                    && forall|t: int|
                    0 <= t < final(self).links(old(self).node_count() as int, l).len() ==> #[trigger] final(self).links(
                        old(self).node_count() as int,
                        l,
                    )[t] < old(self).node_count(),
    {
        let ghost g = *self;
        let ghost d = pair_dists(*dist);
        let id = self.nodes.len();
        proof {
            lemma_pair_oracle_computes(*dist, (id + 1) as nat);
        }
        let mut neighbors: Vec<Vec<usize>> = Vec::new();
        let mut t: usize = 0;
        while t <= level
            invariant
                t <= level + 1,
                level < u32::MAX,
                neighbors@.len() == t,
                forall|u: int| 0 <= u < t ==> (#[trigger] neighbors@[u])@.len() == 0,
            decreases level + 1 - t,
        {
            neighbors.push(Vec::new());
            t = t + 1;
        }
        let ghost node = Node { id, neighbors };
        self.nodes.push(Some(Node { id, neighbors }));
        if self.start_point.is_none() {
            self.start_point = Some(id);
            self.max_height = level as u32;
            proof {
                lemma_first_node(g, *self, node, d, level as nat);
                lemma_insert_laws(g, *self, d, level as nat, Seq::new(1, |l: int| Seq::<usize>::empty()));
            }
            return;
        }
        let ghost top = self.max_height as int;
        let ghost qd = to_query(d, id);
        let q = |j: usize| -> (r: u32)
            requires
                j < id + 1,
            ensures
                r == key_of(pair_dist(*dist, j, id)),
        {
            distance_key(dist(j, id))
        };
        assert(query_computes(q, (id + 1) as nat, qd)) by {
            assert forall|j: usize, r: u32| call_ensures(q, (j,), r) implies r == qd(j) by {}
        }
        let mut start = self.start_point.unwrap();
        let mut i: u32 = self.max_height;
        let ghost mut cands: Seq<Seq<usize>> = Seq::new((top + 1) as nat, |l: int| Seq::<usize>::empty());
        proof {
            lemma_appended(g, *self, node, d, level as nat);
        }
        loop
            invariant_except_break
                self.insert_state(g, d, level as nat, cands, i + 1),
                start < id,
                i < g.levels(start as int),
                start == g.layer_start(cands, i as int),
            invariant
                query_computes(q, (id + 1) as nat, qd),
                qd == to_query(d, id),
                pair_computes(*dist, (id + 1) as nat, d),
                id == g.node_count(),
                top == g.max_height,
                level < u32::MAX,
                2 * g.m <= usize::MAX,
                i <= top,
            ensures
                self.insert_state(g, d, level as nat, cands, 0),
            decreases i,
        {
            let (next, Ghost(c2)) = self.insert_layer(dist, &q, Ghost(d), Ghost(g), Ghost(cands), id, level, i, start);
            proof {
                cands = c2;
            }
            if i == 0 {
                break;
            }
            start = next;
            i = i - 1;
        }
        let ghost done = *self;
        if self.max_height < level as u32 {
            self.max_height = level as u32;
            self.start_point = Some(id);
        }
        proof {
            lemma_finish(g, done, *self, d, level as nat, cands);
            lemma_insert_laws(g, *self, d, level as nat, cands);
            if g.m >= 1 && g.bottom_linked() {
                lemma_insert_bottom(g, *self, d, level as nat, cands);
            }
        }
    }
}

} // verus!
