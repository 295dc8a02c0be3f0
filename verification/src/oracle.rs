//! Distance callbacks and the spec-level distance functions they stand for.
use vstd::prelude::*;
use crate::metric::key_of;

verus! {

/// The distance that the query callback `f` reports for node `a`.
pub open spec fn query_dist<F: Fn(usize) -> u32>(f: F, a: usize) -> u32 {
    choose|d: u32| call_ensures(f, (a,), d)
}

/// All query distances reported by `f`, as a spec function.
pub open spec fn query_dists<F: Fn(usize) -> u32>(f: F) -> spec_fn(usize) -> u32 {
    |a: usize| query_dist(f, a)
}

/// The order keys of the distances `f` reports, as a spec function.
pub open spec fn query_keys<F: Fn(usize) -> u32>(f: F) -> spec_fn(usize) -> u32 {
    |a: usize| key_of(query_dist(f, a))
}

/// `f` may be called on every node below `n` and answers the same on the same node.
pub open spec fn query_oracle<F: Fn(usize) -> u32>(f: F, n: nat) -> bool {
    &&& forall|a: usize| a < n ==> call_requires(f, (a,))
    &&& forall|a: usize, d1: u32, d2: u32|
        call_ensures(f, (a,), d1) && call_ensures(f, (a,), d2) ==> d1 == d2
}

/// `f` may be called on every node below `n` and returns `d` of it.
pub open spec fn query_computes<F: Fn(usize) -> u32>(f: F, n: nat, d: spec_fn(usize) -> u32) -> bool {
    &&& forall|a: usize| a < n ==> call_requires(f, (a,))
    &&& forall|a: usize, r: u32| call_ensures(f, (a,), r) ==> r == d(a)
}

/// The distance that the pair callback `f` reports from node `a` to node `b`.
pub open spec fn pair_dist<F: Fn(usize, usize) -> u32>(f: F, a: usize, b: usize) -> u32 {
    choose|d: u32| call_ensures(f, (a, b), d)
}

/// All pair distances reported by `f`, as a spec function.
pub open spec fn pair_dists<F: Fn(usize, usize) -> u32>(f: F) -> spec_fn(usize, usize) -> u32 {
    |a: usize, b: usize| pair_dist(f, a, b)
}

/// `f` may be called on every pair of nodes below `n` and answers the same on the same pair.
pub open spec fn pair_oracle<F: Fn(usize, usize) -> u32>(f: F, n: nat) -> bool {
    &&& forall|a: usize, b: usize| a < n && b < n ==> call_requires(f, (a, b))
    &&& forall|a: usize, b: usize, d1: u32, d2: u32|
        call_ensures(f, (a, b), d1) && call_ensures(f, (a, b), d2) ==> d1 == d2
}

/// `f` may be called on every pair of nodes below `n` and returns `d` of it.
pub open spec fn pair_computes<F: Fn(usize, usize) -> u32>(
    f: F,
    n: nat,
    d: spec_fn(usize, usize) -> u32,
) -> bool {
    &&& forall|a: usize, b: usize| a < n && b < n ==> call_requires(f, (a, b))
    &&& forall|a: usize, b: usize, r: u32| call_ensures(f, (a, b), r) ==> r == d(a, b)
}

pub proof fn lemma_query_oracle_computes<F: Fn(usize) -> u32>(f: F, n: nat)
    requires
        query_oracle(f, n),
    ensures
        query_computes(f, n, query_dists(f)),
{
    assert forall|a: usize, r: u32| call_ensures(f, (a,), r) implies r == query_dists(f)(a) by {
        let c = choose|d: u32| call_ensures(f, (a,), d);
        assert(call_ensures(f, (a,), c));
    }
}

pub proof fn lemma_pair_oracle_computes<F: Fn(usize, usize) -> u32>(f: F, n: nat)
    requires
        pair_oracle(f, n),
    ensures
        pair_computes(f, n, pair_dists(f)),
{
    assert forall|a: usize, b: usize, r: u32| call_ensures(f, (a, b), r) implies r == pair_dists(
        f,
    )(a, b) by {
        let c = choose|d: u32| call_ensures(f, (a, b), d);
        assert(call_ensures(f, (a, b), c));
    }
}

} // verus!
