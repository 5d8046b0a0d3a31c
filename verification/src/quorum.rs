//! Majority quorums and why two of them always meet.

use vstd::prelude::*;
use vstd::relations::injective_on;
use vstd::set_lib::{lemma_int_range, lemma_len_subset, lemma_map_size, lemma_set_disjoint_lens, set_int_range};
use crate::msg::ReplicaId;

verus! {

/// The number of members that constitute a majority of a cluster of
/// `cluster_size` members.
pub open spec fn spec_majority(cluster_size: int) -> int {
    cluster_size / 2 + 1
}

/// Computes the majority threshold: strictly more than half the cluster.
pub fn majority(cluster_size: usize) -> (r: usize)
    ensures
        r == spec_majority(cluster_size as int),
{
    cluster_size / 2 + 1
}

/// Two sets of replicas out of a cluster of `n` that together outnumber the
/// cluster share at least one member. Instantiated with two majorities, this
/// intersection is what carries a completed write into every later quorum
/// phase.
pub proof fn lemma_quorum_overlap(n: int, a: Set<ReplicaId>, b: Set<ReplicaId>)
    requires
        n >= 0,
        forall|p: ReplicaId| a.contains(p) ==> (p as int) < n,
        forall|p: ReplicaId| b.contains(p) ==> (p as int) < n,
        a.finite(),
        b.finite(),
        a.len() + b.len() > n,
    ensures
        exists|p: ReplicaId| a.contains(p) && b.contains(p),
{
    let f = |p: ReplicaId| p as int;
    let ai = a.map(f);
    let bi = b.map(f);
    assert(injective_on(f, a));
    assert(injective_on(f, b));
    lemma_map_size(a, ai, f);
    lemma_map_size(b, bi, f);
    assert(ai.subset_of(set_int_range(0, n)));
    assert(bi.subset_of(set_int_range(0, n)));
    if ai.disjoint(bi) {
        lemma_set_disjoint_lens(ai, bi);
        lemma_int_range(0, n);
        lemma_len_subset(ai + bi, set_int_range(0, n));
        assert(false);
    }
    let x = choose|x: int| ai.contains(x) && bi.contains(x);
    let p = choose|p: ReplicaId| a.contains(p) && f(p) == x;
    let q = choose|q: ReplicaId| b.contains(q) && f(q) == x;
    assert(p == q);
}

/// A majority is a majority: two sets of at least `spec_majority(n)` members
/// each together exceed `n`.
pub proof fn lemma_majorities_exceed(n: int, ka: int, kb: int)
    requires
        n >= 1,
        ka >= spec_majority(n),
        kb >= spec_majority(n),
    ensures
        ka + kb > n,
{
}

} // verus!
