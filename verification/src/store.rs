//! Quorum bookkeeping: the query-phase response table and the replicate-phase
//! acknowledgment set, kept as vectors sorted strictly by peer identity.
//!
//! Sorting gives each collection one canonical layout per abstract content, so
//! a replica state is determined by the mapping and set the contracts speak
//! of, and never by the order in which messages happened to arrive.

use vstd::prelude::*;
use crate::msg::{ReplicaId, Value};
use crate::seqno::{Seqno, seqno_lt};
use crate::seqno::seqno_less;

verus! {

/// One peer's answer in the query phase: the timestamp and value it reported.
#[derive(Clone, Copy, Debug, PartialEq, Eq, Hash)]
pub struct Response {
    pub peer: ReplicaId,
    pub seqno: Seqno,
    pub val: Value,
}

/// The response table as a mapping from peer to reported pair; a later entry
/// for the same peer overrides an earlier one.
pub open spec fn responses_map(rs: Seq<Response>) -> Map<ReplicaId, (Seqno, Value)>
    decreases rs.len(),
{
    if rs.len() == 0 {
        Map::empty()
    } else {
        responses_map(rs.drop_last()).insert(rs.last().peer, (rs.last().seqno, rs.last().val))
    }
}

/// Strictly ascending peer identities: at most one entry per peer, in one
/// canonical order.
pub open spec fn responses_sorted(rs: Seq<Response>) -> bool {
    forall|i: int, j: int| 0 <= i < j < rs.len() ==> rs[i].peer < rs[j].peer
}

/// A sorted response table represents its mapping faithfully: the domain is
/// exactly the set of peers in the table, entries are looked up by peer, and
/// the table and the domain have the same size.
pub proof fn lemma_responses_map_props(rs: Seq<Response>)
    requires
        responses_sorted(rs),
    ensures
        responses_map(rs).dom().finite(),
        responses_map(rs).dom().len() == rs.len(),
        forall|i: int| 0 <= i < rs.len() ==> responses_map(rs).dom().contains(#[trigger] rs[i].peer),
        forall|i: int| 0 <= i < rs.len() ==> responses_map(rs)[#[trigger] rs[i].peer] == (rs[i].seqno, rs[i].val),
        forall|p: ReplicaId| responses_map(rs).dom().contains(p) ==> exists|i: int| 0 <= i < rs.len() && rs[i].peer == p,
    decreases rs.len(),
{
    if rs.len() > 0 {
        let prefix = rs.drop_last();
        lemma_responses_map_props(prefix);
        assert(forall|i: int| 0 <= i < prefix.len() ==> prefix[i] == rs[i]);
        assert(!responses_map(prefix).dom().contains(rs.last().peer)) by {
            if responses_map(prefix).dom().contains(rs.last().peer) {
                let i = choose|i: int| 0 <= i < prefix.len() && prefix[i].peer == rs.last().peer;
                assert(rs[i].peer < rs[rs.len() - 1].peer);
            }
        }
        assert(forall|i: int| 0 <= i < rs.len() ==> responses_map(rs)[#[trigger] rs[i].peer] == (rs[i].seqno, rs[i].val)) by {
            assert(forall|i: int| 0 <= i < rs.len() - 1 ==> rs[i].peer < rs.last().peer);
        }
    }
}

/// Updating the entry at a position whose peer matches rewrites that peer's
/// entry in the mapping.
proof fn lemma_responses_map_update(rs: Seq<Response>, i: int, r: Response)
    requires
        responses_sorted(rs),
        0 <= i < rs.len(),
        rs[i].peer == r.peer,
    ensures
        responses_map(rs.update(i, r)) == responses_map(rs).insert(r.peer, (r.seqno, r.val)),
    decreases rs.len(),
{
    let upd = rs.update(i, r);
    if i == rs.len() - 1 {
        assert(upd.drop_last() =~= rs.drop_last());
        assert(responses_map(upd) =~= responses_map(rs).insert(r.peer, (r.seqno, r.val)));
    } else {
        assert(upd.drop_last() =~= rs.drop_last().update(i, r));
        assert(upd.last() == rs.last());
        lemma_responses_map_update(rs.drop_last(), i, r);
        // the two inserted keys differ, so the inserts commute
        assert(r.peer != rs.last().peer);
        assert(responses_map(upd) =~= responses_map(rs).insert(r.peer, (r.seqno, r.val)));
    }
}

/// Inserting an entry for a peer the table does not hold adds that peer's
/// entry to the mapping.
proof fn lemma_responses_map_insert(rs: Seq<Response>, i: int, r: Response)
    requires
        responses_sorted(rs),
        0 <= i <= rs.len(),
        forall|j: int| 0 <= j < rs.len() ==> rs[j].peer != r.peer,
    ensures
        responses_map(rs.insert(i, r)) == responses_map(rs).insert(r.peer, (r.seqno, r.val)),
    decreases rs.len(),
{
    let ins = rs.insert(i, r);
    if i == rs.len() {
        assert(ins.drop_last() =~= rs);
        assert(ins.last() == r);
    } else {
        assert(ins.last() == rs.last());
        assert(ins.drop_last() =~= rs.drop_last().insert(i, r));
        lemma_responses_map_insert(rs.drop_last(), i, r);
        assert(r.peer != rs.last().peer);
        assert(responses_map(ins) =~= responses_map(rs).insert(r.peer, (r.seqno, r.val)));
    }
}

/// Records a peer's response, replacing any earlier response from the same
/// peer, and keeps the table sorted.
pub fn responses_insert(rs: &mut Vec<Response>, r: Response)
    requires
        responses_sorted(old(rs)@),
    ensures
        responses_sorted(final(rs)@),
        responses_map(final(rs)@) == responses_map(old(rs)@).insert(r.peer, (r.seqno, r.val)),
        forall|i: int| 0 <= i < final(rs)@.len() ==> final(rs)@[i] == r || old(rs)@.contains(#[trigger] final(rs)@[i]),
{
    let ghost rs0 = rs@;
    let mut i: usize = 0;
    while i < rs.len() && rs[i].peer < r.peer
        invariant
            responses_sorted(rs@),
            rs@ == rs0,
            0 <= i <= rs@.len(),
            forall|j: int| 0 <= j < i ==> rs@[j].peer < r.peer,
        decreases rs@.len() - i,
    {
        i = i + 1;
    }
    if i < rs.len() && rs[i].peer == r.peer {
        rs[i] = r;
        proof {
            assert(rs@ =~= rs0.update(i as int, r));
            lemma_responses_map_update(rs0, i as int, r);
        }
    } else {
        proof {
            // every peer is either left of the spot (smaller) or at or right
            // of it (larger), so none equals the new peer
            assert(forall|j: int| 0 <= j < rs0.len() ==> rs0[j].peer != r.peer) by {
                assert(forall|j: int| i <= j < rs0.len() ==> rs0[i as int].peer <= #[trigger] rs0[j].peer);
            }
            lemma_responses_map_insert(rs0, i as int, r);
        }
        rs.insert(i, r);
    }
}

/// The acknowledgment set as the set of peers in the vector.
pub open spec fn acks_set(s: Seq<ReplicaId>) -> Set<ReplicaId>
    decreases s.len(),
{
    if s.len() == 0 {
        Set::empty()
    } else {
        acks_set(s.drop_last()).insert(s.last())
    }
}

/// Strictly ascending identities: no duplicates, one canonical order.
pub open spec fn acks_sorted(s: Seq<ReplicaId>) -> bool {
    forall|i: int, j: int| 0 <= i < j < s.len() ==> s[i] < s[j]
}

/// Membership in the abstract set is membership in the vector.
pub proof fn lemma_acks_set_contains(s: Seq<ReplicaId>, x: ReplicaId)
    ensures
        acks_set(s).contains(x) <==> exists|i: int| 0 <= i < s.len() && s[i] == x,
    decreases s.len(),
{
    if s.len() > 0 {
        lemma_acks_set_contains(s.drop_last(), x);
        assert(forall|i: int| 0 <= i < s.len() - 1 ==> s.drop_last()[i] == s[i]);
        if acks_set(s).contains(x) {
            if x == s.last() {
                assert(s[s.len() - 1] == x);
            }
        }
    }
}

/// A sorted acknowledgment vector and its abstract set have the same size.
pub proof fn lemma_acks_set_len(s: Seq<ReplicaId>)
    requires
        acks_sorted(s),
    ensures
        acks_set(s).finite(),
        acks_set(s).len() == s.len(),
    decreases s.len(),
{
    if s.len() > 0 {
        let prefix = s.drop_last();
        lemma_acks_set_len(prefix);
        assert(forall|i: int| 0 <= i < prefix.len() ==> prefix[i] == s[i]);
        assert(!acks_set(prefix).contains(s.last())) by {
            lemma_acks_set_contains(prefix, s.last());
            if exists|i: int| 0 <= i < prefix.len() && prefix[i] == s.last() {
                let i = choose|i: int| 0 <= i < prefix.len() && prefix[i] == s.last();
                assert(s[i] < s[s.len() - 1]);
            }
        }
    }
}

/// Whether the peer has already acknowledged.
pub fn acks_contains(s: &Vec<ReplicaId>, x: ReplicaId) -> (r: bool)
    ensures
        r == acks_set(s@).contains(x),
{
    let mut i: usize = 0;
    while i < s.len()
        invariant
            0 <= i <= s@.len(),
            forall|j: int| 0 <= j < i ==> s@[j] != x,
        decreases s@.len() - i,
    {
        if s[i] == x {
            proof {
                lemma_acks_set_contains(s@, x);
            }
            return true;
        }
        i = i + 1;
    }
    proof {
        lemma_acks_set_contains(s@, x);
    }
    false
}

/// Records an acknowledgment, keeping the vector sorted; recording a peer
/// that is already present leaves the vector unchanged.
pub fn acks_insert(s: &mut Vec<ReplicaId>, x: ReplicaId)
    requires
        acks_sorted(old(s)@),
    ensures
        acks_sorted(final(s)@),
        acks_set(final(s)@) == acks_set(old(s)@).insert(x),
    decreases old(s)@.len(),
{
    let ghost s0 = s@;
    let mut i: usize = 0;
    while i < s.len() && s[i] < x
        invariant
            acks_sorted(s@),
            s@ == s0,
            0 <= i <= s@.len(),
            forall|j: int| 0 <= j < i ==> s@[j] < x,
        decreases s@.len() - i,
    {
        i = i + 1;
    }
    if i < s.len() && s[i] == x {
        proof {
            lemma_acks_set_contains(s0, x);
            assert(acks_set(s0) =~= acks_set(s0).insert(x));
        }
    } else {
        proof {
            assert(forall|j: int| 0 <= j < s0.len() ==> s0[j] != x) by {
                assert(forall|j: int| i <= j < s0.len() ==> s0[i as int] <= #[trigger] s0[j]);
            }
            lemma_acks_set_insert(s0, i as int, x);
        }
        s.insert(i, x);
    }
}

/// Inserting an identity the vector does not hold adds it to the abstract set.
proof fn lemma_acks_set_insert(s: Seq<ReplicaId>, i: int, x: ReplicaId)
    requires
        0 <= i <= s.len(),
        forall|j: int| 0 <= j < s.len() ==> s[j] != x,
    ensures
        acks_set(s.insert(i, x)) == acks_set(s).insert(x),
    decreases s.len(),
{
    let ins = s.insert(i, x);
    if i == s.len() {
        assert(ins.drop_last() =~= s);
        assert(ins.last() == x);
    } else {
        assert(ins.last() == s.last());
        assert(ins.drop_last() =~= s.drop_last().insert(i, x));
        lemma_acks_set_insert(s.drop_last(), i, x);
        assert(acks_set(ins) =~= acks_set(s).insert(x));
    }
}

/// A table holding one response represents the one-entry mapping.
pub proof fn lemma_responses_map_singleton(r: Response)
    ensures
        responses_map(seq![r]) == Map::<ReplicaId, (Seqno, Value)>::empty().insert(r.peer, (r.seqno, r.val)),
        responses_sorted(seq![r]),
{
    assert(seq![r].drop_last() =~= Seq::<Response>::empty());
    assert(responses_map(Seq::<Response>::empty()) == Map::<ReplicaId, (Seqno, Value)>::empty());
    assert(seq![r].last() == r);
}

/// A vector holding one identity represents the one-element set.
pub proof fn lemma_acks_set_singleton(x: ReplicaId)
    ensures
        acks_set(seq![x]) == Set::<ReplicaId>::empty().insert(x),
        acks_sorted(seq![x]),
{
    assert(seq![x].drop_last() =~= Seq::<ReplicaId>::empty());
    assert(acks_set(Seq::<ReplicaId>::empty()) == Set::<ReplicaId>::empty());
    assert(seq![x].last() == x);
}

/// `p` holds the best entry of the mapping: its timestamp is maximal, and
/// among entries with that timestamp its identity is greatest. The initial
/// timestamp can be reported by several peers at once, so the identity
/// tie-break is what makes the selection deterministic.
pub open spec fn is_best_peer(m: Map<ReplicaId, (Seqno, Value)>, p: ReplicaId) -> bool {
    &&& m.dom().contains(p)
    &&& forall|q: ReplicaId| #[trigger] m.dom().contains(q) ==>
        (seqno_lt(m[q].0, m[p].0) || (m[q].0 == m[p].0 && q <= p))
}

/// The peer holding the best entry of the mapping.
pub open spec fn best_peer(m: Map<ReplicaId, (Seqno, Value)>) -> ReplicaId {
    choose|p: ReplicaId| is_best_peer(m, p)
}

/// The best entry itself: the maximal-timestamp pair the query phase selects.
pub open spec fn chosen(m: Map<ReplicaId, (Seqno, Value)>) -> (Seqno, Value) {
    m[best_peer(m)]
}

/// Every nonempty finite response mapping has a best entry; selecting the
/// maximum at quorum time is therefore always possible.
pub proof fn lemma_best_exists(m: Map<ReplicaId, (Seqno, Value)>)
    requires
        m.dom().finite(),
        m.dom().len() > 0,
    ensures
        exists|p: ReplicaId| is_best_peer(m, p),
    decreases m.dom().len(),
{
    let p0 = m.dom().choose();
    assert(m.dom().contains(p0));
    if m.dom().len() == 1 {
        assert(m.dom().remove(p0).len() == 0);
        assert(forall|q: ReplicaId| #[trigger] m.dom().contains(q) ==> q == p0) by {
            assert(forall|q: ReplicaId| q != p0 && #[trigger] m.dom().contains(q)
                ==> m.dom().remove(p0).contains(q));
        }
        assert(is_best_peer(m, p0));
    } else {
        let m2 = m.remove(p0);
        assert(m2.dom() =~= m.dom().remove(p0));
        lemma_best_exists(m2);
        let b2 = choose|p: ReplicaId| is_best_peer(m2, p);
        assert(m2.dom().contains(b2));
        assert(m2[b2] == m[b2]);
        if seqno_lt(m2[b2].0, m[p0].0) || (m2[b2].0 == m[p0].0 && b2 <= p0) {
            assert(is_best_peer(m, p0)) by {
                assert(forall|q: ReplicaId| #[trigger] m.dom().contains(q) && q != p0
                    ==> m2.dom().contains(q) && m2[q] == m[q]);
            }
        } else {
            assert(is_best_peer(m, b2)) by {
                assert(forall|q: ReplicaId| #[trigger] m.dom().contains(q) && q != p0
                    ==> m2.dom().contains(q) && m2[q] == m[q]);
            }
        }
    }
}

/// At most one peer holds the best entry, so a witness determines it.
pub proof fn lemma_best_peer_unique(m: Map<ReplicaId, (Seqno, Value)>, p: ReplicaId)
    requires
        is_best_peer(m, p),
    ensures
        best_peer(m) == p,
        chosen(m) == m[p],
{
    let q = best_peer(m);
    assert(is_best_peer(m, q));
    assert(m.dom().contains(p));
    assert(m.dom().contains(q));
}

/// Selects the response with the maximal timestamp, breaking timestamp ties
/// toward the greatest peer identity.
pub fn best_of(rs: &Vec<Response>) -> (b: Response)
    requires
        rs@.len() > 0,
        responses_sorted(rs@),
    ensures
        exists|i: int| 0 <= i < rs@.len() && rs@[i] == b,
        is_best_peer(responses_map(rs@), b.peer),
        responses_map(rs@)[b.peer] == (b.seqno, b.val),
{
    let mut b = rs[0];
    let mut bi: usize = 0;
    let mut i: usize = 1;
    while i < rs.len()
        invariant
            responses_sorted(rs@),
            1 <= i <= rs@.len(),
            bi < i,
            rs@[bi as int] == b,
            forall|j: int| 0 <= j < i ==>
                seqno_lt(#[trigger] rs@[j].seqno, b.seqno) || (rs@[j].seqno == b.seqno && j <= bi),
        decreases rs@.len() - i,
    {
        if !seqno_less(&rs[i].seqno, &b.seqno) {
            b = rs[i];
            bi = i;
        }
        i = i + 1;
    }
    proof {
        let m = responses_map(rs@);
        lemma_responses_map_props(rs@);
        assert forall|q: ReplicaId| #[trigger] m.dom().contains(q) implies
            (seqno_lt(m[q].0, m[b.peer].0) || (m[q].0 == m[b.peer].0 && q <= b.peer)) by {
            let j = choose|j: int| 0 <= j < rs@.len() && rs@[j].peer == q;
            assert(m[q] == (rs@[j].seqno, rs@[j].val));
            assert(seqno_lt(rs@[j].seqno, b.seqno) || (rs@[j].seqno == b.seqno && j <= bi));
            if j < bi as int {
                assert(rs@[j].peer < rs@[bi as int].peer);
            }
        }
        assert(m.dom().contains(rs@[bi as int].peer));
    }
    b
}

} // verus!
