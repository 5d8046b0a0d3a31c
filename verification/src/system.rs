//! A model of the whole cluster: every replica's state and every message
//! ever sent. Messages are never removed, so delivering one twice, late or
//! out of order is already part of the model; the invariant proved here
//! holds under any such schedule.

use vstd::prelude::*;
use crate::msg::{AbdMsg, Envelope, Msg, ReplicaId, RequestId, Value};
use crate::replica::{next_msgs, next_state, phase1_decision, quorum_of, PhaseView, StateView};
use crate::seqno::{seqno_le, seqno_lt, Seqno};
use crate::store::{chosen, is_best_peer, lemma_best_exists, lemma_best_peer_unique};
use crate::laws::lemma_majority_write_visible;
use crate::quorum::spec_majority;

verus! {

/// A message in flight, with the replica or client that sent it.
pub struct Packet {
    pub src: ReplicaId,
    pub dst: ReplicaId,
    pub msg: Msg,
}

/// The cluster: replicas `0` to `n - 1` with their configurations and
/// states, and the set of every message sent so far. The set only grows:
/// a delivered message stays deliverable, which models duplication and
/// reordering by construction.
pub struct SystemView {
    pub n: int,
    pub peers: Map<ReplicaId, Seq<ReplicaId>>,
    pub states: Map<ReplicaId, StateView>,
    pub sent: Set<Packet>,
}

/// The fixed configuration is sane: every replica exists and no replica is
/// its own peer.
pub open spec fn config_wf(s: SystemView) -> bool {
    &&& s.n >= 1
    &&& forall|i: ReplicaId| (i as int) < s.n ==> #[trigger] s.states.dom().contains(i)
    &&& forall|i: ReplicaId| (i as int) < s.n ==> #[trigger] s.peers.dom().contains(i)
    &&& forall|i: ReplicaId| (i as int) < s.n ==> !(#[trigger] s.peers[i]).contains(i)
}

/// The cluster before anything happens: every replica in its boot state,
/// nothing sent.
pub open spec fn initial(s: SystemView) -> bool {
    &&& config_wf(s)
    &&& forall|i: ReplicaId| (i as int) < s.n ==> #[trigger] s.states[i] == StateView::init()
    &&& s.sent == Set::<Packet>::empty()
}

/// A client hands a request to a replica: the request appears on the wire.
pub open spec fn inject(s: SystemView, p: Packet) -> SystemView {
    SystemView { sent: s.sent.insert(p), ..s }
}

/// The injected message is a client request.
pub open spec fn is_client_request(m: Msg) -> bool {
    m matches Msg::Put(_, _) || m matches Msg::Get(_)
}

/// The messages replica `src` sends, as packets.
pub open spec fn packets_from(src: ReplicaId, outs: Seq<Envelope>) -> Set<Packet> {
    Set::new(|q: Packet| q.src == src
        && exists|k: int| 0 <= k < outs.len() && outs[k] == (Envelope { dst: q.dst, msg: q.msg }))
}

/// One sent message reaches its destination, which steps and sends in turn.
pub open spec fn deliver(s: SystemView, p: Packet) -> SystemView {
    let st = s.states[p.dst];
    let st2 = next_state(s.peers[p.dst], p.dst, st, p.src, p.msg);
    let outs = next_msgs(s.peers[p.dst], p.dst, st, p.src, p.msg);
    SystemView {
        states: s.states.insert(p.dst, st2),
        sent: s.sent + packets_from(p.dst, outs),
        ..s
    }
}

/// The delivery is one the model allows: the packet was sent, to a replica.
pub open spec fn can_deliver(s: SystemView, p: Packet) -> bool {
    s.sent.contains(p) && (p.dst as int) < s.n
}

/// The (timestamp, value) pairs a replica state carries: its committed pair
/// and every pair its query phase has collected.
pub open spec fn state_has_pair(st: StateView, t: Seqno, v: Value) -> bool {
    ||| (st.seq == t && st.val == v)
    ||| (st.phase matches Some(PhaseView::Phase1 { responses, .. })
        && exists|q: ReplicaId| #[trigger] responses.dom().contains(q) && responses[q] == (t, v))
}

/// The (timestamp, value) pairs a message carries.
pub open spec fn msg_has_pair(m: Msg, t: Seqno, v: Value) -> bool {
    ||| (m matches Msg::Internal(AbdMsg::AckQuery(_, tt, vv)) && tt == t && vv == v)
    ||| (m matches Msg::Internal(AbdMsg::Replicate(_, tt, vv)) && tt == t && vv == v)
}

/// The pair occurs somewhere in the cluster: at a replica or on the wire.
pub open spec fn present(s: SystemView, t: Seqno, v: Value) -> bool {
    ||| (exists|i: ReplicaId| (i as int) < s.n && #[trigger] state_has_pair(s.states[i], t, v))
    ||| (exists|p: Packet| #[trigger] s.sent.contains(p) && msg_has_pair(p.msg, t, v))
}

/// Timestamp coherence: a timestamp that has been written at all binds one
/// value, wherever its pair occurs.
pub open spec fn coherent(s: SystemView) -> bool {
    forall|t: Seqno, v1: Value, v2: Value|
        t.counter >= 1 && #[trigger] present(s, t, v1) && #[trigger] present(s, t, v2) ==> v1 == v2
}

/// The counter below which replica `w` has issued all its timestamps so
/// far: while a write's query phase is open, the seed the replica put there
/// when the write began; otherwise the replica's committed counter.
pub open spec fn ceiling(st: StateView, w: ReplicaId) -> int {
    match st.phase {
        Some(PhaseView::Phase1 { write, responses, .. }) => {
            if write is Some {
                responses[w].0.counter as int
            } else {
                st.seq.counter as int
            }
        },
        _ => st.seq.counter as int,
    }
}

/// Every timestamp authored by a replica stays at or below that replica's
/// ceiling; a completing write therefore always picks a counter above
/// everything its replica has issued before.
pub open spec fn authorship_bounded(s: SystemView) -> bool {
    forall|t: Seqno, v: Value|
        (t.id as int) < s.n && #[trigger] present(s, t, v)
            ==> t.counter <= ceiling(s.states[t.id], t.id)
}

/// An open query phase holds finitely many reports, among them the
/// replica's own seed, and the seed never runs ahead of the committed pair.
pub open spec fn seeded(st: StateView, i: ReplicaId) -> bool {
    st.phase matches Some(PhaseView::Phase1 { responses, .. })
        ==> (responses.dom().finite()
            && responses.dom().contains(i)
            && seqno_le(responses[i].0, st.seq))
}

/// No query or report travels from a replica to itself: replicas query only
/// their peers and report back only to the querier.
pub open spec fn not_reflexive(p: Packet) -> bool {
    &&& p.msg matches Msg::Internal(AbdMsg::Query(_)) ==> p.src != p.dst
    &&& p.msg matches Msg::Internal(AbdMsg::AckQuery(_, _, _)) ==> p.src != p.dst
}

/// Structural facts the induction leans on.
pub open spec fn plumbing_wf(s: SystemView) -> bool {
    &&& forall|i: ReplicaId| (i as int) < s.n ==> seeded(#[trigger] s.states[i], i)
    &&& forall|p: Packet| #[trigger] s.sent.contains(p) ==> not_reflexive(p)
}

/// Everything the induction maintains.
pub open spec fn inv(s: SystemView) -> bool {
    &&& config_wf(s)
    &&& plumbing_wf(s)
    &&& authorship_bounded(s)
    &&& coherent(s)
}

/// The boot state satisfies the invariant: every pair anywhere is the
/// initial one, whose counter is zero.
pub proof fn lemma_initial_inv(s: SystemView)
    requires
        initial(s),
    ensures
        inv(s),
{
    assert(forall|t: Seqno, v: Value| #[trigger] present(s, t, v) ==> t == Seqno::initial() && t.counter == 0);
}

/// A client request carries no timestamp, so injecting one preserves the
/// invariant.
pub proof fn lemma_inject_inv(s: SystemView, p: Packet)
    requires
        inv(s),
        is_client_request(p.msg),
    ensures
        inv(inject(s, p)),
{
    let s2 = inject(s, p);
    assert forall|t: Seqno, v: Value| #[trigger] present(s2, t, v) implies present(s, t, v) by {
        if exists|q: Packet| #[trigger] s2.sent.contains(q) && msg_has_pair(q.msg, t, v) {
            let q = choose|q: Packet| #[trigger] s2.sent.contains(q) && msg_has_pair(q.msg, t, v);
            assert(s.sent.contains(q));
        }
    }
}

/// The pair a delivery issues, if it completes a write's query phase: the
/// write's fresh timestamp and the written value. Every other pair a step
/// produces is a copy of one already in the cluster.
pub open spec fn issued_on(s: SystemView, p: Packet) -> Option<(Seqno, Value)> {
    let st = s.states[p.dst];
    match p.msg {
        Msg::Internal(AbdMsg::AckQuery(r, qs, qv)) => match st.phase {
            Some(PhaseView::Phase1 { request_id, write, responses, .. }) => {
                if request_id == r && write is Some {
                    let m2 = responses.insert(p.src, (qs, qv));
                    if m2.dom().len() == quorum_of(s.peers[p.dst]) {
                        let d = phase1_decision(p.dst, write, chosen(m2));
                        Some((d.0, d.1))
                    } else {
                        None
                    }
                } else {
                    None
                }
            },
            _ => None,
        },
        _ => None,
    }
}

/// The pair a completing query phase selects was already present: it is one
/// of the collected reports, each of which is an entry the phase held or
/// the report just delivered.
proof fn lemma_chosen_was_present(s: SystemView, p: Packet, r: RequestId, qs: Seqno, qv: Value, responses: Map<ReplicaId, (Seqno, Value)>)
    requires
        inv(s),
        can_deliver(s, p),
        p.msg == Msg::Internal(AbdMsg::AckQuery(r, qs, qv)),
        s.states[p.dst].phase matches Some(PhaseView::Phase1 { responses: resp0, .. }) && resp0 == responses,
    ensures
        present(s, chosen(responses.insert(p.src, (qs, qv))).0, chosen(responses.insert(p.src, (qs, qv))).1),
{
    let m2 = responses.insert(p.src, (qs, qv));
    assert(seeded(s.states[p.dst], p.dst));
    assert(m2.dom() =~= responses.dom().insert(p.src));
    assert(m2.dom().len() >= 1);
    lemma_best_exists(m2);
    let b = choose|q: ReplicaId| is_best_peer(m2, q);
    lemma_best_peer_unique(m2, b);
    if b == p.src {
        assert(msg_has_pair(p.msg, m2[b].0, m2[b].1));
    } else {
        assert(responses.dom().contains(b) && responses[b] == m2[b]);
        assert(state_has_pair(s.states[p.dst], m2[b].0, m2[b].1));
        assert((p.dst as int) < s.n);
    }
}

/// Every pair the stepped replica's new state carries was present before
/// the delivery, or is the issued pair.
proof fn lemma_state_pair_trace(s: SystemView, p: Packet, t: Seqno, v: Value)
    requires
        inv(s),
        can_deliver(s, p),
        state_has_pair(next_state(s.peers[p.dst], p.dst, s.states[p.dst], p.src, p.msg), t, v),
    ensures
        present(s, t, v) || issued_on(s, p) == Some((t, v)),
{
    let w = p.dst;
    let st = s.states[w];
    let st2 = next_state(s.peers[w], w, st, p.src, p.msg);
    assert((w as int) < s.n);
    match p.msg {
        Msg::Put(_, _) | Msg::Get(_) => {
            if st.phase is None {
                if st2.seq == t && st2.val == v {
                    assert(state_has_pair(st, t, v));
                } else {
                    let seeded_map = Map::<ReplicaId, (Seqno, Value)>::empty().insert(w, (st.seq, st.val));
                    let q = choose|q: ReplicaId| #[trigger] seeded_map.dom().contains(q) && seeded_map[q] == (t, v);
                    assert(q == w);
                    assert(state_has_pair(st, t, v));
                }
            } else {
                assert(state_has_pair(st, t, v));
            }
            assert(present(s, t, v));
        },
        Msg::PutOk(_) | Msg::GetOk(_, _) | Msg::Internal(AbdMsg::Query(_)) => {
            assert(state_has_pair(st, t, v));
            assert(present(s, t, v));
        },
        Msg::Internal(AbdMsg::AckQuery(r, qs, qv)) => {
            match st.phase {
                Some(PhaseView::Phase1 { request_id, requester_id, write, responses }) => {
                    if request_id == r {
                        let m2 = responses.insert(p.src, (qs, qv));
                        if m2.dom().len() == quorum_of(s.peers[w]) {
                            // the phase completes: the new state holds the
                            // old committed pair or the decision; the new
                            // phase tracks no pairs
                            let d = phase1_decision(w, write, chosen(m2));
                            assert(st2.seq == t && st2.val == v);
                            if st.seq == t && st.val == v {
                                assert(state_has_pair(st, t, v));
                                assert(present(s, t, v));
                            } else {
                                assert(d.0 == t && d.1 == v);
                                if write is Some {
                                    assert(issued_on(s, p) == Some((t, v)));
                                } else {
                                    lemma_chosen_was_present(s, p, r, qs, qv, responses);
                                }
                            }
                        } else {
                            if st2.seq == t && st2.val == v {
                                assert(state_has_pair(st, t, v));
                                assert(present(s, t, v));
                            } else {
                                let q = choose|q: ReplicaId| #[trigger] m2.dom().contains(q) && m2[q] == (t, v);
                                if q == p.src {
                                    assert(msg_has_pair(p.msg, t, v));
                                    assert(present(s, t, v));
                                } else {
                                    assert(responses.dom().contains(q) && responses[q] == (t, v));
                                    assert(state_has_pair(st, t, v));
                                    assert(present(s, t, v));
                                }
                            }
                        }
                    } else {
                        assert(state_has_pair(st, t, v));
                        assert(present(s, t, v));
                    }
                },
                _ => {
                    assert(state_has_pair(st, t, v));
                    assert(present(s, t, v));
                },
            }
        },
        Msg::Internal(AbdMsg::Replicate(_, rs, rv)) => {
            if st2.seq == t && st2.val == v {
                if st.seq == t && st.val == v {
                    assert(state_has_pair(st, t, v));
                } else {
                    assert(rs == t && rv == v);
                    assert(msg_has_pair(p.msg, t, v));
                }
            } else {
                assert(state_has_pair(st, t, v));
            }
            assert(present(s, t, v));
        },
        Msg::Internal(AbdMsg::AckReplicate(_)) => {
            assert(state_has_pair(st, t, v));
            assert(present(s, t, v));
        },
    }
}

/// Every pair in a message a step sends was present before the delivery, or
/// is the issued pair.
proof fn lemma_out_pair_trace(s: SystemView, p: Packet, k: int, t: Seqno, v: Value)
    requires
        inv(s),
        can_deliver(s, p),
        0 <= k < next_msgs(s.peers[p.dst], p.dst, s.states[p.dst], p.src, p.msg).len(),
        msg_has_pair(next_msgs(s.peers[p.dst], p.dst, s.states[p.dst], p.src, p.msg)[k].msg, t, v),
    ensures
        present(s, t, v) || issued_on(s, p) == Some((t, v)),
{
    let w = p.dst;
    let st = s.states[w];
    let outs = next_msgs(s.peers[w], w, st, p.src, p.msg);
    assert((w as int) < s.n);
    match p.msg {
        Msg::Internal(AbdMsg::Query(_)) => {
            // the answer carries the committed pair
            assert(state_has_pair(st, t, v));
            assert(present(s, t, v));
        },
        Msg::Internal(AbdMsg::AckQuery(r, qs, qv)) => {
            match st.phase {
                Some(PhaseView::Phase1 { request_id, requester_id, write, responses }) => {
                    if request_id == r {
                        let m2 = responses.insert(p.src, (qs, qv));
                        if m2.dom().len() == quorum_of(s.peers[w]) {
                            // the replicate fan-out carries the decision
                            let d = phase1_decision(w, write, chosen(m2));
                            assert(t == d.0 && v == d.1);
                            if write is Some {
                                assert(issued_on(s, p) == Some((t, v)));
                            } else {
                                lemma_chosen_was_present(s, p, r, qs, qv, responses);
                            }
                        } else {
                            assert(false);
                        }
                    } else {
                        assert(false);
                    }
                },
                _ => {
                    assert(false);
                },
            }
        },
        _ => {
            // queries, acknowledgments and client answers carry no pair
            assert(false);
        },
    }
}

/// A write's issued timestamp is fresh: unless its counter wrapped to zero,
/// no pair anywhere in the cluster carries it, because every timestamp its
/// author issued before stays at or below the author's ceiling, which lies
/// strictly below the new one.
proof fn lemma_issue_fresh(s: SystemView, p: Packet, t: Seqno, iv: Value)
    requires
        inv(s),
        can_deliver(s, p),
        issued_on(s, p) == Some((t, iv)),
        t.counter >= 1,
    ensures
        t.id == p.dst,
        t.counter > ceiling(s.states[p.dst], p.dst),
        forall|v: Value| !present(s, t, v),
{
    let w = p.dst;
    let st = s.states[w];
    assert((w as int) < s.n);
    assert(seeded(st, w));
    assert(not_reflexive(p));
    if let Msg::Internal(AbdMsg::AckQuery(r, qs, qv)) = p.msg {
        if let Some(PhaseView::Phase1 { request_id, write, responses, .. }) = st.phase {
            let m2 = responses.insert(p.src, (qs, qv));
            assert(m2.dom() =~= responses.dom().insert(p.src));
            lemma_best_exists(m2);
            let b = choose|q: ReplicaId| is_best_peer(m2, q);
            lemma_best_peer_unique(m2, b);
            // the seed survives the insert: the report cannot come from the
            // replica itself
            assert(p.src != w);
            assert(m2.dom().contains(w) && m2[w] == responses[w]);
            // the chosen timestamp is at least the seed, and the issued
            // counter is one above the chosen one
            assert(m2[w].0.counter <= m2[b].0.counter);
            let c = chosen(m2).0.counter;
            assert(t.counter == ((c + 1) as u64));
            if c == u64::MAX {
                assert((c + 1) as u64 == 0) by (bit_vector)
                    requires c == u64::MAX;
                assert(false);
            }
            assert(t.counter == c + 1);
            assert forall|v: Value| !present(s, t, v) by {
                if present(s, t, v) {
                    assert(t.counter <= ceiling(st, w));
                }
            }
        }
    }
}

/// A step never lowers the stepped replica's ceiling, and an issued
/// timestamp lands at or below the new ceiling.
proof fn lemma_ceiling_step(s: SystemView, p: Packet)
    requires
        inv(s),
        can_deliver(s, p),
    ensures
        ceiling(next_state(s.peers[p.dst], p.dst, s.states[p.dst], p.src, p.msg), p.dst)
            >= ceiling(s.states[p.dst], p.dst),
        issued_on(s, p) matches Some(pr)
            ==> pr.0.counter <= ceiling(next_state(s.peers[p.dst], p.dst, s.states[p.dst], p.src, p.msg), p.dst),
{
    let w = p.dst;
    let st = s.states[w];
    let st2 = next_state(s.peers[w], w, st, p.src, p.msg);
    assert((w as int) < s.n);
    assert(seeded(st, w));
    assert(not_reflexive(p));
    match p.msg {
        Msg::Internal(AbdMsg::AckQuery(r, qs, qv)) => {
            match st.phase {
                Some(PhaseView::Phase1 { request_id, requester_id, write, responses }) => {
                    if request_id == r {
                        let m2 = responses.insert(p.src, (qs, qv));
                        assert(p.src != w);
                        assert(m2.dom().contains(w) && m2[w] == responses[w]);
                        if m2.dom().len() == quorum_of(s.peers[w]) {
                            assert(m2.dom() =~= responses.dom().insert(p.src));
                            lemma_best_exists(m2);
                            let b = choose|q: ReplicaId| is_best_peer(m2, q);
                            lemma_best_peer_unique(m2, b);
                            assert(m2[w].0.counter <= m2[b].0.counter);
                        }
                    }
                },
                _ => {},
            }
        },
        _ => {},
    }
}

/// A step keeps the stepped replica seeded: a fresh query phase seeds
/// itself, reports from peers never displace the seed, and the committed
/// pair only moves up.
proof fn lemma_seeded_step(s: SystemView, p: Packet)
    requires
        inv(s),
        can_deliver(s, p),
    ensures
        seeded(next_state(s.peers[p.dst], p.dst, s.states[p.dst], p.src, p.msg), p.dst),
{
    let w = p.dst;
    let st = s.states[w];
    let st2 = next_state(s.peers[w], w, st, p.src, p.msg);
    assert((w as int) < s.n);
    assert(seeded(st, w));
    assert(not_reflexive(p));
    match p.msg {
        Msg::Put(_, _) | Msg::Get(_) => {
            if st.phase is None {
                let seeded_map = Map::<ReplicaId, (Seqno, Value)>::empty().insert(w, (st.seq, st.val));
                assert(seeded_map.dom() =~= Set::<ReplicaId>::empty().insert(w));
            }
        },
        Msg::Internal(AbdMsg::AckQuery(r, qs, qv)) => {
            match st.phase {
                Some(PhaseView::Phase1 { request_id, requester_id, write, responses }) => {
                    if request_id == r {
                        let m2 = responses.insert(p.src, (qs, qv));
                        assert(p.src != w);
                        assert(m2.dom() =~= responses.dom().insert(p.src));
                        assert(m2.dom().contains(w) && m2[w] == responses[w]);
                    }
                },
                _ => {},
            }
        },
        _ => {},
    }
}

/// Delivering any sent message preserves the invariant.
pub proof fn lemma_deliver_inv(s: SystemView, p: Packet)
    requires
        inv(s),
        can_deliver(s, p),
    ensures
        inv(deliver(s, p)),
{
    let w = p.dst;
    let st = s.states[w];
    let st2 = next_state(s.peers[w], w, st, p.src, p.msg);
    let outs = next_msgs(s.peers[w], w, st, p.src, p.msg);
    let s2 = deliver(s, p);
    assert((w as int) < s.n);
    assert(not_reflexive(p));
    assert(seeded(st, w));

    // every pair present after the step traces to one present before, or to
    // the freshly issued pair
    assert forall|t: Seqno, v: Value| #[trigger] present(s2, t, v)
        implies present(s, t, v) || issued_on(s, p) == Some((t, v)) by {
        if exists|i: ReplicaId| (i as int) < s2.n && #[trigger] state_has_pair(s2.states[i], t, v) {
            let i = choose|i: ReplicaId| (i as int) < s2.n && #[trigger] state_has_pair(s2.states[i], t, v);
            if i == w {
                lemma_state_pair_trace(s, p, t, v);
            } else {
                assert(s2.states[i] == s.states[i]);
                assert(present(s, t, v));
            }
        } else {
            let q = choose|q: Packet| #[trigger] s2.sent.contains(q) && msg_has_pair(q.msg, t, v);
            if s.sent.contains(q) {
                assert(present(s, t, v));
            } else {
                assert(packets_from(w, outs).contains(q));
                let k = choose|k: int| 0 <= k < outs.len() && outs[k] == (Envelope { dst: q.dst, msg: q.msg });
                lemma_out_pair_trace(s, p, k, t, v);
            }
        }
    }

    // the configuration does not change
    assert(config_wf(s2));

    // the stepped replica stays seeded; the others are untouched
    lemma_seeded_step(s, p);
    assert forall|i: ReplicaId| (i as int) < s2.n implies seeded(#[trigger] s2.states[i], i) by {
        if i != w {
            assert(s2.states[i] == s.states[i]);
        }
    }

    // new queries go to peers and new reports go back to the querier, so
    // none of them is reflexive
    assert forall|q: Packet| #[trigger] s2.sent.contains(q) implies not_reflexive(q) by {
        if !s.sent.contains(q) {
            assert(packets_from(w, outs).contains(q));
            let k = choose|k: int| 0 <= k < outs.len() && outs[k] == (Envelope { dst: q.dst, msg: q.msg });
            match p.msg {
                Msg::Put(_, _) | Msg::Get(_) => {
                    if st.phase is None {
                        if q.dst == w {
                            assert(s.peers[w][k] == w);
                            assert(s.peers[w].contains(w));
                            assert(false);
                        }
                    }
                },
                Msg::Internal(AbdMsg::Query(_)) => {
                    assert(q.dst == p.src && q.src == w);
                },
                _ => {},
            }
        }
    }

    // authorship bounds: old pairs stay below the (never lowered) ceiling,
    // and the issued pair lands below the new one
    lemma_ceiling_step(s, p);
    assert forall|t: Seqno, v: Value| (t.id as int) < s2.n && #[trigger] present(s2, t, v)
        implies t.counter <= ceiling(s2.states[t.id], t.id) by {
        if present(s, t, v) {
            if t.id != w {
                assert(s2.states[t.id] == s.states[t.id]);
            }
        } else {
            assert(issued_on(s, p) == Some((t, v)));
            assert(t.id == w);
        }
    }

    // coherence: two pairs with one timestamp are both old, or both the
    // issued pair; a fresh issue cannot collide with an old pair
    assert forall|t: Seqno, v1: Value, v2: Value|
        t.counter >= 1 && #[trigger] present(s2, t, v1) && #[trigger] present(s2, t, v2)
        implies v1 == v2 by {
        if present(s, t, v1) && present(s, t, v2) {
        } else if !present(s, t, v1) && !present(s, t, v2) {
            assert(issued_on(s, p) == Some((t, v1)));
            assert(issued_on(s, p) == Some((t, v2)));
        } else if !present(s, t, v1) {
            assert(issued_on(s, p) == Some((t, v1)));
            lemma_issue_fresh(s, p, t, v1);
            assert(false);
        } else {
            assert(issued_on(s, p) == Some((t, v2)));
            lemma_issue_fresh(s, p, t, v2);
            assert(false);
        }
    }
}

/// One step of the cluster: a client injects a request, or a sent message
/// is delivered.
pub open spec fn step(s: SystemView, s2: SystemView) -> bool {
    ||| (exists|p: Packet| is_client_request(p.msg) && s2 == #[trigger] inject(s, p))
    ||| (exists|p: Packet| can_deliver(s, p) && s2 == #[trigger] deliver(s, p))
}

/// A run of the cluster: a boot state followed by any number of steps.
pub open spec fn is_run(tr: Seq<SystemView>) -> bool {
    &&& tr.len() >= 1
    &&& initial(tr[0])
    &&& forall|k: int| 0 <= k < tr.len() - 1 ==> step(#[trigger] tr[k], tr[k + 1])
}

/// The invariant holds at every point of every run.
pub proof fn lemma_run_inv(tr: Seq<SystemView>, k: int)
    requires
        is_run(tr),
        0 <= k < tr.len(),
    ensures
        inv(tr[k]),
    decreases k,
{
    if k == 0 {
        lemma_initial_inv(tr[0]);
    } else {
        lemma_run_inv(tr, k - 1);
        assert(step(tr[k - 1], tr[k]));
        if exists|p: Packet| is_client_request(p.msg) && tr[k] == #[trigger] inject(tr[k - 1], p) {
            let p = choose|p: Packet| is_client_request(p.msg) && tr[k] == #[trigger] inject(tr[k - 1], p);
            lemma_inject_inv(tr[k - 1], p);
        } else {
            let p = choose|p: Packet| can_deliver(tr[k - 1], p) && tr[k] == #[trigger] deliver(tr[k - 1], p);
            lemma_deliver_inv(tr[k - 1], p);
        }
    }
}

/// Timestamp coherence, for whole runs of the cluster under arbitrary
/// reordering, duplication and loss: wherever a written timestamp's pair
/// occurs -- committed at a replica, collected in a query phase, or on the
/// wire -- it carries one single value. Writes are therefore totally
/// ordered by their timestamps, and every replica that reports the best
/// timestamp of a read's quorum reports the written value with it.
pub proof fn theorem_timestamp_coherence(tr: Seq<SystemView>, k: int, t: Seqno, v1: Value, v2: Value)
    requires
        is_run(tr),
        0 <= k < tr.len(),
        t.counter >= 1,
        present(tr[k], t, v1),
        present(tr[k], t, v2),
    ensures
        v1 == v2,
{
    lemma_run_inv(tr, k);
}

/// The visibility law, grounded in the run model: in a reachable cluster
/// state, once a write's pair has propagated to a majority, a query phase
/// that collects reports of current holdings from a majority selects a
/// timestamp at least as new -- and if it selects exactly the write's
/// timestamp, it selects the write's value, because coherence leaves that
/// timestamp no other value to travel with.
pub proof fn theorem_read_observes_majority_write(
    tr: Seq<SystemView>,
    k: int,
    wseq: Seqno,
    wval: Value,
    holds: Map<ReplicaId, (Seqno, Value)>,
    carriers: Set<ReplicaId>,
    m: Map<ReplicaId, (Seqno, Value)>,
)
    requires
        is_run(tr),
        0 <= k < tr.len(),
        wseq.counter >= 1,
        present(tr[k], wseq, wval),
        carriers.finite(),
        carriers.len() >= spec_majority(tr[k].n),
        forall|q: ReplicaId| #[trigger] carriers.contains(q)
            ==> (q as int) < tr[k].n && holds.dom().contains(q) && seqno_le(wseq, holds[q].0),
        m.dom().finite(),
        m.dom().len() >= spec_majority(tr[k].n),
        forall|q: ReplicaId| #[trigger] m.dom().contains(q)
            ==> (q as int) < tr[k].n && holds.dom().contains(q) && m[q] == holds[q],
        forall|q: ReplicaId| #[trigger] m.dom().contains(q) ==> present(tr[k], m[q].0, m[q].1),
    ensures
        seqno_le(wseq, chosen(m).0),
        chosen(m).0 == wseq ==> chosen(m).1 == wval,
{
    lemma_run_inv(tr, k);
    assert forall|q: ReplicaId| #[trigger] m.dom().contains(q) && m[q].0 == wseq
        implies m[q].1 == wval by {
        theorem_timestamp_coherence(tr, k, wseq, m[q].1, wval);
    }
    lemma_majority_write_visible(tr[k].n, wseq, wval, holds, carriers, m);
}

/// A replica's ceiling never goes down over a run, and the cluster size
/// never changes.
proof fn lemma_ceiling_run_monotone(tr: Seq<SystemView>, w: ReplicaId, k1: int, k2: int)
    requires
        is_run(tr),
        0 <= k1 <= k2 < tr.len(),
        (w as int) < tr[k1].n,
    ensures
        ceiling(tr[k1].states[w], w) <= ceiling(tr[k2].states[w], w),
        tr[k2].n == tr[k1].n,
    decreases k2 - k1,
{
    if k2 > k1 {
        lemma_ceiling_run_monotone(tr, w, k1, k2 - 1);
        lemma_run_inv(tr, k2 - 1);
        assert(step(tr[k2 - 1], tr[k2]));
        if exists|p: Packet| is_client_request(p.msg) && tr[k2] == #[trigger] inject(tr[k2 - 1], p) {
            let p = choose|p: Packet| is_client_request(p.msg) && tr[k2] == #[trigger] inject(tr[k2 - 1], p);
            assert(tr[k2].states == tr[k2 - 1].states);
        } else {
            let p = choose|p: Packet| can_deliver(tr[k2 - 1], p) && tr[k2] == #[trigger] deliver(tr[k2 - 1], p);
            if p.dst == w {
                lemma_ceiling_step(tr[k2 - 1], p);
            } else {
                assert(tr[k2].states[w] == tr[k2 - 1].states[w]);
            }
        }
    }
}

/// Total order of completed writes, for whole runs: any two write
/// completions issue distinct timestamps, strictly ordered one way or the
/// other; and two completions by the same replica are ordered by time. A
/// write completion is the delivery of the query-phase report that brings
/// the write's quorum to a majority.
pub proof fn theorem_write_timestamps_ordered(
    tr: Seq<SystemView>,
    k1: int,
    p1: Packet,
    t1: Seqno,
    v1: Value,
    k2: int,
    p2: Packet,
    t2: Seqno,
    v2: Value,
)
    requires
        is_run(tr),
        0 <= k1 < k2,
        k2 + 1 < tr.len(),
        can_deliver(tr[k1], p1),
        tr[k1 + 1] == deliver(tr[k1], p1),
        issued_on(tr[k1], p1) == Some((t1, v1)),
        can_deliver(tr[k2], p2),
        tr[k2 + 1] == deliver(tr[k2], p2),
        issued_on(tr[k2], p2) == Some((t2, v2)),
        t1.counter >= 1,
        t2.counter >= 1,
    ensures
        t1 != t2,
        seqno_lt(t1, t2) || seqno_lt(t2, t1),
        t1.id == t2.id ==> seqno_lt(t1, t2),
{
    lemma_run_inv(tr, k1);
    lemma_run_inv(tr, k2);
    lemma_issue_fresh(tr[k1], p1, t1, v1);
    lemma_issue_fresh(tr[k2], p2, t2, v2);
    if t1.id == t2.id {
        let w = t1.id;
        // after the first completion, the writer's ceiling covers the first
        // timestamp...
        lemma_ceiling_step(tr[k1], p1);
        assert(tr[k1 + 1].states[w] == next_state(tr[k1].peers[w], w, tr[k1].states[w], p1.src, p1.msg));
        assert(t1.counter <= ceiling(tr[k1 + 1].states[w], w));
        // ...the ceiling never goes down until the second completes...
        assert(tr[k1 + 1].n == tr[k1].n);
        lemma_ceiling_run_monotone(tr, w, k1 + 1, k2);
        // ...and the second completion issues strictly above its ceiling
        assert(t2.counter > ceiling(tr[k2].states[w], w));
    }
}

} // verus!
