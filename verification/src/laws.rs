//! The protocol-level laws of the replica state machine, stated and proved
//! over the transition relation `next_state` / `next_msgs`.

use vstd::prelude::*;
use crate::msg::{AbdMsg, Envelope, Msg, ReplicaId, RequestId, Value};
use crate::quorum::{lemma_majorities_exceed, lemma_quorum_overlap, spec_majority};
use crate::replica::{
    ack_query_events, ack_replicate_events, lemma_next_state_monotone, next_msgs, next_state,
    phase1_decision, quorum_of, run_state, PhaseView, StateView,
};
use crate::seqno::{lemma_seqno_order_transitive, seqno_le, seqno_lt, Seqno};
use crate::store::{chosen, is_best_peer, lemma_best_exists, lemma_best_peer_unique};

verus! {

/// Sequence monotonicity: over any run of deliveries, the committed
/// timestamp a replica holds never decreases.
pub proof fn lemma_run_monotone(peers: Seq<ReplicaId>, id: ReplicaId, st: StateView, events: Seq<(ReplicaId, Msg)>)
    ensures
        seqno_le(st.seq, run_state(peers, id, st, events).seq),
    decreases events.len(),
{
    if events.len() > 0 {
        let st1 = next_state(peers, id, st, events.first().0, events.first().1);
        lemma_next_state_monotone(peers, id, st, events.first().0, events.first().1);
        lemma_run_monotone(peers, id, st1, events.drop_first());
        lemma_seqno_order_transitive(st.seq, st1.seq, run_state(peers, id, st1, events.drop_first()).seq);
    }
}

/// A replicate whose timestamp the replica already holds, or better, leaves
/// the state unchanged; only the acknowledgment is sent back.
pub proof fn lemma_stale_replicate_no_op(peers: Seq<ReplicaId>, id: ReplicaId, st: StateView, src: ReplicaId, r: RequestId, s: Seqno, v: Value)
    requires
        seqno_le(s, st.seq),
    ensures
        next_state(peers, id, st, src, Msg::Internal(AbdMsg::Replicate(r, s, v))) == st,
{
}

/// Duplicate tolerance, replicate phase: redelivering a replicate after it
/// has been applied is a no-op, because the first delivery raised the
/// committed timestamp to at least the replicate's; only the acknowledgment
/// is sent again.
pub proof fn lemma_replicate_redelivery_harmless(peers: Seq<ReplicaId>, id: ReplicaId, st: StateView, src1: ReplicaId, src2: ReplicaId, r: RequestId, s: Seqno, v: Value)
    ensures
        ({
            let st1 = next_state(peers, id, st, src1, Msg::Internal(AbdMsg::Replicate(r, s, v)));
            next_state(peers, id, st1, src2, Msg::Internal(AbdMsg::Replicate(r, s, v))) == st1
        }),
{
}

/// Duplicate tolerance, acknowledgment counting: an acknowledgment from a
/// peer already counted, or one that matches no active replicate phase, is
/// dropped: no state change, no reply, no effect on the quorum count.
pub proof fn lemma_duplicate_ack_replicate_dropped(peers: Seq<ReplicaId>, id: ReplicaId, st: StateView, src: ReplicaId, r: RequestId)
    requires
        match st.phase {
            Some(PhaseView::Phase2 { request_id, acks, .. }) => request_id != r || acks.contains(src),
            _ => true,
        },
    ensures
        next_state(peers, id, st, src, Msg::Internal(AbdMsg::AckReplicate(r))) == st,
        next_msgs(peers, id, st, src, Msg::Internal(AbdMsg::AckReplicate(r))) == Seq::<Envelope>::empty(),
{
}

/// Total order of writes, assignment: a write's chosen timestamp strictly
/// exceeds every timestamp its query phase observed, and carries the
/// writer's identity.
pub proof fn lemma_write_decision_exceeds(id: ReplicaId, w: Value, m: Map<ReplicaId, (Seqno, Value)>)
    requires
        m.dom().finite(),
        m.dom().len() > 0,
        forall|p: ReplicaId| #[trigger] m.dom().contains(p) ==> m[p].0.counter < u64::MAX,
    ensures
        forall|p: ReplicaId| #[trigger] m.dom().contains(p) ==> seqno_lt(m[p].0, phase1_decision(id, Some(w), chosen(m)).0),
        phase1_decision(id, Some(w), chosen(m)).0.id == id,
{
    lemma_best_exists(m);
    let b = choose|p: ReplicaId| is_best_peer(m, p);
    lemma_best_peer_unique(m, b);
}

/// Total order of writes, distinctness: writes completed by different
/// replicas carry different identities, so their timestamps are distinct and
/// strictly ordered one way or the other.
pub proof fn lemma_write_decisions_ordered(id1: ReplicaId, w1: Value, m1: Map<ReplicaId, (Seqno, Value)>, id2: ReplicaId, w2: Value, m2: Map<ReplicaId, (Seqno, Value)>)
    requires
        id1 != id2,
    ensures
        ({
            let a = phase1_decision(id1, Some(w1), chosen(m1)).0;
            let b = phase1_decision(id2, Some(w2), chosen(m2)).0;
            a != b && (seqno_lt(a, b) || seqno_lt(b, a))
        }),
{
}

/// Total order of writes, same writer: a write whose query phase observes an
/// earlier timestamp is ordered strictly after it. Two successive writes by
/// one replica are the special case: the second query phase always holds the
/// replica's own committed pair, which is at least the first write's.
pub proof fn lemma_later_write_exceeds(id: ReplicaId, w: Value, m: Map<ReplicaId, (Seqno, Value)>, earlier: Seqno)
    requires
        m.dom().finite(),
        m.dom().len() > 0,
        forall|p: ReplicaId| #[trigger] m.dom().contains(p) ==> m[p].0.counter < u64::MAX,
        exists|p: ReplicaId| #[trigger] m.dom().contains(p) && seqno_le(earlier, m[p].0),
    ensures
        seqno_lt(earlier, phase1_decision(id, Some(w), chosen(m)).0),
{
    lemma_write_decision_exceeds(id, w, m);
    let p = choose|p: ReplicaId| #[trigger] m.dom().contains(p) && seqno_le(earlier, m[p].0);
    lemma_seqno_order_transitive(earlier, m[p].0, phase1_decision(id, Some(w), chosen(m)).0);
}

/// Total order of writes, visibility: once a majority of replicas hold a
/// write's timestamp or better, any query phase that collects reports of
/// current holdings from a majority selects a timestamp at least as new --
/// and if it selects exactly the write's timestamp, it selects the write's
/// value. The two majorities must overlap, and the overlap member reports a
/// pair at least as new as the write's.
pub proof fn lemma_majority_write_visible(
    n: int,
    wseq: Seqno,
    wval: Value,
    holds: Map<ReplicaId, (Seqno, Value)>,
    carriers: Set<ReplicaId>,
    m: Map<ReplicaId, (Seqno, Value)>,
)
    requires
        n >= 1,
        carriers.finite(),
        carriers.len() >= spec_majority(n),
        forall|p: ReplicaId| #[trigger] carriers.contains(p) ==> (p as int) < n && holds.dom().contains(p) && seqno_le(wseq, holds[p].0),
        m.dom().finite(),
        m.dom().len() >= spec_majority(n),
        forall|p: ReplicaId| #[trigger] m.dom().contains(p) ==> (p as int) < n && holds.dom().contains(p) && m[p] == holds[p],
        forall|p: ReplicaId| #[trigger] m.dom().contains(p) && m[p].0 == wseq ==> m[p].1 == wval,
    ensures
        seqno_le(wseq, chosen(m).0),
        chosen(m).0 == wseq ==> chosen(m).1 == wval,
{
    lemma_majorities_exceed(n, carriers.len() as int, m.dom().len() as int);
    lemma_quorum_overlap(n, carriers, m.dom());
    let p = choose|p: ReplicaId| carriers.contains(p) && m.dom().contains(p);
    lemma_best_exists(m);
    let b = choose|q: ReplicaId| is_best_peer(m, q);
    lemma_best_peer_unique(m, b);
    assert(seqno_le(m[p].0, m[b].0));
    lemma_seqno_order_transitive(wseq, m[p].0, m[b].0);
}

/// Quorum availability, query phase: an idle majority suffices. From an
/// active query phase, delivering reports from fresh, distinct peers that
/// bring the count to the majority always reaches the replicate phase --
/// whatever the reported pairs are.
pub proof fn lemma_query_phase_progress(
    peers: Seq<ReplicaId>,
    id: ReplicaId,
    st: StateView,
    r: RequestId,
    reqr: ReplicaId,
    write: Option<Value>,
    resp: Map<ReplicaId, (Seqno, Value)>,
    reports: Seq<(ReplicaId, Seqno, Value)>,
)
    requires
        st.phase == Some(PhaseView::Phase1 { request_id: r, requester_id: reqr, write: write, responses: resp }),
        resp.dom().finite(),
        resp.dom().len() + reports.len() == quorum_of(peers),
        reports.len() >= 1,
        forall|i: int, j: int| 0 <= i < j < reports.len() ==> reports[i].0 != reports[j].0,
        forall|i: int| 0 <= i < reports.len() ==> !resp.dom().contains(#[trigger] reports[i].0),
    ensures
        run_state(peers, id, st, ack_query_events(r, reports)).phase matches Some(PhaseView::Phase2 { request_id, requester_id, .. })
            && request_id == r && requester_id == reqr,
    decreases reports.len(),
{
    let events = ack_query_events(r, reports);
    let e0 = reports[0];
    let st1 = next_state(peers, id, st, e0.0, Msg::Internal(AbdMsg::AckQuery(r, e0.1, e0.2)));
    assert(events.first() == (e0.0, Msg::Internal(AbdMsg::AckQuery(r, e0.1, e0.2))));
    let resp2 = resp.insert(e0.0, (e0.1, e0.2));
    assert(resp2.dom() =~= resp.dom().insert(e0.0));
    assert(resp2.dom().len() == resp.dom().len() + 1);
    assert(events.drop_first() =~= ack_query_events(r, reports.drop_first()));
    if reports.len() == 1 {
        assert(resp2.dom().len() == quorum_of(peers));
        assert(run_state(peers, id, st1, events.drop_first()) == st1);
    } else {
        assert(resp2.dom().len() < quorum_of(peers));
        assert(st1.phase == Some(PhaseView::Phase1 { request_id: r, requester_id: reqr, write: write, responses: resp2 }));
        assert(forall|i: int| 0 <= i < reports.drop_first().len() ==> reports.drop_first()[i] == reports[i + 1]);
        lemma_query_phase_progress(peers, id, st1, r, reqr, write, resp2, reports.drop_first());
    }
}

/// Quorum availability, replicate phase: from an active replicate phase,
/// delivering acknowledgments from fresh, distinct peers that bring the
/// count to the majority always completes the operation and frees the
/// replica.
pub proof fn lemma_replicate_phase_progress(
    peers: Seq<ReplicaId>,
    id: ReplicaId,
    st: StateView,
    r: RequestId,
    reqr: ReplicaId,
    read: Option<Value>,
    acks: Set<ReplicaId>,
    senders: Seq<ReplicaId>,
)
    requires
        st.phase == Some(PhaseView::Phase2 { request_id: r, requester_id: reqr, read: read, acks: acks }),
        acks.finite(),
        acks.len() + senders.len() == quorum_of(peers),
        senders.len() >= 1,
        forall|i: int, j: int| 0 <= i < j < senders.len() ==> senders[i] != senders[j],
        forall|i: int| 0 <= i < senders.len() ==> !acks.contains(#[trigger] senders[i]),
    ensures
        run_state(peers, id, st, ack_replicate_events(r, senders)).phase is None,
    decreases senders.len(),
{
    let events = ack_replicate_events(r, senders);
    let s0 = senders[0];
    let st1 = next_state(peers, id, st, s0, Msg::Internal(AbdMsg::AckReplicate(r)));
    assert(events.first() == (s0, Msg::Internal(AbdMsg::AckReplicate(r))));
    let acks2 = acks.insert(s0);
    assert(acks2.len() == acks.len() + 1);
    assert(events.drop_first() =~= ack_replicate_events(r, senders.drop_first()));
    if senders.len() == 1 {
        assert(acks2.len() == quorum_of(peers));
        assert(st1.phase is None);
        assert(run_state(peers, id, st1, events.drop_first()) == st1);
    } else {
        assert(acks2.len() < quorum_of(peers));
        assert(st1.phase == Some(PhaseView::Phase2 { request_id: r, requester_id: reqr, read: read, acks: acks2 }));
        assert(forall|i: int| 0 <= i < senders.drop_first().len() ==> senders.drop_first()[i] == senders[i + 1]);
        lemma_replicate_phase_progress(peers, id, st1, r, reqr, read, acks2, senders.drop_first());
    }
}

/// The acknowledgment that completes the majority answers the requester --
/// `GetOk` with the remembered value for a read, `PutOk` for a write -- and
/// frees the replica for its next client operation.
pub proof fn lemma_completion_answers(peers: Seq<ReplicaId>, id: ReplicaId, st: StateView, src: ReplicaId, r: RequestId, reqr: ReplicaId, read: Option<Value>, acks: Set<ReplicaId>)
    requires
        st.phase == Some(PhaseView::Phase2 { request_id: r, requester_id: reqr, read: read, acks: acks }),
        !acks.contains(src),
        acks.finite(),
        acks.len() + 1 == quorum_of(peers),
    ensures
        next_state(peers, id, st, src, Msg::Internal(AbdMsg::AckReplicate(r))).phase is None,
        next_msgs(peers, id, st, src, Msg::Internal(AbdMsg::AckReplicate(r))) == seq![
            Envelope { dst: reqr, msg: (match read { Some(rv) => Msg::GetOk(r, rv), None => Msg::PutOk(r) }) },
        ],
{
    assert(acks.insert(src).len() == acks.len() + 1);
    let out = next_msgs(peers, id, st, src, Msg::Internal(AbdMsg::AckReplicate(r)));
    assert(out =~= seq![
        Envelope { dst: reqr, msg: (match read { Some(rv) => Msg::GetOk(r, rv), None => Msg::PutOk(r) }) },
    ]);
}

} // verus!
