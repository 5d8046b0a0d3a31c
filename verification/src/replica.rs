//! The replica state machine of the quorum-replicated register.
//!
//! A replica holds a committed timestamp/value pair and at most one in-flight
//! client operation. A client operation runs two phases: a query phase that
//! collects a majority of (timestamp, value) reports and selects the best,
//! and a replicate phase that pushes the chosen pair to a majority before the
//! client is answered. Replicas adopt pushed pairs only when strictly newer,
//! which makes redelivery and reordering harmless.

use vstd::prelude::*;
use crate::msg::{AbdMsg, Envelope, Msg, ReplicaId, RequestId, Value};
use crate::quorum::{majority, spec_majority};
use crate::seqno::{seqno_le, seqno_less, seqno_lt, Seqno};
use crate::store::{
    acks_contains, acks_insert, acks_set, acks_sorted, best_of, chosen, lemma_acks_set_len,
    lemma_acks_set_singleton, lemma_best_peer_unique, lemma_responses_map_props,
    lemma_responses_map_singleton, responses_insert, responses_map, responses_sorted, Response,
};

verus! {

/// The in-flight client operation, if any.
#[derive(Clone, Debug, PartialEq, Eq, Hash)]
pub enum AbdPhase {
    /// Query phase: collecting (timestamp, value) reports from peers.
    /// `write` carries the value to write, or `None` for a read.
    Phase1 {
        request_id: RequestId,
        requester_id: ReplicaId,
        write: Option<Value>,
        responses: Vec<Response>,
    },
    /// Replicate phase: collecting acknowledgments for the chosen pair.
    /// `read` carries the value to answer a read with, or `None` for a write.
    Phase2 {
        request_id: RequestId,
        requester_id: ReplicaId,
        read: Option<Value>,
        acks: Vec<ReplicaId>,
    },
}

/// A replica's state: the committed pair and the in-flight operation.
#[derive(Clone, Debug, PartialEq, Eq, Hash)]
pub struct AbdState {
    pub seq: Seqno,
    pub val: Value,
    pub phase: Option<AbdPhase>,
}

/// The abstract view of a phase: the response table as a mapping, the
/// acknowledgment vector as a set.
#[verifier::ext_equal]
pub enum PhaseView {
    Phase1 {
        request_id: RequestId,
        requester_id: ReplicaId,
        write: Option<Value>,
        responses: Map<ReplicaId, (Seqno, Value)>,
    },
    Phase2 {
        request_id: RequestId,
        requester_id: ReplicaId,
        read: Option<Value>,
        acks: Set<ReplicaId>,
    },
}

/// The abstract view of a replica state.
#[verifier::ext_equal]
pub struct StateView {
    pub seq: Seqno,
    pub val: Value,
    pub phase: Option<PhaseView>,
}

impl View for AbdPhase {
    type V = PhaseView;

    open spec fn view(&self) -> PhaseView {
        match self {
            AbdPhase::Phase1 { request_id, requester_id, write, responses } => PhaseView::Phase1 {
                request_id: *request_id,
                requester_id: *requester_id,
                write: *write,
                responses: responses_map(responses@),
            },
            AbdPhase::Phase2 { request_id, requester_id, read, acks } => PhaseView::Phase2 {
                request_id: *request_id,
                requester_id: *requester_id,
                read: *read,
                acks: acks_set(acks@),
            },
        }
    }
}

impl View for AbdState {
    type V = StateView;

    open spec fn view(&self) -> StateView {
        StateView {
            seq: self.seq,
            val: self.val,
            phase: match self.phase {
                None => None,
                Some(p) => Some(p@),
            },
        }
    }
}

impl AbdState {
    /// The collections backing an in-flight phase are sorted, so the concrete
    /// state is the canonical layout of its view.
    pub open spec fn inv(self) -> bool {
        match self.phase {
            None => true,
            Some(AbdPhase::Phase1 { responses, .. }) => responses_sorted(responses@),
            Some(AbdPhase::Phase2 { acks, .. }) => acks_sorted(acks@),
        }
    }
}

/// The placeholder a replica's register holds before any write: the code
/// point of a question mark.
pub const INIT_VALUE: u32 = 63;

impl StateView {
    /// The state every replica starts from: the initial timestamp, the
    /// placeholder value, no operation in flight.
    pub open spec fn init() -> StateView {
        StateView { seq: Seqno::initial(), val: INIT_VALUE, phase: None }
    }
}

/// A replica's fixed configuration: the identities of its peers. The cluster
/// is this replica plus its peers; membership never changes.
#[derive(Clone, Debug, PartialEq, Eq, Hash)]
pub struct AbdActor {
    pub peers: Vec<ReplicaId>,
}

impl AbdActor {
    /// The machine limit on the cluster size, so the majority threshold can
    /// be computed on a `usize`.
    pub open spec fn inv(self) -> bool {
        self.peers@.len() < usize::MAX
    }
}

/// The majority threshold of a cluster made of one replica and its peers.
pub open spec fn quorum_of(peers: Seq<ReplicaId>) -> int {
    spec_majority(peers.len() as int + 1)
}

/// The query fan-out, replicate fan-out and answers a step sends, addressed
/// to each peer in configuration order.
pub open spec fn broadcast_to(peers: Seq<ReplicaId>, m: Msg) -> Seq<Envelope> {
    peers.map_values(|p: ReplicaId| Envelope { dst: p, msg: m })
}

/// Adopts the pair only when its timestamp is strictly newer than the
/// committed one. This monotonic-apply guard keeps the committed timestamp
/// non-decreasing and makes redelivered replicates no-ops.
pub open spec fn apply_if_newer(st: StateView, s: Seqno, v: Value) -> StateView {
    if seqno_lt(st.seq, s) {
        StateView { seq: s, val: v, phase: st.phase }
    } else {
        st
    }
}

/// What the query phase decides once a majority has reported, given the best
/// reported pair: a write claims the next counter under this replica's own
/// identity; a read adopts the best pair unchanged and remembers the value to
/// answer with. Returns (timestamp, value, value-to-answer-a-read-with).
pub open spec fn phase1_decision(id: ReplicaId, write: Option<Value>, best: (Seqno, Value)) -> (Seqno, Value, Option<Value>) {
    match write {
        Some(w) => (Seqno { counter: (best.0.counter + 1) as u64, id: id }, w, None),
        None => (best.0, best.1, Some(best.1)),
    }
}

/// Starting the query phase: the replica seeds the response table with its
/// own committed pair and waits for peers.
pub open spec fn start_phase1(st: StateView, id: ReplicaId, r: RequestId, src: ReplicaId, write: Option<Value>) -> StateView {
    StateView {
        seq: st.seq,
        val: st.val,
        phase: Some(PhaseView::Phase1 {
            request_id: r,
            requester_id: src,
            write: write,
            responses: Map::empty().insert(id, (st.seq, st.val)),
        }),
    }
}

/// The state after a query-phase report from `src` is delivered.
pub open spec fn ack_query_next_state(peers: Seq<ReplicaId>, id: ReplicaId, st: StateView, src: ReplicaId, r: RequestId, s: Seqno, v: Value) -> StateView {
    match st.phase {
        Some(PhaseView::Phase1 { request_id, requester_id, write, responses }) => {
            if request_id == r {
                let responses2 = responses.insert(src, (s, v));
                if responses2.dom().len() == quorum_of(peers) {
                    let (ns, nv, read) = phase1_decision(id, write, chosen(responses2));
                    let applied = apply_if_newer(st, ns, nv);
                    StateView {
                        seq: applied.seq,
                        val: applied.val,
                        phase: Some(PhaseView::Phase2 {
                            request_id: r,
                            requester_id: requester_id,
                            read: read,
                            acks: Set::empty().insert(id),
                        }),
                    }
                } else {
                    StateView {
                        seq: st.seq,
                        val: st.val,
                        phase: Some(PhaseView::Phase1 {
                            request_id: request_id,
                            requester_id: requester_id,
                            write: write,
                            responses: responses2,
                        }),
                    }
                }
            } else {
                st
            }
        },
        _ => st,
    }
}

/// The messages a query-phase report triggers: the replicate fan-out, exactly
/// when the report completes the majority.
pub open spec fn ack_query_next_msgs(peers: Seq<ReplicaId>, id: ReplicaId, st: StateView, src: ReplicaId, r: RequestId, s: Seqno, v: Value) -> Seq<Envelope> {
    match st.phase {
        Some(PhaseView::Phase1 { request_id, requester_id, write, responses }) => {
            if request_id == r {
                let responses2 = responses.insert(src, (s, v));
                if responses2.dom().len() == quorum_of(peers) {
                    let (ns, nv, read) = phase1_decision(id, write, chosen(responses2));
                    broadcast_to(peers, Msg::Internal(AbdMsg::Replicate(r, ns, nv)))
                } else {
                    Seq::empty()
                }
            } else {
                Seq::empty()
            }
        },
        _ => Seq::empty(),
    }
}

/// The state after a replicate acknowledgment from `src` is delivered.
pub open spec fn ack_replicate_next_state(peers: Seq<ReplicaId>, st: StateView, src: ReplicaId, r: RequestId) -> StateView {
    match st.phase {
        Some(PhaseView::Phase2 { request_id, requester_id, read, acks }) => {
            if request_id == r && !acks.contains(src) {
                let acks2 = acks.insert(src);
                if acks2.len() == quorum_of(peers) {
                    StateView { seq: st.seq, val: st.val, phase: None }
                } else {
                    StateView {
                        seq: st.seq,
                        val: st.val,
                        phase: Some(PhaseView::Phase2 {
                            request_id: request_id,
                            requester_id: requester_id,
                            read: read,
                            acks: acks2,
                        }),
                    }
                }
            } else {
                st
            }
        },
        _ => st,
    }
}

/// The messages a replicate acknowledgment triggers: the answer to the
/// requester, exactly when the acknowledgment completes the majority.
pub open spec fn ack_replicate_next_msgs(peers: Seq<ReplicaId>, st: StateView, src: ReplicaId, r: RequestId) -> Seq<Envelope> {
    match st.phase {
        Some(PhaseView::Phase2 { request_id, requester_id, read, acks }) => {
            if request_id == r && !acks.contains(src) {
                let acks2 = acks.insert(src);
                if acks2.len() == quorum_of(peers) {
                    let answer = match read {
                        Some(rv) => Msg::GetOk(r, rv),
                        None => Msg::PutOk(r),
                    };
                    seq![Envelope { dst: requester_id, msg: answer }]
                } else {
                    Seq::empty()
                }
            } else {
                Seq::empty()
            }
        },
        _ => Seq::empty(),
    }
}

/// The replica's transition relation, state part: the state after `msg` from
/// `src` is delivered to a replica with identity `id`, peers `peers` and
/// state `st`. Every delivery is total: messages that do not fit the current
/// phase leave the state unchanged.
pub open spec fn next_state(peers: Seq<ReplicaId>, id: ReplicaId, st: StateView, src: ReplicaId, msg: Msg) -> StateView {
    match msg {
        Msg::Put(r, v) => if st.phase is None { start_phase1(st, id, r, src, Some(v)) } else { st },
        Msg::Get(r) => if st.phase is None { start_phase1(st, id, r, src, None) } else { st },
        Msg::PutOk(_) => st,
        Msg::GetOk(_, _) => st,
        Msg::Internal(AbdMsg::Query(_)) => st,
        Msg::Internal(AbdMsg::AckQuery(r, s, v)) => ack_query_next_state(peers, id, st, src, r, s, v),
        Msg::Internal(AbdMsg::Replicate(_, s, v)) => apply_if_newer(st, s, v),
        Msg::Internal(AbdMsg::AckReplicate(r)) => ack_replicate_next_state(peers, st, src, r),
    }
}

/// The replica's transition relation, output part: the messages the delivery
/// triggers, in the order they are sent.
pub open spec fn next_msgs(peers: Seq<ReplicaId>, id: ReplicaId, st: StateView, src: ReplicaId, msg: Msg) -> Seq<Envelope> {
    match msg {
        Msg::Put(r, _) => if st.phase is None { broadcast_to(peers, Msg::Internal(AbdMsg::Query(r))) } else { Seq::empty() },
        Msg::Get(r) => if st.phase is None { broadcast_to(peers, Msg::Internal(AbdMsg::Query(r))) } else { Seq::empty() },
        Msg::PutOk(_) => Seq::empty(),
        Msg::GetOk(_, _) => Seq::empty(),
        Msg::Internal(AbdMsg::Query(r)) => seq![
            Envelope { dst: src, msg: Msg::Internal(AbdMsg::AckQuery(r, st.seq, st.val)) },
        ],
        Msg::Internal(AbdMsg::AckQuery(r, s, v)) => ack_query_next_msgs(peers, id, st, src, r, s, v),
        Msg::Internal(AbdMsg::Replicate(r, _, _)) => seq![
            Envelope { dst: src, msg: Msg::Internal(AbdMsg::AckReplicate(r)) },
        ],
        Msg::Internal(AbdMsg::AckReplicate(r)) => ack_replicate_next_msgs(peers, st, src, r),
    }
}

/// The state after a whole run of deliveries, each event a (sender, message)
/// pair, applied in order.
pub open spec fn run_state(peers: Seq<ReplicaId>, id: ReplicaId, st: StateView, events: Seq<(ReplicaId, Msg)>) -> StateView
    decreases events.len(),
{
    if events.len() == 0 {
        st
    } else {
        run_state(peers, id, next_state(peers, id, st, events.first().0, events.first().1), events.drop_first())
    }
}

/// The query-phase reports for request `r` from the given peers, each a
/// (sender, reported timestamp, reported value) triple, as deliveries.
pub open spec fn ack_query_events(r: RequestId, reports: Seq<(ReplicaId, Seqno, Value)>) -> Seq<(ReplicaId, Msg)> {
    reports.map_values(|t: (ReplicaId, Seqno, Value)| (t.0, Msg::Internal(AbdMsg::AckQuery(r, t.1, t.2))))
}

/// The replicate acknowledgments for request `r` from the given peers, as
/// deliveries.
pub open spec fn ack_replicate_events(r: RequestId, senders: Seq<ReplicaId>) -> Seq<(ReplicaId, Msg)> {
    senders.map_values(|p: ReplicaId| (p, Msg::Internal(AbdMsg::AckReplicate(r))))
}

/// Appends one copy of `m` addressed to each peer, in configuration order.
fn send_all(peers: &Vec<ReplicaId>, m: Msg, o: &mut Vec<Envelope>)
    ensures
        final(o)@ == old(o)@ + broadcast_to(peers@, m),
{
    let mut i: usize = 0;
    while i < peers.len()
        invariant
            0 <= i <= peers@.len(),
            o@ == old(o)@ + broadcast_to(peers@.subrange(0, i as int), m),
        decreases peers@.len() - i,
    {
        o.push(Envelope { dst: peers[i], msg: m });
        proof {
            assert(o@ =~= old(o)@ + broadcast_to(peers@.subrange(0, i + 1 as int), m));
        }
        i = i + 1;
    }
    proof {
        assert(peers@.subrange(0, peers@.len() as int) =~= peers@);
    }
}

/// Counters a query-phase step may increment must leave room in `u64`: every
/// reported counter the query phase holds is below the maximum.
pub open spec fn phase1_counters_bounded(st: StateView) -> bool {
    st.phase matches Some(PhaseView::Phase1 { responses, .. }) ==>
        forall|p: ReplicaId| #[trigger] responses.dom().contains(p) ==> responses[p].0.counter < u64::MAX
}

/// Delivering any message never decreases the committed timestamp: the
/// monotonic-apply guard protects it at both places it can change.
pub proof fn lemma_next_state_monotone(peers: Seq<ReplicaId>, id: ReplicaId, st: StateView, src: ReplicaId, msg: Msg)
    ensures
        seqno_le(st.seq, next_state(peers, id, st, src, msg).seq),
{
}

impl AbdActor {
    /// The state a replica boots with, before any message is delivered.
    pub fn on_start(&self) -> (st: AbdState)
        ensures
            st@ == StateView::init(),
            st.inv(),
            phase1_counters_bounded(st@),
    {
        AbdState { seq: Seqno { counter: 0, id: 0 }, val: INIT_VALUE, phase: None }
    }

    /// Delivers one message to the replica: consumes the state before, and
    /// returns the state after together with the messages to send, exactly as
    /// the transition relation `next_state` / `next_msgs` describes.
    pub fn on_msg(&self, id: ReplicaId, state: AbdState, src: ReplicaId, msg: Msg) -> (r: (AbdState, Vec<Envelope>))
        requires
            self.inv(),
            state.inv(),
            msg matches Msg::Internal(AbdMsg::AckQuery(_, s, _)) ==>
                s.counter < u64::MAX && phase1_counters_bounded(state@),
        ensures
            r.0.inv(),
            r.0@ == next_state(self.peers@, id, state@, src, msg),
            r.1@ == next_msgs(self.peers@, id, state@, src, msg),
            seqno_le(state@.seq, r.0@.seq),
    {
        let ghost st0 = state@;
        let AbdState { seq, val, phase } = state;
        let res: (AbdState, Vec<Envelope>) = match msg {
            Msg::Put(req_id, v) => {
                if phase.is_none() {
                    let mut out: Vec<Envelope> = Vec::new();
                    send_all(&self.peers, Msg::Internal(AbdMsg::Query(req_id)), &mut out);
                    let mut responses: Vec<Response> = Vec::new();
                    responses.push(Response { peer: id, seqno: seq, val: val });
                    proof {
                        lemma_responses_map_singleton(Response { peer: id, seqno: seq, val: val });
                        assert(responses@ =~= seq![Response { peer: id, seqno: seq, val: val }]);
                    }
                    (AbdState { seq, val, phase: Some(AbdPhase::Phase1 {
                        request_id: req_id,
                        requester_id: src,
                        write: Some(v),
                        responses,
                    }) }, out)
                } else {
                    (AbdState { seq, val, phase }, Vec::new())
                }
            },
            Msg::Get(req_id) => {
                if phase.is_none() {
                    let mut out: Vec<Envelope> = Vec::new();
                    send_all(&self.peers, Msg::Internal(AbdMsg::Query(req_id)), &mut out);
                    let mut responses: Vec<Response> = Vec::new();
                    responses.push(Response { peer: id, seqno: seq, val: val });
                    proof {
                        lemma_responses_map_singleton(Response { peer: id, seqno: seq, val: val });
                        assert(responses@ =~= seq![Response { peer: id, seqno: seq, val: val }]);
                    }
                    (AbdState { seq, val, phase: Some(AbdPhase::Phase1 {
                        request_id: req_id,
                        requester_id: src,
                        write: None,
                        responses,
                    }) }, out)
                } else {
                    (AbdState { seq, val, phase }, Vec::new())
                }
            },
            Msg::PutOk(_) => (AbdState { seq, val, phase }, Vec::new()),
            Msg::GetOk(_, _) => (AbdState { seq, val, phase }, Vec::new()),
            Msg::Internal(AbdMsg::Query(req_id)) => {
                let mut out: Vec<Envelope> = Vec::new();
                out.push(Envelope { dst: src, msg: Msg::Internal(AbdMsg::AckQuery(req_id, seq, val)) });
                proof {
                    assert(out@ =~= seq![Envelope { dst: src, msg: Msg::Internal(AbdMsg::AckQuery(req_id, seq, val)) }]);
                }
                (AbdState { seq, val, phase }, out)
            },
            Msg::Internal(AbdMsg::AckQuery(req_id, s, v)) => {
                match phase {
                    Some(AbdPhase::Phase1 { request_id, requester_id, write, responses }) => {
                        if request_id == req_id {
                            let mut responses = responses;
                            let ghost rs0 = responses@;
                            responses_insert(&mut responses, Response { peer: src, seqno: s, val: v });
                            proof {
                                lemma_responses_map_props(rs0);
                                lemma_responses_map_props(responses@);
                            }
                            if responses.len() == majority(self.peers.len() + 1) {
                                let best = best_of(&responses);
                                proof {
                                    lemma_best_peer_unique(responses_map(responses@), best.peer);
                                    let i = choose|i: int| 0 <= i < responses@.len() && responses@[i] == best;
                                    if rs0.contains(best) {
                                        let j = choose|j: int| 0 <= j < rs0.len() && rs0[j] == best;
                                        assert(responses_map(rs0).dom().contains(rs0[j].peer));
                                        assert(responses_map(rs0)[rs0[j].peer] == (rs0[j].seqno, rs0[j].val));
                                    }
                                    assert(best.seqno.counter < u64::MAX);
                                }
                                let (new_seq, new_val, read) = match write {
                                    Some(w) => (Seqno { counter: best.seqno.counter + 1, id: id }, w, None),
                                    None => (best.seqno, best.val, Some(best.val)),
                                };
                                let mut out: Vec<Envelope> = Vec::new();
                                send_all(&self.peers, Msg::Internal(AbdMsg::Replicate(req_id, new_seq, new_val)), &mut out);
                                let applied = if seqno_less(&seq, &new_seq) { (new_seq, new_val) } else { (seq, val) };
                                let mut acks: Vec<ReplicaId> = Vec::new();
                                acks.push(id);
                                proof {
                                    lemma_acks_set_singleton(id);
                                    assert(acks@ =~= seq![id]);
                                    assert(out@ =~= broadcast_to(self.peers@, Msg::Internal(AbdMsg::Replicate(req_id, new_seq, new_val))));
                                }
                                let st2 = AbdState { seq: applied.0, val: applied.1, phase: Some(AbdPhase::Phase2 {
                                    request_id: req_id,
                                    requester_id,
                                    read,
                                    acks,
                                }) };
                                proof {
                                    assert(st2@ =~= ack_query_next_state(self.peers@, id, st0, src, req_id, s, v));
                                }
                                (st2, out)
                            } else {
                                let st2 = AbdState { seq, val, phase: Some(AbdPhase::Phase1 {
                                    request_id,
                                    requester_id,
                                    write,
                                    responses,
                                }) };
                                proof {
                                    assert(st2@ =~= ack_query_next_state(self.peers@, id, st0, src, req_id, s, v));
                                }
                                (st2, Vec::new())
                            }
                        } else {
                            (AbdState { seq, val, phase: Some(AbdPhase::Phase1 {
                                request_id,
                                requester_id,
                                write,
                                responses,
                            }) }, Vec::new())
                        }
                    },
                    other => (AbdState { seq, val, phase: other }, Vec::new()),
                }
            },
            Msg::Internal(AbdMsg::Replicate(req_id, s, v)) => {
                let mut out: Vec<Envelope> = Vec::new();
                out.push(Envelope { dst: src, msg: Msg::Internal(AbdMsg::AckReplicate(req_id)) });
                proof {
                    assert(out@ =~= seq![Envelope { dst: src, msg: Msg::Internal(AbdMsg::AckReplicate(req_id)) }]);
                }
                if seqno_less(&seq, &s) {
                    (AbdState { seq: s, val: v, phase }, out)
                } else {
                    (AbdState { seq, val, phase }, out)
                }
            },
            Msg::Internal(AbdMsg::AckReplicate(req_id)) => {
                match phase {
                    Some(AbdPhase::Phase2 { request_id, requester_id, read, acks }) => {
                        if request_id == req_id && !acks_contains(&acks, src) {
                            let mut acks = acks;
                            acks_insert(&mut acks, src);
                            proof {
                                lemma_acks_set_len(acks@);
                            }
                            if acks.len() == majority(self.peers.len() + 1) {
                                let answer = match read {
                                    Some(rv) => Msg::GetOk(req_id, rv),
                                    None => Msg::PutOk(req_id),
                                };
                                let mut out: Vec<Envelope> = Vec::new();
                                out.push(Envelope { dst: requester_id, msg: answer });
                                proof {
                                    assert(out@ =~= seq![Envelope { dst: requester_id, msg: answer }]);
                                }
                                (AbdState { seq, val, phase: None }, out)
                            } else {
                                (AbdState { seq, val, phase: Some(AbdPhase::Phase2 {
                                    request_id,
                                    requester_id,
                                    read,
                                    acks,
                                }) }, Vec::new())
                            }
                        } else {
                            (AbdState { seq, val, phase: Some(AbdPhase::Phase2 {
                                request_id,
                                requester_id,
                                read,
                                acks,
                            }) }, Vec::new())
                        }
                    },
                    other => (AbdState { seq, val, phase: other }, Vec::new()),
                }
            },
        };
        proof {
            lemma_next_state_monotone(self.peers@, id, st0, src, msg);
        }
        res
    }
}

} // verus!
