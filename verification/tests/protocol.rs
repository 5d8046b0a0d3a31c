//! Scenario tests that drive the replica state machine directly, playing the
//! delivery substrate by hand.

use abd_register::msg::{AbdMsg, Envelope, Msg};
use abd_register::quorum::majority;
use abd_register::replica::{AbdActor, AbdPhase, AbdState, INIT_VALUE};
use abd_register::seqno::{seqno_less, Seqno};

fn actor(peers: &[u64]) -> AbdActor {
    AbdActor { peers: peers.to_vec() }
}

fn sq(counter: u64, id: u64) -> Seqno {
    Seqno { counter, id }
}

#[test]
fn initial_state() {
    let st = actor(&[1, 2]).on_start();
    assert_eq!(st.seq, sq(0, 0));
    assert_eq!(st.val, INIT_VALUE);
    assert!(st.phase.is_none());
}

#[test]
fn majority_thresholds() {
    assert_eq!(majority(1), 1);
    assert_eq!(majority(2), 2);
    assert_eq!(majority(3), 2);
    assert_eq!(majority(4), 3);
    assert_eq!(majority(5), 3);
}

#[test]
fn seqno_order_is_total_and_breaks_ties_by_id() {
    assert!(seqno_less(&sq(1, 5), &sq(2, 0)));
    assert!(!seqno_less(&sq(2, 0), &sq(1, 5)));
    assert!(seqno_less(&sq(2, 0), &sq(2, 1)));
    assert!(!seqno_less(&sq(2, 1), &sq(2, 0)));
    assert!(!seqno_less(&sq(2, 1), &sq(2, 1)));
}

#[test]
fn put_starts_query_phase_and_queries_every_peer() {
    let a = actor(&[1, 2]);
    let st = a.on_start();
    let (st1, out) = a.on_msg(0, st, 100, Msg::Put(1, 'X' as u32));
    match &st1.phase {
        Some(AbdPhase::Phase1 { request_id, requester_id, write, responses }) => {
            assert_eq!(*request_id, 1);
            assert_eq!(*requester_id, 100);
            assert_eq!(*write, Some('X' as u32));
            assert_eq!(responses.len(), 1);
            assert_eq!(responses[0].peer, 0);
        }
        _ => panic!("expected the query phase"),
    }
    assert_eq!(out, vec![
        Envelope { dst: 1, msg: Msg::Internal(AbdMsg::Query(1)) },
        Envelope { dst: 2, msg: Msg::Internal(AbdMsg::Query(1)) },
    ]);
}

#[test]
fn busy_replica_refuses_a_second_operation() {
    let a = actor(&[1, 2]);
    let st = a.on_start();
    let (st1, _) = a.on_msg(0, st, 100, Msg::Put(1, 'X' as u32));
    let (st2, out) = a.on_msg(0, st1.clone(), 101, Msg::Put(2, 'Y' as u32));
    assert_eq!(st2, st1);
    assert!(out.is_empty());
    let (st3, out) = a.on_msg(0, st2.clone(), 101, Msg::Get(3));
    assert_eq!(st3, st2);
    assert!(out.is_empty());
}

#[test]
fn query_is_always_answered_even_while_busy() {
    let a = actor(&[1, 2]);
    let st = a.on_start();
    let (st1, _) = a.on_msg(0, st, 100, Msg::Put(1, 'X' as u32));
    let (st2, out) = a.on_msg(0, st1.clone(), 2, Msg::Internal(AbdMsg::Query(7)));
    assert_eq!(st2, st1);
    assert_eq!(out, vec![
        Envelope { dst: 2, msg: Msg::Internal(AbdMsg::AckQuery(7, sq(0, 0), INIT_VALUE)) },
    ]);
}

#[test]
fn mismatched_ack_query_is_dropped() {
    let a = actor(&[1, 2]);
    let st = a.on_start();
    let (st1, _) = a.on_msg(0, st, 100, Msg::Put(1, 'X' as u32));
    let (st2, out) = a.on_msg(0, st1.clone(), 1, Msg::Internal(AbdMsg::AckQuery(9, sq(0, 0), INIT_VALUE)));
    assert_eq!(st2, st1);
    assert!(out.is_empty());
}

#[test]
fn replicate_applies_only_newer_timestamps() {
    let a = actor(&[1, 2]);
    let st = a.on_start();
    // a newer pair is adopted, and acknowledged
    let (st1, out) = a.on_msg(2, st, 0, Msg::Internal(AbdMsg::Replicate(4, sq(3, 0), 'Z' as u32)));
    assert_eq!(st1.seq, sq(3, 0));
    assert_eq!(st1.val, 'Z' as u32);
    assert_eq!(out, vec![Envelope { dst: 0, msg: Msg::Internal(AbdMsg::AckReplicate(4)) }]);
    // a stale pair is acknowledged but not adopted
    let (st2, out) = a.on_msg(2, st1.clone(), 1, Msg::Internal(AbdMsg::Replicate(5, sq(2, 9), 'W' as u32)));
    assert_eq!(st2, st1);
    assert_eq!(out, vec![Envelope { dst: 1, msg: Msg::Internal(AbdMsg::AckReplicate(5)) }]);
}

#[test]
fn duplicated_replicate_leaves_state_unchanged() {
    let a = actor(&[1, 2]);
    let st = a.on_start();
    let rep = Msg::Internal(AbdMsg::Replicate(4, sq(3, 0), 'Z' as u32));
    let (st1, _) = a.on_msg(2, st, 0, rep);
    let (st2, out) = a.on_msg(2, st1.clone(), 0, rep);
    assert_eq!(st2, st1);
    // the acknowledgment is still sent, so a lost earlier ack is recovered
    assert_eq!(out, vec![Envelope { dst: 0, msg: Msg::Internal(AbdMsg::AckReplicate(4)) }]);
}

/// Runs one client operation entered at replica `id` to completion against
/// the reachable replicas, delivering every message immediately; returns the
/// client-bound replies as (client, reply) pairs.
fn run_to_completion(
    actors: &[AbdActor],
    states: &mut Vec<AbdState>,
    id: u64,
    requester: u64,
    op: Msg,
    deliver_to: &[u64],
) -> Vec<(u64, Msg)> {
    let mut inbox: Vec<(u64, u64, Msg)> = vec![(requester, id, op)];
    let mut replies = Vec::new();
    while let Some((src, dst, msg)) = inbox.pop() {
        if !deliver_to.contains(&dst) {
            continue;
        }
        let (st2, outs) = actors[dst as usize].on_msg(dst, states[dst as usize].clone(), src, msg);
        states[dst as usize] = st2;
        for Envelope { dst: to, msg } in outs {
            match msg {
                Msg::PutOk(_) | Msg::GetOk(_, _) => replies.push((to, msg)),
                _ => inbox.push((dst, to, msg)),
            }
        }
    }
    replies
}

fn three_replicas() -> (Vec<AbdActor>, Vec<AbdState>) {
    let actors = vec![actor(&[1, 2]), actor(&[0, 2]), actor(&[0, 1])];
    let states: Vec<AbdState> = actors.iter().map(|a| a.on_start()).collect();
    (actors, states)
}

#[test]
fn get_before_any_put_returns_the_placeholder() {
    let (actors, mut states) = three_replicas();
    let replies = run_to_completion(&actors, &mut states, 1, 100, Msg::Get(1), &[0, 1, 2]);
    assert_eq!(replies, vec![(100, Msg::GetOk(1, INIT_VALUE))]);
}

#[test]
fn put_completes_with_a_majority_of_two_of_three() {
    let (actors, mut states) = three_replicas();
    // replica 2 is unreachable; 0 and 1 are a majority and suffice
    let replies = run_to_completion(&actors, &mut states, 0, 100, Msg::Put(1, 'X' as u32), &[0, 1]);
    assert_eq!(replies, vec![(100, Msg::PutOk(1))]);
    assert!(states[0].phase.is_none());
    assert_eq!(states[0].val, 'X' as u32);
    assert_eq!(states[1].val, 'X' as u32);
    // the unreachable replica saw nothing
    assert_eq!(states[2].val, INIT_VALUE);
}

#[test]
fn get_returns_latest_majority_write() {
    let (actors, mut states) = three_replicas();
    // client A writes 'X' at replica 0 through the majority {0, 1}
    let replies = run_to_completion(&actors, &mut states, 0, 100, Msg::Put(1, 'X' as u32), &[0, 1]);
    assert_eq!(replies, vec![(100, Msg::PutOk(1))]);
    let seq_first = states[0].seq;
    // client B writes 'Y' at replica 1 through the majority {1, 2}; its query
    // phase observes the first write, so its timestamp is strictly larger
    let replies = run_to_completion(&actors, &mut states, 1, 101, Msg::Put(2, 'Y' as u32), &[1, 2]);
    assert_eq!(replies, vec![(101, Msg::PutOk(2))]);
    let seq_second = states[1].seq;
    assert!(seqno_less(&seq_first, &seq_second));
    // a read from any replica through any majority now returns 'Y'
    let replies = run_to_completion(&actors, &mut states, 2, 102, Msg::Get(3), &[0, 1, 2]);
    assert_eq!(replies, vec![(102, Msg::GetOk(3, 'Y' as u32))]);
    // a read adopts the best timestamp it finds; it never invents a new one
    assert_eq!(states[2].seq, seq_second);
    let replies = run_to_completion(&actors, &mut states, 0, 103, Msg::Get(4), &[0, 2]);
    assert_eq!(replies, vec![(103, Msg::GetOk(4, 'Y' as u32))]);
}

#[test]
fn committed_timestamps_never_decrease() {
    let (actors, mut states) = three_replicas();
    let mut observed: Vec<Vec<Seqno>> = vec![vec![states[0].seq], vec![states[1].seq], vec![states[2].seq]];
    let script: Vec<(u64, u64, Msg)> = vec![
        (100, 0, Msg::Put(1, 'X' as u32)),
        (101, 1, Msg::Put(2, 'Y' as u32)),
    ];
    let mut inbox = script;
    while let Some((src, dst, msg)) = inbox.pop() {
        let (st2, outs) = actors[dst as usize].on_msg(dst, states[dst as usize].clone(), src, msg);
        states[dst as usize] = st2;
        observed[dst as usize].push(states[dst as usize].seq);
        for Envelope { dst: to, msg } in outs {
            if (to as usize) < 3 {
                inbox.push((dst, to, msg));
            }
        }
    }
    for seqs in observed {
        for pair in seqs.windows(2) {
            assert!(!seqno_less(&pair[1], &pair[0]));
        }
    }
}

#[test]
fn duplicated_ack_replicate_is_not_double_counted() {
    // five replicas: the majority is 3, so the replicate phase stays open
    // after one peer acknowledgment and a duplicate must not close it
    let a = actor(&[1, 2, 3, 4]);
    let st = a.on_start();
    let (st1, _) = a.on_msg(0, st, 100, Msg::Put(1, 'X' as u32));
    let (st2, _) = a.on_msg(0, st1, 1, Msg::Internal(AbdMsg::AckQuery(1, sq(0, 0), INIT_VALUE)));
    let (st3, _) = a.on_msg(0, st2, 2, Msg::Internal(AbdMsg::AckQuery(1, sq(0, 0), INIT_VALUE)));
    // the query phase is complete: acknowledgment set = {0}
    let (st4, out) = a.on_msg(0, st3.clone(), 1, Msg::Internal(AbdMsg::AckReplicate(1)));
    assert!(out.is_empty());
    match &st4.phase {
        Some(AbdPhase::Phase2 { acks, .. }) => assert_eq!(acks, &vec![0, 1]),
        _ => panic!("expected the replicate phase"),
    }
    // a duplicated acknowledgment from the same peer changes nothing
    let (st5, out) = a.on_msg(0, st4.clone(), 1, Msg::Internal(AbdMsg::AckReplicate(1)));
    assert_eq!(st5, st4);
    assert!(out.is_empty());
    // a fresh peer completes the majority and answers the client
    let (st6, out) = a.on_msg(0, st5, 2, Msg::Internal(AbdMsg::AckReplicate(1)));
    assert!(st6.phase.is_none());
    assert_eq!(out, vec![Envelope { dst: 100, msg: Msg::PutOk(1) }]);
}

#[test]
fn ack_replicate_after_completion_is_dropped() {
    let (actors, mut states) = three_replicas();
    let replies = run_to_completion(&actors, &mut states, 0, 100, Msg::Put(1, 'X' as u32), &[0, 1, 2]);
    assert_eq!(replies, vec![(100, Msg::PutOk(1))]);
    assert!(states[0].phase.is_none());
    // a replayed acknowledgment for the already-satisfied request: no state
    // change, no reply, no completed-phase effect
    let before = states[0].clone();
    let (after, out) = actors[0].on_msg(0, before.clone(), 1, Msg::Internal(AbdMsg::AckReplicate(1)));
    assert_eq!(after, before);
    assert!(out.is_empty());
}
