//! Drives the replica state machine through every reachable interleaving of
//! a small cluster with the stateright model checker, and checks that the
//! history of completed operations stays linearizable.

use std::borrow::Cow;

use stateright::actor::register::{RegisterActor, RegisterMsg};
use stateright::actor::{Actor, ActorModel, Id, Network, Out};
use stateright::semantics::register::Register;
use stateright::semantics::LinearizabilityTester;
use stateright::{Checker, Expectation, Model};

use abd_register::msg::{AbdMsg, Envelope, Msg};
use abd_register::replica::{AbdActor, AbdState};
use abd_register::seqno::Seqno;

/// The internal protocol messages on the checker's wire.
#[derive(Clone, Debug, Eq, Hash, Ord, PartialEq, PartialOrd)]
enum Wire {
    Query(u64),
    AckQuery(u64, Seqno, u32),
    Replicate(u64, Seqno, u32),
    AckReplicate(u64),
}

fn wire_to_lib(w: Wire) -> AbdMsg {
    match w {
        Wire::Query(r) => AbdMsg::Query(r),
        Wire::AckQuery(r, s, v) => AbdMsg::AckQuery(r, s, v),
        Wire::Replicate(r, s, v) => AbdMsg::Replicate(r, s, v),
        Wire::AckReplicate(r) => AbdMsg::AckReplicate(r),
    }
}

fn lib_to_wire(m: AbdMsg) -> Wire {
    match m {
        AbdMsg::Query(r) => Wire::Query(r),
        AbdMsg::AckQuery(r, s, v) => Wire::AckQuery(r, s, v),
        AbdMsg::Replicate(r, s, v) => Wire::Replicate(r, s, v),
        AbdMsg::AckReplicate(r) => Wire::AckReplicate(r),
    }
}

#[derive(Clone)]
struct AbdServer {
    peers: Vec<Id>,
}

impl Actor for AbdServer {
    type Msg = RegisterMsg<u64, char, Wire>;
    type State = AbdState;
    type Timer = ();
    type Storage = ();
    type Random = ();

    fn on_start(&self, _id: Id, _storage: &Option<()>, _o: &mut Out<Self>) -> AbdState {
        self.lib().on_start()
    }

    fn on_msg(&self, id: Id, state: &mut Cow<AbdState>, src: Id, msg: Self::Msg, o: &mut Out<Self>) {
        let lib_msg = match msg {
            RegisterMsg::Put(r, v) => Msg::Put(r, v as u32),
            RegisterMsg::Get(r) => Msg::Get(r),
            RegisterMsg::PutOk(r) => Msg::PutOk(r),
            RegisterMsg::GetOk(r, v) => Msg::GetOk(r, v as u32),
            RegisterMsg::Internal(w) => Msg::Internal(wire_to_lib(w)),
        };
        let me = usize::from(id) as u64;
        let from = usize::from(src) as u64;
        let (next, outs) = self.lib().on_msg(me, state.as_ref().clone(), from, lib_msg);
        if *state.as_ref() != next {
            *state.to_mut() = next;
        }
        for Envelope { dst, msg } in outs {
            let to = Id::from(dst as usize);
            match msg {
                Msg::PutOk(r) => o.send(to, RegisterMsg::PutOk(r)),
                Msg::GetOk(r, v) => o.send(to, RegisterMsg::GetOk(r, char_of(v))),
                Msg::Internal(m) => o.send(to, RegisterMsg::Internal(lib_to_wire(m))),
                Msg::Put(r, v) => o.send(to, RegisterMsg::Put(r, char_of(v))),
                Msg::Get(r) => o.send(to, RegisterMsg::Get(r)),
            }
        }
    }
}

impl AbdServer {
    fn lib(&self) -> AbdActor {
        AbdActor {
            peers: self.peers.iter().map(|p| usize::from(*p) as u64).collect(),
        }
    }
}

fn char_of(v: u32) -> char {
    char::from_u32(v).expect("the checker's clients only store characters")
}

fn base_model() -> ActorModel<RegisterActor<AbdServer>, (), LinearizabilityTester<Id, Register<char>>> {
    ActorModel::new((), LinearizabilityTester::new(Register('?')))
        .init_network(Network::new_unordered_nonduplicating([]))
        .property(Expectation::Always, "linearizable", |_, state| {
            state.history.serialized_history().is_some()
        })
        .property(Expectation::Sometimes, "value chosen", |_, state| {
            state.network.iter_all().any(|e| {
                if let RegisterMsg::GetOk(_, value) = e.msg {
                    return *value != '?';
                }
                false
            })
        })
        .record_msg_in(RegisterMsg::record_returns)
        .record_msg_out(RegisterMsg::record_invocations)
}

#[test]
fn linearizable_with_two_servers() {
    let checker = base_model()
        .actor(RegisterActor::Server(AbdServer { peers: vec![Id::from(1)] }))
        .actor(RegisterActor::Server(AbdServer { peers: vec![Id::from(0)] }))
        .actor(RegisterActor::Client { put_count: 1, server_count: 2 })
        .actor(RegisterActor::Client { put_count: 1, server_count: 2 })
        .checker()
        .threads(num_cpus::get())
        .spawn_dfs()
        .join();
    checker.assert_properties();
}
