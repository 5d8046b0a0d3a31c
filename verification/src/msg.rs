//! The messages replicas and clients exchange.

use vstd::prelude::*;
use crate::seqno::Seqno;

verus! {

/// An opaque token a client chooses per operation.
pub type RequestId = u64;

/// The value stored in the register, an opaque 32-bit word. A client that
/// stores characters stores their code points.
pub type Value = u32;

/// The identity of a replica, fixed configuration known to all members.
pub type ReplicaId = u64;

/// The replica-to-replica messages of the two quorum phases.
#[derive(Clone, Copy, Debug, PartialEq, Eq, Hash)]
pub enum AbdMsg {
    /// Query phase fan-out: asks a peer for its current timestamp and value.
    Query(RequestId),
    /// Query phase response: the peer's current timestamp and value.
    AckQuery(RequestId, Seqno, Value),
    /// Replicate phase fan-out: asks a peer to adopt this timestamp and value.
    Replicate(RequestId, Seqno, Value),
    /// Replicate phase response: the peer has acknowledged the replicate.
    AckReplicate(RequestId),
}

/// Everything a replica can receive or send: client requests, client replies,
/// and the internal protocol messages.
#[derive(Clone, Copy, Debug, PartialEq, Eq, Hash)]
pub enum Msg {
    /// A client asks to write a value.
    Put(RequestId, Value),
    /// A client asks to read the register.
    Get(RequestId),
    /// The write completed.
    PutOk(RequestId),
    /// The read completed, with the value read.
    GetOk(RequestId, Value),
    /// A message of the internal protocol.
    Internal(AbdMsg),
}

/// A message addressed to a destination, the unit of replica output.
#[derive(Clone, Copy, Debug, PartialEq, Eq, Hash)]
pub struct Envelope {
    pub dst: ReplicaId,
    pub msg: Msg,
}

} // verus!
