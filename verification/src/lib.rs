//! A quorum-replicated linearizable read/write register.
//!
//! The protocol follows Attiya, Bar-Noy and Dolev's algorithm for sharing
//! memory robustly in message-passing systems: every client operation runs a
//! query phase and a replicate phase, each of which waits for a majority of
//! replicas, so the register stays available and linearizable as long as a
//! majority of replicas can communicate.
//!
//! The replica is a deterministic, side-effect-free state machine: given a
//! configuration, a local state and a delivered message it produces the next
//! local state and the messages to send. A delivery substrate (sockets, or a
//! model checker exploring interleavings) drives it from outside.

pub mod laws;
pub mod msg;
pub mod quorum;
pub mod replica;
pub mod seqno;
pub mod store;
pub mod system;
