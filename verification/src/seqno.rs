//! Write timestamps and their strict total order.

use vstd::prelude::*;

verus! {

/// A write timestamp: a logical counter paired with the identity of the
/// replica that assigned it. Timestamps are ordered by counter first and by
/// identity second, so two replicas that pick the same counter concurrently
/// are still ordered deterministically, with no central sequencer.
#[derive(Clone, Copy, Debug, PartialEq, Eq, Structural, Hash, PartialOrd, Ord)]
pub struct Seqno {
    pub counter: u64,
    pub id: u64,
}

/// `a` comes strictly before `b`: smaller counter, or equal counters and a
/// smaller replica identity.
pub open spec fn seqno_lt(a: Seqno, b: Seqno) -> bool {
    a.counter < b.counter || (a.counter == b.counter && a.id < b.id)
}

/// `a` comes before `b` or equals it.
pub open spec fn seqno_le(a: Seqno, b: Seqno) -> bool {
    seqno_lt(a, b) || a == b
}

impl Seqno {
    /// The timestamp every replica starts from, before any write.
    pub open spec fn initial() -> Seqno {
        Seqno { counter: 0, id: 0 }
    }
}

/// Decides `seqno_lt(*a, *b)`, the strict order on timestamps.
pub fn seqno_less(a: &Seqno, b: &Seqno) -> (r: bool)
    ensures
        r == seqno_lt(*a, *b),
{
    a.counter < b.counter || (a.counter == b.counter && a.id < b.id)
}

/// The order on timestamps is a strict total order: for any two timestamps
/// exactly one of `a < b`, `b < a`, `a == b` holds.
pub proof fn lemma_seqno_order_trichotomy(a: Seqno, b: Seqno)
    ensures
        seqno_lt(a, b) || seqno_lt(b, a) || a == b,
        seqno_lt(a, b) ==> !seqno_lt(b, a) && a != b,
        a == b ==> !seqno_lt(a, b) && !seqno_lt(b, a),
{
}

/// The order on timestamps is transitive.
pub proof fn lemma_seqno_order_transitive(a: Seqno, b: Seqno, c: Seqno)
    ensures
        seqno_lt(a, b) && seqno_lt(b, c) ==> seqno_lt(a, c),
        seqno_le(a, b) && seqno_le(b, c) ==> seqno_le(a, c),
{
}

} // verus!
