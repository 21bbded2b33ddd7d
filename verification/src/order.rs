use vstd::prelude::*;
use crate::types::OpId;

verus! {

/// A strict total order over operation identifiers, the same on every
/// replica. The mark state machine keeps its open spans in this order and
/// resolves overlaps by it.
pub trait OpOrder {
    /// `a` comes strictly before `b`.
    spec fn precedes(&self, a: OpId, b: OpId) -> bool;

    /// Of two identifiers exactly one holds: they are equal, the first
    /// precedes the second, or the second precedes the first.
    proof fn order_is_total(&self, a: OpId, b: OpId)
        ensures
            a == b || self.precedes(a, b) || self.precedes(b, a),
            !(self.precedes(a, b) && self.precedes(b, a)),
            a == b ==> !self.precedes(a, b),
    ;

    proof fn order_is_transitive(&self, a: OpId, b: OpId, c: OpId)
        requires
            self.precedes(a, b),
            self.precedes(b, c),
        ensures
            self.precedes(a, c),
    ;

    /// Decides `precedes`.
    fn less(&self, a: OpId, b: OpId) -> (r: bool)
        ensures
            r == self.precedes(a, b),
    ;
}

/// The usual order: by counter, ties broken by actor.
#[derive(Debug, Clone, Copy, Default)]
pub struct LamportOrder;

impl LamportOrder {
    pub fn new() -> (r: Self) {
        LamportOrder
    }

    /// Compares two identifiers by counter, then by actor.
    pub fn lamport_cmp(&self, left: OpId, right: OpId) -> (r: std::cmp::Ordering)
        ensures
            (r is Less) == self.precedes(left, right),
            (r is Equal) == (left == right),
            (r is Greater) == self.precedes(right, left),
    {
        if left.counter < right.counter {
            std::cmp::Ordering::Less
        } else if left.counter > right.counter {
            std::cmp::Ordering::Greater
        } else if left.actor < right.actor {
            std::cmp::Ordering::Less
        } else if left.actor > right.actor {
            std::cmp::Ordering::Greater
        } else {
            std::cmp::Ordering::Equal
        }
    }
}

impl OpOrder for LamportOrder {
    open spec fn precedes(&self, a: OpId, b: OpId) -> bool {
        a.counter < b.counter || (a.counter == b.counter && a.actor < b.actor)
    }

    proof fn order_is_total(&self, a: OpId, b: OpId) {
    }

    proof fn order_is_transitive(&self, a: OpId, b: OpId, c: OpId) {
    }

    fn less(&self, a: OpId, b: OpId) -> (r: bool) {
        matches!(self.lamport_cmp(a, b), std::cmp::Ordering::Less)
    }
}

} // verus!
