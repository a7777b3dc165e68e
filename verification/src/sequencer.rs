//! A source of fresh order ids.
use vstd::prelude::*;
use crate::OrderId;

verus! {

/// Hands out order ids in increasing order, starting at 1, and never the same one twice.
///
/// A sequencer is owned by whoever assigns ids; two sequencers know nothing of each other.
pub struct Sequencer {
    next_id: OrderId,
}

impl Sequencer {
    /// The id that the next call of `get_next_id` returns.
    pub closed spec fn next(&self) -> OrderId {
        self.next_id
    }

    /// A sequencer whose first id is 1.
    pub fn new() -> (s: Sequencer)
        ensures
            s.next() == 1,
    {
        Sequencer { next_id: 1 }
    }

    /// Whether another id can be handed out.
    pub fn has_next(&self) -> (b: bool)
        ensures
            b == (self.next() < u64::MAX),
    {
        self.next_id < u64::MAX
    }

    /// Returns the next id. Every later id is larger.
    pub fn get_next_id(&mut self) -> (id: OrderId)
        requires
            old(self).next() < u64::MAX,
        ensures
            id == old(self).next(),
            final(self).next() == id + 1,
    {
        let id: OrderId = self.next_id;
        self.next_id = self.next_id + 1;
        id
    }
}

} // verus!
