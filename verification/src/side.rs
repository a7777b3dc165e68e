//! The two sides of a book.
use vstd::prelude::*;
use vstd::std_specs::ops::NotSpecImpl;

verus! {

/// Ask or Bid.
#[derive(Clone, Copy, Debug, PartialEq, Eq, Structural)]
pub enum Side {
    /// The selling side.
    Ask,
    /// The buying side.
    Bid,
}

impl Side {
    /// The contra side, as contracts speak of it.
    pub open spec fn spec_opposite(self) -> Side {
        match self {
            Side::Ask => Side::Bid,
            Side::Bid => Side::Ask,
        }
    }

    /// The contra side: bid for ask, ask for bid.
    #[verifier::when_used_as_spec(spec_opposite)]
    pub fn opposite(self) -> (other: Side)
        ensures
            other == self.spec_opposite(),
    {
        match self {
            Side::Ask => Side::Bid,
            Side::Bid => Side::Ask,
        }
    }

    /// Negation is an involution without a fixed point: the contra side of
    /// the contra side is the side itself, and no side is its own contra side.
    pub proof fn lemma_opposite_involutive(self)
        ensures
            self.opposite().opposite() == self,
            self.opposite() != self,
    {
    }
}

impl NotSpecImpl for Side {
    open spec fn obeys_not_spec() -> bool {
        true
    }

    open spec fn not_req(self) -> bool {
        true
    }

    open spec fn not_spec(self) -> Side {
        self.opposite()
    }
}

impl std::ops::Not for Side {
    type Output = Side;

    /// The contra side.
    fn not(self) -> (other: Side) {
        self.opposite()
    }
}

} // verus!
