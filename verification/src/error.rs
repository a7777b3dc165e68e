//! What the book reports when it cannot carry out a request.
use vstd::prelude::*;
use crate::OrderId;

verus! {

/// The two ways in which a request can fail. Neither leaves any trace in the book.
#[derive(Clone, Copy, Debug, PartialEq, Eq, Structural)]
pub enum OrderBookError {
    /// No resting order has this id.
    UnknownId(OrderId),
    /// A resting order already has this id.
    DuplicateOrderId(OrderId),
}

} // verus!
