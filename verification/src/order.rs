//! A single limit order.
use std::cmp::Ordering;
use vstd::prelude::*;
use vstd::std_specs::cmp::PartialOrdSpecImpl;
use crate::side::Side;
use crate::{OrderId, Price, Qty};

verus! {

/// A limit order: who it is, where it rests, and how much of it is left.
///
/// Two orders of one side compare by price, the way a match would pick
/// between them: of two asks the cheaper is the greater, of two bids the
/// dearer. Orders at one price are served by age, which no order carries, so
/// two different orders at one price do not compare, and neither do orders
/// of different sides.
#[derive(Clone, Copy, Debug, PartialEq, Eq, Structural)]
pub struct Order {
    pub price: Price,
    pub qty: Qty,
    pub side: Side,
    pub id: OrderId,
}

impl Order {
    /// The same order with another quantity.
    pub open spec fn with_qty(self, qty: Qty) -> Order {
        Order { price: self.price, qty, side: self.side, id: self.id }
    }

    /// Makes an order from its four parts.
    pub fn new(price: Price, qty: Qty, side: Side, id: OrderId) -> (order: Order)
        ensures
            order == (Order { price, qty, side, id }),
    {
        Order { price, qty, side, id }
    }

    /// Gives the order the id `order_id` and leaves the rest as it was.
    pub fn assign_order_id(&mut self, order_id: OrderId)
        ensures
            *final(self) == (Order {
                price: old(self).price,
                qty: old(self).qty,
                side: old(self).side,
                id: order_id,
            }),
    {
        self.id = order_id;
    }
}

impl Default for Order {
    /// An ask for 420 at 69, with id 1.
    fn default() -> (order: Order)
        ensures
            order == (Order { price: 69, qty: 420, side: Side::Ask, id: 1 }),
    {
        Order { price: 69, qty: 420, side: Side::Ask, id: 1 }
    }
}

impl PartialOrdSpecImpl for Order {
    open spec fn obeys_partial_cmp_spec() -> bool {
        true
    }

    open spec fn partial_cmp_spec(&self, other: &Order) -> Option<Ordering> {
        if self.side != other.side {
            None
        } else if self.price < other.price {
            match self.side {
                Side::Ask => Some(Ordering::Greater),
                Side::Bid => Some(Ordering::Less),
            }
        } else if self.price > other.price {
            match self.side {
                Side::Ask => Some(Ordering::Less),
                Side::Bid => Some(Ordering::Greater),
            }
        } else if *self == *other {
            Some(Ordering::Equal)
        } else {
            None
        }
    }
}

impl PartialOrd for Order {
    fn partial_cmp(&self, other: &Order) -> (rank: Option<Ordering>) {
        if self.side != other.side {
            None
        } else if self.price < other.price {
            match self.side {
                Side::Ask => Some(Ordering::Greater),
                Side::Bid => Some(Ordering::Less),
            }
        } else if self.price > other.price {
            match self.side {
                Side::Ask => Some(Ordering::Less),
                Side::Bid => Some(Ordering::Greater),
            }
        } else if *self == *other {
            Some(Ordering::Equal)
        } else {
            None
        }
    }
}

} // verus!
