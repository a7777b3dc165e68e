//! A limit order book for a single instrument.
//!
//! Resting orders are grouped by side and price. Within a price level they
//! are served first in, first out.
use vstd::prelude::*;

pub mod book_side;
pub mod error;
pub mod fill;
pub mod ladder;
pub mod order;
pub mod order_book;
pub mod price_level;
pub mod sequencer;
pub mod side;

pub use book_side::BookSide;
pub use error::OrderBookError;
pub use order::Order;
pub use order_book::OrderBook;
pub use price_level::PriceLevel;
pub use sequencer::Sequencer;
pub use side::Side;

verus! {

/// Identifier of an order, supplied by the caller and unique among resting orders.
pub type OrderId = u64;

/// Price of an order, in ticks.
pub type Price = u64;

/// Quantity of an order.
pub type Qty = u64;

} // verus!
