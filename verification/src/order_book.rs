//! The book: an ask side, a bid side, and the ids of all resting orders.
use std::collections::HashMap;
use vstd::prelude::*;
use crate::book_side::BookSide;
use crate::error::OrderBookError;
use crate::fill::{filled, filled_qty, has_id, lemma_has_id_push, remaining, total_qty};
use crate::ladder::{
    is_best, ladder_ok, lemma_drained_rests, lemma_with_order_rests, lemma_without_order_absent,
    lemma_without_order_rests, level_at, rests, with_level, with_order, without_order, Ladder,
};
use crate::order::Order;
use crate::side::Side;
use crate::{OrderId, Price, Qty};

verus! {

broadcast use vstd::std_specs::hash::group_hash_axioms;

/// Forgets the owners of the orders that a drain of `side` used up: those
/// that gave a piece and rest there no more.
fn forget_consumed(owners: &mut HashMap<OrderId, Side>, side: &BookSide, pieces: &Vec<Order>)
    requires
        side.wf(),
    ensures
        forall|id: OrderId| #[trigger]
            final(owners)@.contains_key(id) <==> old(owners)@.contains_key(id) && (has_id(
                pieces@,
                id,
            ) ==> rests(side@, id)),
        forall|id: OrderId| #[trigger]
            final(owners)@.contains_key(id) ==> final(owners)@[id] == old(owners)@[id],
{
    let mut i: usize = 0;
    while i < pieces.len()
        invariant
            i <= pieces.len(),
            side.wf(),
            forall|id: OrderId| #[trigger]
                owners@.contains_key(id) <==> old(owners)@.contains_key(id) && (has_id(
                    pieces@.take(i as int),
                    id,
                ) ==> rests(side@, id)),
            forall|id: OrderId| #[trigger]
                owners@.contains_key(id) ==> owners@[id] == old(owners)@[id],
        decreases pieces.len() - i,
    {
        let id: OrderId = pieces[i].id;
        let ghost known = owners@;
        if !side.contains(id) {
            owners.remove(&id);
        }
        proof {
            let shorter = pieces@.take(i as int);
            let longer = pieces@.take(i + 1);
            assert(longer =~= shorter.push(pieces@[i as int]));
            assert forall|x: OrderId| #[trigger]
                owners@.contains_key(x) <==> old(owners)@.contains_key(x) && (has_id(longer, x)
                    ==> rests(side@, x)) by {
                lemma_has_id_push(shorter, pieces@[i as int], x);
                assert(known.contains_key(x) <==> old(owners)@.contains_key(x) && (has_id(
                    shorter,
                    x,
                ) ==> rests(side@, x)));
            }
        }
        i = i + 1;
    }
    assert(pieces@.take(pieces@.len() as int) =~= pieces@);
}

/// A limit order book for one instrument.
pub struct OrderBook {
    /// The resting asks.
    asks: BookSide,
    /// The resting bids.
    bids: BookSide,
    /// For each resting order, the side on which it rests.
    owners: HashMap<OrderId, Side>,
}

impl OrderBook {
    /// The price ladder of `side`: the orders resting at each active price,
    /// earliest first.
    pub closed spec fn levels(&self, side: Side) -> Ladder {
        match side {
            Side::Ask => self.asks@,
            Side::Bid => self.bids@,
        }
    }

    /// Whether an order with the id `id` rests in the book.
    pub open spec fn knows(&self, id: OrderId) -> bool {
        rests(self.levels(Side::Ask), id) || rests(self.levels(Side::Bid), id)
    }

    /// The invariant of a book: both sides are well formed, each holds the
    /// orders of its own side, and the book knows of every resting order on
    /// which side it rests, and of no other id.
    pub closed spec fn wf(&self) -> bool {
        &&& self.asks.wf()
        &&& self.asks.side() == Side::Ask
        &&& self.bids.wf()
        &&& self.bids.side() == Side::Bid
        &&& forall|id: OrderId| #[trigger]
            self.owners@.contains_key(id) ==> rests(self.levels(self.owners@[id]), id)
        &&& forall|id: OrderId, side: Side| #[trigger]
            rests(self.levels(side), id) ==> self.owners@.contains_key(id) && self.owners@[id]
                == side
    }

    /// In a well-formed book both ladders are sound, each level's total fits
    /// the quantity type and is positive, and no id rests on both sides.
    pub proof fn lemma_wf_view(&self)
        requires
            self.wf(),
        ensures
            ladder_ok(self.levels(Side::Ask), Side::Ask),
            ladder_ok(self.levels(Side::Bid), Side::Bid),
            forall|side: Side, price: Price| #[trigger]
                self.levels(side).contains_key(price) ==> 0 < total_qty(self.levels(side)[price])
                    <= u64::MAX,
            forall|id: OrderId|
                !(rests(self.levels(Side::Ask), id) && rests(self.levels(Side::Bid), id)),
    {
        self.asks.lemma_wf_view();
        self.bids.lemma_wf_view();
        assert forall|id: OrderId|
            !(rests(self.levels(Side::Ask), id) && rests(self.levels(Side::Bid), id)) by {
            if rests(self.levels(Side::Ask), id) && rests(self.levels(Side::Bid), id) {
                assert(self.owners@[id] == Side::Ask);
                assert(self.owners@[id] == Side::Bid);
            }
        }
    }

    /// An empty book.
    #[must_use]
    pub fn new() -> (book: OrderBook)
        ensures
            book.wf(),
            book.levels(Side::Ask) == Map::<Price, Seq<Order>>::empty(),
            book.levels(Side::Bid) == Map::<Price, Seq<Order>>::empty(),
    {
        let book = OrderBook {
            asks: BookSide::new(Side::Ask),
            bids: BookSide::new(Side::Bid),
            owners: HashMap::new(),
        };
        proof {
            assert forall|id: OrderId, side: Side| !rests(book.levels(side), id) by {
                assert(book.levels(side) == Map::<Price, Seq<Order>>::empty());
            }
        }
        book
    }

    /// Whether an order with the id `id` rests in the book.
    pub fn contains(&self, id: OrderId) -> (found: bool)
        requires
            self.wf(),
        ensures
            found == self.knows(id),
    {
        proof {
            if self.owners@.contains_key(id) {
                assert(rests(self.levels(self.owners@[id]), id));
            }
            if rests(self.levels(Side::Ask), id) {
                assert(self.owners@.contains_key(id));
            }
            if rests(self.levels(Side::Bid), id) {
                assert(self.owners@.contains_key(id));
            }
        }
        self.owners.contains_key(&id)
    }

    /// Lets `order` rest in the book, last at its price on its side.
    ///
    /// An id that rests already is refused as a duplicate, and the book
    /// stays as it is. The order must have quantity, and the total at its
    /// price must still fit the quantity type with it.
    pub fn insert(&mut self, order: Order) -> (done: Result<(), OrderBookError>)
        requires
            old(self).wf(),
            order.qty > 0,
            total_qty(level_at(old(self).levels(order.side), order.price)) + order.qty <= u64::MAX,
        ensures
            final(self).wf(),
            final(self).levels(order.side.opposite()) == old(self).levels(order.side.opposite()),
            match done {
                Ok(_) => {
                    &&& !old(self).knows(order.id)
                    &&& final(self).levels(order.side) == with_order(
                        old(self).levels(order.side),
                        order,
                    )
                },
                Err(e) => {
                    &&& old(self).knows(order.id)
                    &&& e == OrderBookError::DuplicateOrderId(order.id)
                    &&& final(self).levels(order.side) == old(self).levels(order.side)
                },
            },
    {
        let id: OrderId = order.id;
        if self.contains(id) {
            return Err(OrderBookError::DuplicateOrderId(id));
        }
        proof {
            old(self).lemma_wf_view();
            assert forall|x: OrderId|
                rests(with_order(old(self).levels(order.side), order), x) <==> rests(
                    old(self).levels(order.side),
                    x,
                ) || x == id by {
                lemma_with_order_rests(old(self).levels(order.side), order.side, order, x);
            }
        }
        match order.side {
            Side::Ask => self.asks.insert(&order),
            Side::Bid => self.bids.insert(&order),
        }
        self.owners.insert(id, order.side);
        proof {
            assert forall|x: OrderId| #[trigger] self.owners@.contains_key(x) implies rests(
                self.levels(self.owners@[x]),
                x,
            ) by {
                if x != id {
                    assert(rests(old(self).levels(old(self).owners@[x]), x));
                }
            }
            assert forall|x: OrderId, s: Side| #[trigger] rests(self.levels(s), x) implies self.owners@.contains_key(
                x,
            ) && self.owners@[x] == s by {
                if s == order.side {
                    if x != id {
                        assert(rests(old(self).levels(s), x));
                    }
                } else {
                    assert(s == order.side.opposite());
                    assert(rests(old(self).levels(s), x));
                }
            }
        }
        Ok(())
    }

    /// Cancels the order with the id `id`.
    ///
    /// The order leaves its level, and the others at that price keep their
    /// places. An id that does not rest in the book comes back as unknown,
    /// and the book stays as it is.
    pub fn remove(&mut self, id: OrderId) -> (done: Result<(), OrderBookError>)
        requires
            old(self).wf(),
        ensures
            final(self).wf(),
            match done {
                Ok(_) => {
                    &&& old(self).knows(id)
                    &&& !final(self).knows(id)
                    &&& forall|side: Side| #[trigger]
                        final(self).levels(side) == without_order(old(self).levels(side), id)
                },
                Err(e) => {
                    &&& !old(self).knows(id)
                    &&& e == OrderBookError::UnknownId(id)
                    &&& forall|side: Side| #[trigger]
                        final(self).levels(side) == old(self).levels(side)
                },
            },
    {
        proof {
            old(self).lemma_wf_view();
            if old(self).owners@.contains_key(id) {
                assert(rests(old(self).levels(old(self).owners@[id]), id));
            }
        }
        match self.owners.remove(&id) {
            Some(side) => {
                proof {
                    assert(rests(old(self).levels(side), id));
                    assert(!rests(old(self).levels(side.opposite()), id));
                    lemma_without_order_absent(
                        old(self).levels(side.opposite()),
                        side.opposite(),
                        id,
                    );
                    assert forall|x: OrderId|
                        rests(without_order(old(self).levels(side), id), x) <==> rests(
                            old(self).levels(side),
                            x,
                        ) && x != id by {
                        lemma_without_order_rests(old(self).levels(side), side, id, x);
                    }
                }
                match side {
                    Side::Ask => {
                        let _ = self.asks.remove(id);
                    },
                    Side::Bid => {
                        let _ = self.bids.remove(id);
                    },
                }
                proof {
                    assert forall|x: OrderId| #[trigger] self.owners@.contains_key(x) implies rests(
                        self.levels(self.owners@[x]),
                        x,
                    ) by {
                        assert(rests(old(self).levels(old(self).owners@[x]), x));
                    }
                    assert forall|x: OrderId, s: Side| #[trigger]
                        rests(self.levels(s), x) implies self.owners@.contains_key(x)
                        && self.owners@[x] == s by {
                        if s == side {
                            assert(rests(old(self).levels(s), x) && x != id);
                        } else {
                            assert(s == side.opposite());
                            assert(rests(old(self).levels(s), x));
                        }
                    }
                    assert forall|s: Side| #[trigger]
                        self.levels(s) == without_order(old(self).levels(s), id) by {
                        if s == side {
                        } else {
                            assert(s == side.opposite());
                        }
                    }
                }
                Ok(())
            },
            None => {
                assert(self.owners@ =~= old(self).owners@);
                Err(OrderBookError::UnknownId(id))
            },
        }
    }

    /// Lets `order` rest in the book; the same as [`OrderBook::insert`].
    pub fn try_insert(&mut self, order: Order) -> (done: Result<(), OrderBookError>)
        requires
            old(self).wf(),
            order.qty > 0,
            total_qty(level_at(old(self).levels(order.side), order.price)) + order.qty <= u64::MAX,
        ensures
            final(self).wf(),
            final(self).levels(order.side.opposite()) == old(self).levels(order.side.opposite()),
            match done {
                Ok(_) => {
                    &&& !old(self).knows(order.id)
                    &&& final(self).levels(order.side) == with_order(
                        old(self).levels(order.side),
                        order,
                    )
                },
                Err(e) => {
                    &&& old(self).knows(order.id)
                    &&& e == OrderBookError::DuplicateOrderId(order.id)
                    &&& final(self).levels(order.side) == old(self).levels(order.side)
                },
            },
    {
        self.insert(order)
    }

    /// Cancels the order with the id `id`; the same as [`OrderBook::remove`].
    pub fn try_remove(&mut self, order_id: OrderId) -> (done: Result<(), OrderBookError>)
        requires
            old(self).wf(),
        ensures
            final(self).wf(),
            match done {
                Ok(_) => {
                    &&& old(self).knows(order_id)
                    &&& !final(self).knows(order_id)
                    &&& forall|side: Side| #[trigger]
                        final(self).levels(side) == without_order(old(self).levels(side), order_id)
                },
                Err(e) => {
                    &&& !old(self).knows(order_id)
                    &&& e == OrderBookError::UnknownId(order_id)
                    &&& forall|side: Side| #[trigger]
                        final(self).levels(side) == old(self).levels(side)
                },
            },
    {
        self.remove(order_id)
    }

    /// The best active price of `side`, if any price is active there.
    ///
    /// The best ask is the highest active price and the best bid the lowest.
    /// Note that markets usually read it the other way round.
    pub fn get_best_price(&self, side: Side) -> (best: Option<&Price>)
        requires
            self.wf(),
        ensures
            match best {
                Some(price) => is_best(self.levels(side), side, *price),
                None => self.levels(side) == Map::<Price, Seq<Order>>::empty(),
            },
    {
        match side {
            Side::Ask => self.asks.get_best_price(),
            Side::Bid => self.bids.get_best_price(),
        }
    }

    /// The quantity resting at `price` on `side`, if the price is active there.
    pub fn get_total_qty(&self, price: Price, side: Side) -> (total: Option<Qty>)
        requires
            self.wf(),
        ensures
            match total {
                Some(qty) => self.levels(side).contains_key(price) && qty == total_qty(
                    self.levels(side)[price],
                ),
                None => !self.levels(side).contains_key(price),
            },
    {
        match side {
            Side::Ask => self.asks.get_total_qty(price),
            Side::Bid => self.bids.get_total_qty(price),
        }
    }

    /// Takes up to `qty` out of the level at `price` on `side`, earliest
    /// order first.
    ///
    /// Returns the pieces taken and their total, or nothing if the price is
    /// not active on that side. A total below `qty` means that the level
    /// held no more. Orders that are used up leave the book; an order that
    /// is only partly taken stays first at its price with what is left.
    pub fn get_orders_till_qty(&mut self, price: Price, side: Side, qty: Qty) -> (taken: Option<
        (Vec<Order>, Qty),
    >)
        requires
            old(self).wf(),
        ensures
            final(self).wf(),
            final(self).levels(side.opposite()) == old(self).levels(side.opposite()),
            match taken {
                Some((pieces, total)) => {
                    &&& old(self).levels(side).contains_key(price)
                    &&& pieces@ == filled(old(self).levels(side)[price], qty as nat)
                    &&& total == filled_qty(old(self).levels(side)[price], qty as nat)
                    &&& final(self).levels(side) == with_level(
                        old(self).levels(side),
                        price,
                        remaining(old(self).levels(side)[price], qty as nat),
                    )
                },
                None => {
                    &&& !old(self).levels(side).contains_key(price)
                    &&& final(self).levels(side) == old(self).levels(side)
                },
            },
    {
        let taken = match side {
            Side::Ask => self.asks.get_orders_till_qty(price, qty),
            Side::Bid => self.bids.get_orders_till_qty(price, qty),
        };
        match taken {
            Some((pieces, total)) => {
                match side {
                    Side::Ask => forget_consumed(&mut self.owners, &self.asks, &pieces),
                    Side::Bid => forget_consumed(&mut self.owners, &self.bids, &pieces),
                }
                proof {
                    old(self).lemma_wf_view();
                    let before = old(self).levels(side);
                    assert forall|x: OrderId| #[trigger] self.owners@.contains_key(x) implies rests(
                        self.levels(self.owners@[x]),
                        x,
                    ) by {
                        lemma_drained_rests(before, side, price, qty as nat, x);
                        assert(rests(old(self).levels(old(self).owners@[x]), x));
                    }
                    assert forall|x: OrderId, s: Side| #[trigger]
                        rests(self.levels(s), x) implies self.owners@.contains_key(x)
                        && self.owners@[x] == s by {
                        lemma_drained_rests(before, side, price, qty as nat, x);
                        crate::fill::lemma_drain_ids(before[price], qty as nat, x);
                        if s == side {
                            assert(rests(old(self).levels(s), x));
                        } else {
                            assert(s == side.opposite());
                            assert(rests(old(self).levels(s), x));
                            if has_id(pieces@, x) {
                                assert(has_id(before[price], x));
                                assert(rests(before, x));
                            }
                        }
                    }
                }
                Some((pieces, total))
            },
            None => {
                proof {
                    assert forall|s: Side| #[trigger] self.levels(s) == old(self).levels(s) by {
                        if s != side {
                            assert(s == side.opposite());
                        }
                    }
                }
                None
            },
        }
    }
}

impl Default for OrderBook {
    /// An empty book.
    fn default() -> (book: OrderBook)
        ensures
            book.wf(),
            book.levels(Side::Ask) == Map::<Price, Seq<Order>>::empty(),
            book.levels(Side::Bid) == Map::<Price, Seq<Order>>::empty(),
    {
        OrderBook::new()
    }
}

} // verus!
