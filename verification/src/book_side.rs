//! All price levels of one side of a book.
//!
//! A side keeps its levels by price, an index from order id to the price at
//! which the order rests, and the active prices in order of preference.
use std::collections::HashMap;
use vstd::prelude::*;
use crate::error::OrderBookError;
use crate::fill::{
    filled, filled_qty, has_id, lemma_drain_ids, lemma_has_id_push, lemma_total_qty_positive,
    lemma_without_ids, remaining, total_qty, without,
};
use crate::ladder::{
    better, is_best, ladder_ok, lemma_drained, lemma_with_order, lemma_without_order, level_at,
    rests, rests_at, with_level, with_order, without_order, Ladder,
};
use crate::order::Order;
use crate::price_level::PriceLevel;
use crate::side::Side;
use crate::{OrderId, Price, Qty};

verus! {

broadcast use vstd::std_specs::hash::group_hash_axioms;

/// Prices in order of preference for `side`, the best first, none twice.
spec fn ranked(prices: Seq<Price>, side: Side) -> bool {
    forall|i: int, j: int| 0 <= i < j < prices.len() ==> better(side, prices[i], prices[j])
}

/// Whether `a` is a better price than `b` on `side`.
fn is_better(side: Side, a: Price, b: Price) -> (r: bool)
    ensures
        r == better(side, a, b),
{
    match side {
        Side::Ask => a > b,
        Side::Bid => a < b,
    }
}

/// Puts a new price at its place among the ranked prices.
fn rank_insert(prices: &mut Vec<Price>, side: Side, price: Price)
    requires
        ranked(old(prices)@, side),
        !old(prices)@.contains(price),
    ensures
        ranked(final(prices)@, side),
        forall|p: Price| final(prices)@.contains(p) <==> old(prices)@.contains(p) || p == price,
{
    let ghost before = prices@;
    let mut at: usize = 0;
    let mut placed = false;
    while !placed
        invariant
            prices@ == before,
            at <= before.len(),
            forall|i: int| 0 <= i < at ==> better(side, before[i], price),
            placed ==> at == before.len() || !better(side, before[at as int], price),
        decreases before.len() - at + (if placed { 0int } else { 1int }),
    {
        if at < prices.len() && is_better(side, prices[at], price) {
            at = at + 1;
        } else {
            placed = true;
        }
    }
    prices.insert(at, price);
    proof {
        let after = prices@;
        assert forall|j: int| at <= j < before.len() implies better(side, price, before[j]) by {
            assert(before.contains(before[j]));
            assert(before.contains(before[at as int]));
            if j > at {
                assert(better(side, before[at as int], before[j]));
            }
        }
        assert forall|i: int, j: int| 0 <= i < j < after.len() implies better(
            side,
            after[i],
            after[j],
        ) by {
            let i0 = if i < at { i } else { i - 1 };
            let j0 = if j < at { j } else { j - 1 };
            if i != at && j != at {
                assert(after[i] == before[i0] && after[j] == before[j0]);
            } else if i == at {
                assert(after[j] == before[j0]);
            } else {
                assert(after[i] == before[i0]);
            }
        }
        assert forall|p: Price| after.contains(p) <==> before.contains(p) || p == price by {
            if after.contains(p) {
                let i = choose|i: int| 0 <= i < after.len() && after[i] == p;
                if i < at {
                    assert(before[i] == p);
                } else if i > at {
                    assert(before[i - 1] == p);
                }
            }
            if before.contains(p) {
                let i = choose|i: int| 0 <= i < before.len() && before[i] == p;
                if i < at {
                    assert(after[i] == p);
                } else {
                    assert(after[i + 1] == p);
                }
            }
            assert(after[at as int] == price);
        }
    }
}

/// Takes a price out of the ranked prices.
fn rank_remove(prices: &mut Vec<Price>, side: Side, price: Price)
    requires
        ranked(old(prices)@, side),
    ensures
        ranked(final(prices)@, side),
        forall|p: Price| final(prices)@.contains(p) <==> old(prices)@.contains(p) && p != price,
{
    let ghost before = prices@;
    let mut at: usize = 0;
    while at < prices.len() && prices[at] != price
        invariant
            prices@ == before,
            at <= before.len(),
            forall|i: int| 0 <= i < at ==> before[i] != price,
        decreases before.len() - at,
    {
        at = at + 1;
    }
    if at < prices.len() {
        prices.remove(at);
        proof {
            let after = prices@;
            assert forall|i: int, j: int| 0 <= i < j < after.len() implies better(
                side,
                after[i],
                after[j],
            ) by {
                let i0 = if i < at { i } else { i + 1 };
                let j0 = if j < at { j } else { j + 1 };
                assert(after[i] == before[i0] && after[j] == before[j0]);
            }
            assert forall|p: Price| after.contains(p) <==> before.contains(p) && p != price by {
                if after.contains(p) {
                    let i = choose|i: int| 0 <= i < after.len() && after[i] == p;
                    let i0 = if i < at { i } else { i + 1 };
                    assert(before[i0] == p);
                    if i0 < at {
                        assert(better(side, before[i0], before[at as int]));
                    } else {
                        assert(better(side, before[at as int], before[i0]));
                    }
                }
                if before.contains(p) && p != price {
                    let i = choose|i: int| 0 <= i < before.len() && before[i] == p;
                    let i1 = if i < at { i } else { i - 1 };
                    assert(after[i1] == p);
                }
            }
        }
    }
}

/// The resting orders of one side, level by level.
pub struct BookSide {
    /// The level of each active price.
    price_levels: HashMap<Price, PriceLevel>,
    /// For each resting order, the price at which it rests.
    index: HashMap<OrderId, Price>,
    /// The side whose orders rest here.
    side: Side,
    /// The active prices, the best first.
    prices: Vec<Price>,
}

impl View for BookSide {
    type V = Ladder;

    /// The orders resting at each active price, earliest first.
    closed spec fn view(&self) -> Ladder {
        Map::new(
            |price: Price| self.price_levels@.contains_key(price),
            |price: Price| self.price_levels@[price]@,
        )
    }
}

impl BookSide {
    /// The side whose orders rest here.
    pub closed spec fn side(&self) -> Side {
        self.side
    }

    /// The invariant of a side: its levels are well formed and none is
    /// empty, the index knows exactly the resting orders, each with its
    /// price, and the ranked prices are exactly the active ones.
    pub closed spec fn wf(&self) -> bool {
        &&& forall|price: Price| #[trigger]
            self.price_levels@.contains_key(price) ==> self.price_levels@[price].wf()
        &&& ladder_ok(self@, self.side)
        &&& forall|id: OrderId| #[trigger]
            self.index@.contains_key(id) ==> rests_at(self@, id, self.index@[id])
        &&& forall|id: OrderId, price: Price| #[trigger]
            rests_at(self@, id, price) ==> self.index@.contains_key(id) && self.index@[id] == price
        &&& ranked(self.prices@, self.side)
        &&& forall|price: Price|
            self.prices@.contains(price) <==> self.price_levels@.contains_key(price)
    }

    /// On a well-formed side every active price has resting quantity, all
    /// orders are on the side's side and at their level's price, no id rests
    /// twice, and each level's total fits the quantity type.
    pub proof fn lemma_wf_view(&self)
        requires
            self.wf(),
        ensures
            ladder_ok(self@, self.side()),
            forall|price: Price| #[trigger]
                self@.contains_key(price) ==> 0 < total_qty(self@[price]) <= u64::MAX,
    {
        assert forall|price: Price| #[trigger] self@.contains_key(price) implies 0 < total_qty(
            self@[price],
        ) <= u64::MAX by {
            assert(self.price_levels@.contains_key(price));
            self.price_levels@[price].lemma_wf_view();
            lemma_total_qty_positive(self@[price]);
        }
    }

    /// A side without orders.
    pub fn new(side: Side) -> (book_side: BookSide)
        ensures
            book_side.wf(),
            book_side.side() == side,
            book_side@ == Map::<Price, Seq<Order>>::empty(),
    {
        let book_side = BookSide {
            price_levels: HashMap::new(),
            index: HashMap::new(),
            side,
            prices: Vec::new(),
        };
        assert(book_side@ =~= Map::<Price, Seq<Order>>::empty());
        book_side
    }

    /// The best active price, if any price is active.
    ///
    /// The best ask is the highest active price and the best bid the lowest.
    /// Note that markets usually read it the other way round.
    pub fn get_best_price(&self) -> (best: Option<&Price>)
        requires
            self.wf(),
        ensures
            match best {
                Some(price) => is_best(self@, self.side(), *price),
                None => self@ == Map::<Price, Seq<Order>>::empty(),
            },
    {
        if self.prices.len() == 0 {
            proof {
                assert forall|price: Price| !self.price_levels@.contains_key(price) by {
                    assert(!self.prices@.contains(price));
                }
                assert(self@ =~= Map::<Price, Seq<Order>>::empty());
            }
            None
        } else {
            proof {
                let first = self.prices@[0];
                assert(self.prices@.contains(first));
                assert forall|other: Price| #[trigger] self@.contains_key(other) implies !better(
                    self.side,
                    other,
                    first,
                ) by {
                    assert(self.prices@.contains(other));
                    let j = choose|j: int| 0 <= j < self.prices@.len() && self.prices@[j] == other;
                    if j > 0 {
                        assert(better(self.side, self.prices@[0], self.prices@[j]));
                    }
                }
            }
            Some(&self.prices[0])
        }
    }

    /// The quantity resting at `price`, if the price is active.
    pub fn get_total_qty(&self, price: Price) -> (total: Option<Qty>)
        requires
            self.wf(),
        ensures
            match total {
                Some(qty) => self@.contains_key(price) && qty == total_qty(self@[price]),
                None => !self@.contains_key(price),
            },
    {
        match self.price_levels.get(&price) {
            Some(level) => Some(level.get_total_qty()),
            None => None,
        }
    }

    /// Whether an order with the id `id` rests on this side.
    pub fn contains(&self, id: OrderId) -> (found: bool)
        requires
            self.wf(),
        ensures
            found == rests(self@, id),
    {
        proof {
            if self.index@.contains_key(id) {
                assert(rests_at(self@, id, self.index@[id]));
            }
            if rests(self@, id) {
                let price = choose|price: Price| #[trigger]
                    self@.contains_key(price) && has_id(self@[price], id);
                assert(rests_at(self@, id, price));
            }
        }
        self.index.contains_key(&id)
    }

    /// Whether `price` is active.
    pub fn has_level(&self, price: Price) -> (active: bool)
        requires
            self.wf(),
        ensures
            active == self@.contains_key(price),
    {
        self.price_levels.contains_key(&price)
    }

    /// The number of active prices.
    pub fn num_levels(&self) -> (n: usize)
        requires
            self.wf(),
        ensures
            n == self@.dom().len(),
    {
        proof {
            let prices = self.prices@;
            assert forall|i: int, j: int| 0 <= i < prices.len() && 0 <= j < prices.len() && i
                != j implies prices[i] != prices[j] by {
                if i < j {
                    assert(better(self.side, prices[i], prices[j]));
                } else {
                    assert(better(self.side, prices[j], prices[i]));
                }
            }
            prices.unique_seq_to_set();
            assert(prices.to_set() =~= self@.dom()) by {
                assert forall|price: Price| prices.to_set().contains(price) <==> self@.dom().contains(
                    price,
                ) by {
                    assert(prices.to_set().contains(price) <==> prices.contains(price));
                }
            }
        }
        self.prices.len()
    }

    /// Whether no order rests on this side.
    pub fn is_empty(&self) -> (empty: bool)
        requires
            self.wf(),
        ensures
            empty == (self@ == Map::<Price, Seq<Order>>::empty()),
    {
        proof {
            if self.prices@.len() == 0 {
                assert forall|price: Price| !self.price_levels@.contains_key(price) by {
                    assert(!self.prices@.contains(price));
                }
                assert(self@ =~= Map::<Price, Seq<Order>>::empty());
            } else {
                assert(self.prices@.contains(self.prices@[0]));
                assert(self@.contains_key(self.prices@[0]));
            }
        }
        self.prices.len() == 0
    }

    /// Lets `order` rest on this side, last at its price.
    ///
    /// The order must be of this side, have quantity, and carry an id that
    /// does not rest here yet; the total at its price must still fit the
    /// quantity type with it.
    pub fn insert(&mut self, order: &Order)
        requires
            old(self).wf(),
            order.side == old(self).side(),
            order.qty > 0,
            !rests(old(self)@, order.id),
            total_qty(level_at(old(self)@, order.price)) + order.qty <= u64::MAX,
        ensures
            final(self).wf(),
            final(self).side() == old(self).side(),
            final(self)@ == with_order(old(self)@, *order),
    {
        let price: Price = order.price;
        let id: OrderId = order.id;
        proof {
            lemma_with_order(old(self)@, self.side, *order);
            if old(self)@.contains_key(price) && has_id(old(self)@[price], id) {
                assert(rests(old(self)@, id));
            }
        }
        match self.price_levels.remove(&price) {
            Some(mut level) => {
                level.insert(order);
                self.price_levels.insert(price, level);
            },
            None => {
                let mut level = PriceLevel::new();
                level.insert(order);
                self.price_levels.insert(price, level);
                rank_insert(&mut self.prices, self.side, price);
            },
        }
        self.index.insert(id, price);
        proof {
            assert(self@ =~= with_order(old(self)@, *order));
            assert forall|x: OrderId| #[trigger] self.index@.contains_key(x) implies rests_at(
                self@,
                x,
                self.index@[x],
            ) by {
                if x != id {
                    assert(rests_at(old(self)@, x, old(self).index@[x]));
                }
            }
            assert forall|x: OrderId, p: Price| #[trigger] rests_at(self@, x, p) implies self.index@.contains_key(
                x,
            ) && self.index@[x] == p by {
                if rests_at(old(self)@, x, p) {
                    assert(rests(old(self)@, x));
                }
            }
        }
    }

    /// Cancels the order with the id `id`.
    ///
    /// The order leaves its level, and the level leaves the side if nothing
    /// else rests there. If no such order rests here, the side stays as it
    /// is and the id comes back as unknown.
    pub fn remove(&mut self, id: OrderId) -> (done: Result<(), OrderBookError>)
        requires
            old(self).wf(),
        ensures
            final(self).wf(),
            final(self).side() == old(self).side(),
            rests(old(self)@, id) ==> done == Ok::<(), OrderBookError>(()) && final(self)@
                == without_order(old(self)@, id),
            !rests(old(self)@, id) ==> done == Err::<(), OrderBookError>(
                OrderBookError::UnknownId(id),
            ) && final(self)@ == old(self)@,
    {
        proof {
            if old(self).index@.contains_key(id) {
                assert(rests_at(old(self)@, id, old(self).index@[id]));
            }
            if rests(old(self)@, id) {
                let price = choose|price: Price| #[trigger]
                    old(self)@.contains_key(price) && has_id(old(self)@[price], id);
                assert(rests_at(old(self)@, id, price));
            }
        }
        match self.index.remove(&id) {
            None => {
                assert(self.index@ =~= old(self).index@);
                Err(OrderBookError::UnknownId(id))
            },
            Some(price) => {
                proof {
                    lemma_without_order(old(self)@, self.side, id, price);
                    old(self).price_levels@[price].lemma_wf_view();
                    lemma_without_ids(old(self)@[price], id, id);
                    lemma_total_qty_positive(without(old(self)@[price], id));
                }
                match self.price_levels.remove(&price) {
                    Some(mut level) => {
                        let _ = level.remove(id);
                        if level.get_total_qty() == 0 {
                            rank_remove(&mut self.prices, self.side, price);
                        } else {
                            self.price_levels.insert(price, level);
                        }
                    },
                    None => {},
                }
                proof {
                    assert(self@ =~= without_order(old(self)@, id));
                    assert forall|x: OrderId| #[trigger] self.index@.contains_key(x) implies rests_at(
                        self@,
                        x,
                        self.index@[x],
                    ) by {
                        assert(rests_at(old(self)@, x, old(self).index@[x]));
                    }
                    assert forall|x: OrderId, p: Price| #[trigger] rests_at(self@, x, p) implies self.index@.contains_key(
                        x,
                    ) && self.index@[x] == p by {
                        assert(rests_at(old(self)@, x, p));
                    }
                }
                Ok(())
            },
        }
    }

    /// Takes up to `qty` out of the level at `price`, earliest order first.
    ///
    /// Returns the pieces taken and their total, or nothing if the price is
    /// not active. Orders that are used up leave the side; an order that is
    /// only partly taken stays first at its price with what is left of it.
    /// A level that is emptied leaves the side, so that its price can no
    /// longer be the best.
    pub fn get_orders_till_qty(&mut self, price: Price, qty: Qty) -> (taken: Option<
        (Vec<Order>, Qty),
    >)
        requires
            old(self).wf(),
        ensures
            final(self).wf(),
            final(self).side() == old(self).side(),
            match taken {
                Some((pieces, total)) => {
                    &&& old(self)@.contains_key(price)
                    &&& pieces@ == filled(old(self)@[price], qty as nat)
                    &&& total == filled_qty(old(self)@[price], qty as nat)
                    &&& final(self)@ == with_level(
                        old(self)@,
                        price,
                        remaining(old(self)@[price], qty as nat),
                    )
                },
                None => !old(self)@.contains_key(price) && final(self)@ == old(self)@,
            },
    {
        match self.price_levels.remove(&price) {
            None => {
                assert(self.price_levels@ =~= old(self).price_levels@);
                assert(self@ =~= old(self)@);
                None
            },
            Some(mut level) => {
                let ghost rested = level@;
                let (pieces, total) = level.get_orders_till_qty(qty);
                let ghost left = level@;
                proof {
                    lemma_drained(old(self)@, self.side, price, qty as nat);
                    level.lemma_wf_view();
                    lemma_total_qty_positive(left);
                }
                let mut i: usize = 0;
                while i < pieces.len()
                    invariant
                        i <= pieces.len(),
                        level.wf(),
                        level@ == left,
                        forall|x: OrderId| #[trigger]
                            self.index@.contains_key(x) <==> old(self).index@.contains_key(x) && !(
                            has_id(pieces@.take(i as int), x) && !has_id(left, x)),
                        forall|x: OrderId| #[trigger]
                            self.index@.contains_key(x) ==> self.index@[x] == old(self).index@[x],
                        self.price_levels@ == old(self).price_levels@.remove(price),
                        self.prices@ == old(self).prices@,
                        self.side == old(self).side,
                    decreases pieces.len() - i,
                {
                    let id: OrderId = pieces[i].id;
                    let ghost index = self.index@;
                    if !level.contains(id) {
                        self.index.remove(&id);
                    }
                    proof {
                        let shorter = pieces@.take(i as int);
                        let longer = pieces@.take(i + 1);
                        assert(longer =~= shorter.push(pieces@[i as int]));
                        assert forall|x: OrderId| #[trigger]
                            self.index@.contains_key(x) <==> old(self).index@.contains_key(x) && !(
                            has_id(longer, x) && !has_id(left, x)) by {
                            lemma_has_id_push(shorter, pieces@[i as int], x);
                            assert(index.contains_key(x) <==> old(self).index@.contains_key(x)
                                && !(has_id(shorter, x) && !has_id(left, x)));
                        }
                    }
                    i = i + 1;
                }
                if level.get_total_qty() == 0 {
                    rank_remove(&mut self.prices, self.side, price);
                } else {
                    self.price_levels.insert(price, level);
                }
                proof {
                    assert(pieces@.take(pieces@.len() as int) =~= pieces@);
                    assert(self@ =~= with_level(old(self)@, price, left));
                    assert forall|x: OrderId| #[trigger] self.index@.contains_key(x) implies rests_at(
                        self@,
                        x,
                        self.index@[x],
                    ) by {
                        assert(old(self).index@.contains_key(x));
                        assert(rests_at(old(self)@, x, old(self).index@[x]));
                        lemma_drain_ids(rested, qty as nat, x);
                    }
                    assert forall|x: OrderId, p: Price| #[trigger] rests_at(self@, x, p) implies self.index@.contains_key(
                        x,
                    ) && self.index@[x] == p by {
                        assert(rests_at(old(self)@, x, p));
                        assert(old(self).index@.contains_key(x) && old(self).index@[x] == p);
                        lemma_drain_ids(rested, qty as nat, x);
                        if p == price {
                            assert(has_id(left, x));
                        } else if has_id(pieces@, x) {
                            assert(has_id(rested, x));
                            assert(rests_at(old(self)@, x, price));
                        }
                        assert(!(has_id(pieces@, x) && !has_id(left, x)));
                        assert(self.index@.contains_key(x));
                    }
                }
                Some((pieces, total))
            },
        }
    }
}

} // verus!
