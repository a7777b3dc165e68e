//! One side of a book as a price ladder: for each price that has resting
//! quantity, the orders resting there in time priority.
use vstd::prelude::*;
use crate::fill::{
    filled, has_id, lemma_drain_all, lemma_drain_ids, lemma_has_id_push, lemma_push_ok, lemma_remaining_ok,
    lemma_remaining_shape, lemma_total_qty_positive, lemma_without_absent, lemma_without_ids,
    lemma_without_one, remaining, resting_ok, total_qty, without,
};
use crate::order::Order;
use crate::side::Side;
use crate::{OrderId, Price};

verus! {

/// The orders resting at each active price, earliest first.
pub type Ladder = Map<Price, Seq<Order>>;

/// The orders resting at `price`; none where the price is not active.
pub open spec fn level_at(ladder: Ladder, price: Price) -> Seq<Order> {
    if ladder.contains_key(price) {
        ladder[price]
    } else {
        Seq::empty()
    }
}

/// Whether an order with the id `id` rests at some price.
pub open spec fn rests(ladder: Ladder, id: OrderId) -> bool {
    exists|price: Price| #[trigger] ladder.contains_key(price) && has_id(ladder[price], id)
}

/// Whether an order with the id `id` rests at `price`.
pub open spec fn rests_at(ladder: Ladder, id: OrderId, price: Price) -> bool {
    ladder.contains_key(price) && has_id(ladder[price], id)
}

/// The ladder with the orders `orders` at `price`. A price with no orders is
/// not active.
pub open spec fn with_level(ladder: Ladder, price: Price, orders: Seq<Order>) -> Ladder {
    if orders.len() == 0 {
        ladder.remove(price)
    } else {
        ladder.insert(price, orders)
    }
}

/// The ladder after `order` came to rest: last at its price.
pub open spec fn with_order(ladder: Ladder, order: Order) -> Ladder {
    ladder.insert(order.price, level_at(ladder, order.price).push(order))
}

/// The ladder after the order with the id `id` was cancelled: it is gone
/// from its level, and a level that it leaves empty is gone too.
pub open spec fn without_order(ladder: Ladder, id: OrderId) -> Ladder {
    Map::new(
        |price: Price| ladder.contains_key(price) && without(ladder[price], id).len() > 0,
        |price: Price| without(ladder[price], id),
    )
}

/// Whether `a` is a better price than `b` on `side`: the higher one for
/// asks, the lower one for bids.
pub open spec fn better(side: Side, a: Price, b: Price) -> bool {
    match side {
        Side::Ask => a > b,
        Side::Bid => a < b,
    }
}

/// Whether `price` is the best active price of `side`: it is active, and no
/// active price is better.
pub open spec fn is_best(ladder: Ladder, side: Side, price: Price) -> bool {
    &&& ladder.contains_key(price)
    &&& forall|other: Price| #[trigger] ladder.contains_key(other) ==> !better(side, other, price)
}

/// What holds of the ladder of a side: every active price has orders, all of
/// them at that price and on that side, each with quantity left, and no id
/// rests twice, at one price or at two.
pub open spec fn ladder_ok(ladder: Ladder, side: Side) -> bool {
    &&& forall|price: Price| #[trigger]
        ladder.contains_key(price) ==> {
            &&& ladder[price].len() > 0
            &&& resting_ok(ladder[price])
            &&& forall|i: int|
                0 <= i < ladder[price].len() ==> (#[trigger] ladder[price][i]).price == price
                    && ladder[price][i].side == side
        }
    &&& forall|id: OrderId, p: Price, q: Price|
        rests_at(ladder, id, p) && rests_at(ladder, id, q) ==> p == q
}

/// An order that comes to rest on a sound ladder leaves it sound, and changes
/// where ids rest by its own id at its own price only.
pub proof fn lemma_with_order(ladder: Ladder, side: Side, order: Order)
    requires
        ladder_ok(ladder, side),
        order.side == side,
        order.qty > 0,
        !rests(ladder, order.id),
    ensures
        ladder_ok(with_order(ladder, order), side),
        forall|id: OrderId, price: Price|
            #![trigger rests_at(with_order(ladder, order), id, price)]
            #![trigger rests_at(ladder, id, price)]
            rests_at(with_order(ladder, order), id, price) <==> rests_at(ladder, id, price) || (id
                == order.id && price == order.price),
{
    let after = with_order(ladder, order);
    let level = level_at(ladder, order.price);
    assert(!has_id(level, order.id)) by {
        if ladder.contains_key(order.price) && has_id(ladder[order.price], order.id) {
            assert(rests(ladder, order.id));
        }
    }
    assert(resting_ok(level)) by {
        if ladder.contains_key(order.price) {
            assert(resting_ok(ladder[order.price]));
        }
    }
    lemma_push_ok(level, order);
    assert forall|id: OrderId, price: Price| rests_at(after, id, price) <==> rests_at(
        ladder,
        id,
        price,
    ) || (id == order.id && price == order.price) by {
        if price == order.price {
            lemma_has_id_push(level, order, id);
        }
    }
    assert forall|price: Price| #[trigger] after.contains_key(price) implies {
        &&& after[price].len() > 0
        &&& resting_ok(after[price])
        &&& forall|i: int|
            0 <= i < after[price].len() ==> (#[trigger] after[price][i]).price == price
                && after[price][i].side == side
    } by {
        if price == order.price {
            assert forall|i: int| 0 <= i < after[price].len() implies (#[trigger] after[price][i]).price
                == price && after[price][i].side == side by {
                if i < level.len() {
                    assert(after[price][i] == ladder[price][i]);
                }
            }
        } else {
            assert(ladder.contains_key(price));
        }
    }
    assert forall|id: OrderId, p: Price, q: Price|
        rests_at(after, id, p) && rests_at(after, id, q) implies p == q by {
        if rests_at(ladder, id, p) {
            assert(ladder.contains_key(p) && has_id(ladder[p], id));
            assert(rests(ladder, id));
        }
        if rests_at(ladder, id, q) {
            assert(ladder.contains_key(q) && has_id(ladder[q], id));
            assert(rests(ladder, id));
        }
    }
}

/// Cancelling an order that rests at `price` changes that level alone. The
/// ladder stays sound, and the cancelled id rests nowhere any more, while
/// every other id rests where it did.
pub proof fn lemma_without_order(ladder: Ladder, side: Side, id: OrderId, price: Price)
    requires
        ladder_ok(ladder, side),
        rests_at(ladder, id, price),
    ensures
        without_order(ladder, id) == with_level(ladder, price, without(ladder[price], id)),
        ladder_ok(without_order(ladder, id), side),
        forall|other: OrderId, p: Price|
            #![trigger rests_at(without_order(ladder, id), other, p)]
            #![trigger rests_at(ladder, other, p)]
            rests_at(without_order(ladder, id), other, p) <==> rests_at(ladder, other, p) && other
                != id,
{
    let after = without_order(ladder, id);
    let level = ladder[price];
    let left = without(level, id);
    let at = choose|i: int| 0 <= i < level.len() && (#[trigger] level[i]).id == id;
    lemma_without_one(level, at);
    lemma_without_ids(level, id, id);
    assert forall|p: Price| ladder.contains_key(p) && p != price implies #[trigger] without(
        ladder[p],
        id,
    ) == ladder[p] by {
        if has_id(ladder[p], id) {
            assert(rests_at(ladder, id, p));
        }
        lemma_without_absent(ladder[p], id);
    }
    assert(after =~= with_level(ladder, price, left));
    assert forall|other: OrderId, p: Price| rests_at(after, other, p) <==> rests_at(
        ladder,
        other,
        p,
    ) && other != id by {
        if p == price {
            lemma_without_ids(level, id, other);
            if left.len() == 0 && has_id(left, other) {
                let i = choose|i: int| 0 <= i < left.len() && (#[trigger] left[i]).id == other;
            }
        } else if rests_at(ladder, other, p) && other == id {
            assert(rests_at(ladder, id, price));
        }
    }
    assert forall|p: Price| #[trigger] after.contains_key(p) implies {
        &&& after[p].len() > 0
        &&& resting_ok(after[p])
        &&& forall|i: int|
            0 <= i < after[p].len() ==> (#[trigger] after[p][i]).price == p && after[p][i].side
                == side
    } by {
        assert(ladder.contains_key(p));
        if p == price {
            assert forall|i: int| 0 <= i < left.len() implies (#[trigger] left[i]).price == p
                && left[i].side == side by {
                let i0 = if i < at { i } else { i + 1 };
                assert(left[i] == level[i0]);
            }
        }
    }
    assert forall|other: OrderId, p: Price, q: Price|
        rests_at(after, other, p) && rests_at(after, other, q) implies p == q by {
        assert(rests_at(ladder, other, p) && rests_at(ladder, other, q));
    }
}

/// A drain at an active price changes that level alone. The ladder stays
/// sound, and an id rests after the drain where it rested before, unless it
/// rested at the drained price and the drain used its order up.
pub proof fn lemma_drained(ladder: Ladder, side: Side, price: Price, target: nat)
    requires
        ladder_ok(ladder, side),
        ladder.contains_key(price),
    ensures
        ladder_ok(with_level(ladder, price, remaining(ladder[price], target)), side),
        forall|id: OrderId, p: Price|
            #![trigger rests_at(with_level(ladder, price, remaining(ladder[price], target)), id, p)]
            #![trigger rests_at(ladder, id, p)]
            rests_at(with_level(ladder, price, remaining(ladder[price], target)), id, p)
                <==> rests_at(ladder, id, p) && (p == price ==> has_id(
                remaining(ladder[price], target),
                id,
            )),
{
    let level = ladder[price];
    let left = remaining(level, target);
    let after = with_level(ladder, price, left);
    lemma_remaining_ok(level, target);
    lemma_remaining_shape(level, target);
    assert forall|id: OrderId, p: Price| rests_at(after, id, p) <==> rests_at(ladder, id, p) && (p
        == price ==> has_id(left, id)) by {
        if p == price {
            lemma_drain_ids(level, target, id);
            if left.len() == 0 && has_id(left, id) {
                let i = choose|i: int| 0 <= i < left.len() && (#[trigger] left[i]).id == id;
            }
        }
    }
    assert forall|p: Price| #[trigger] after.contains_key(p) implies {
        &&& after[p].len() > 0
        &&& resting_ok(after[p])
        &&& forall|i: int|
            0 <= i < after[p].len() ==> (#[trigger] after[p][i]).price == p && after[p][i].side
                == side
    } by {
        assert(ladder.contains_key(p));
        if p == price {
            let k = level.len() - left.len();
            assert forall|i: int| 0 <= i < left.len() implies (#[trigger] left[i]).price == p
                && left[i].side == side by {
                assert(left[i] == level[k + i].with_qty(left[i].qty));
            }
        }
    }
    assert forall|id: OrderId, p: Price, q: Price|
        rests_at(after, id, p) && rests_at(after, id, q) implies p == q by {
        assert(rests_at(ladder, id, p) && rests_at(ladder, id, q));
    }
}

/// After an order came to rest, the ids at rest are those that were and its own.
pub proof fn lemma_with_order_rests(ladder: Ladder, side: Side, order: Order, id: OrderId)
    requires
        ladder_ok(ladder, side),
        order.side == side,
        order.qty > 0,
        !rests(ladder, order.id),
    ensures
        rests(with_order(ladder, order), id) <==> rests(ladder, id) || id == order.id,
{
    let after = with_order(ladder, order);
    lemma_with_order(ladder, side, order);
    if rests(after, id) {
        let p = choose|p: Price| #[trigger] after.contains_key(p) && has_id(after[p], id);
        assert(rests_at(after, id, p));
        if rests_at(ladder, id, p) {
            assert(ladder.contains_key(p) && has_id(ladder[p], id));
        }
    }
    if rests(ladder, id) {
        let p = choose|p: Price| #[trigger] ladder.contains_key(p) && has_id(ladder[p], id);
        assert(rests_at(ladder, id, p));
        assert(rests_at(after, id, p));
        assert(after.contains_key(p) && has_id(after[p], id));
    }
    if id == order.id {
        assert(rests_at(after, id, order.price));
        assert(after.contains_key(order.price) && has_id(after[order.price], id));
    }
}

/// After a cancel, the cancelled id rests no more, and every other id that
/// rested still does.
pub proof fn lemma_without_order_rests(ladder: Ladder, side: Side, id: OrderId, other: OrderId)
    requires
        ladder_ok(ladder, side),
        rests(ladder, id),
    ensures
        rests(without_order(ladder, id), other) <==> rests(ladder, other) && other != id,
{
    let after = without_order(ladder, id);
    let price = choose|p: Price| #[trigger] ladder.contains_key(p) && has_id(ladder[p], id);
    assert(rests_at(ladder, id, price));
    lemma_without_order(ladder, side, id, price);
    if rests(after, other) {
        let p = choose|p: Price| #[trigger] after.contains_key(p) && has_id(after[p], other);
        assert(rests_at(after, other, p));
        assert(rests_at(ladder, other, p));
        assert(ladder.contains_key(p) && has_id(ladder[p], other));
    }
    if rests(ladder, other) && other != id {
        let p = choose|p: Price| #[trigger] ladder.contains_key(p) && has_id(ladder[p], other);
        assert(rests_at(ladder, other, p));
        assert(rests_at(after, other, p));
        assert(after.contains_key(p) && has_id(after[p], other));
    }
}

/// Cancelling an id that does not rest on a sound ladder changes nothing.
pub proof fn lemma_without_order_absent(ladder: Ladder, side: Side, id: OrderId)
    requires
        ladder_ok(ladder, side),
        !rests(ladder, id),
    ensures
        without_order(ladder, id) == ladder,
{
    assert forall|p: Price| #[trigger] ladder.contains_key(p) implies without(ladder[p], id)
        == ladder[p] by {
        if has_id(ladder[p], id) {
            assert(rests(ladder, id));
        }
        lemma_without_absent(ladder[p], id);
    }
    assert(without_order(ladder, id) =~= ladder);
}

/// After a drain, an id rests if it rested before and the drain did not use
/// its order up: it was handed no piece of it, or left some of it.
pub proof fn lemma_drained_rests(
    ladder: Ladder,
    side: Side,
    price: Price,
    target: nat,
    id: OrderId,
)
    requires
        ladder_ok(ladder, side),
        ladder.contains_key(price),
    ensures
        rests(with_level(ladder, price, remaining(ladder[price], target)), id) <==> rests(
            ladder,
            id,
        ) && (has_id(filled(ladder[price], target), id) ==> has_id(
            remaining(ladder[price], target),
            id,
        )),
{
    let left = remaining(ladder[price], target);
    let after = with_level(ladder, price, left);
    lemma_drained(ladder, side, price, target);
    lemma_drain_ids(ladder[price], target, id);
    if rests(after, id) {
        let p = choose|p: Price| #[trigger] after.contains_key(p) && has_id(after[p], id);
        assert(rests_at(after, id, p));
        assert(rests_at(ladder, id, p));
        assert(ladder.contains_key(p) && has_id(ladder[p], id));
        if has_id(filled(ladder[price], target), id) {
            assert(rests_at(ladder, id, price));
        }
    }
    if rests(ladder, id) && (has_id(filled(ladder[price], target), id) ==> has_id(left, id)) {
        let p = choose|p: Price| #[trigger] ladder.contains_key(p) && has_id(ladder[p], id);
        assert(rests_at(ladder, id, p));
        assert(rests_at(after, id, p));
        assert(after.contains_key(p) && has_id(after[p], id));
    }
}

/// On a sound ladder a price is active exactly when quantity rests there.
/// So the best price, being active, always has quantity.
pub proof fn lemma_active_iff_quantity(ladder: Ladder, side: Side)
    requires
        ladder_ok(ladder, side),
    ensures
        forall|price: Price|
            #![trigger ladder.contains_key(price)]
            #![trigger level_at(ladder, price)]
            ladder.contains_key(price) <==> total_qty(level_at(ladder, price)) > 0,
        forall|price: Price| #[trigger]
            is_best(ladder, side, price) ==> total_qty(ladder[price]) > 0,
{
    assert forall|price: Price|
        #![trigger ladder.contains_key(price)]
        #![trigger level_at(ladder, price)]
        ladder.contains_key(price) <==> total_qty(level_at(ladder, price)) > 0 by {
        if ladder.contains_key(price) {
            lemma_total_qty_positive(ladder[price]);
        }
    }
}

/// A level that a drain empties leaves the ladder: its price is no longer
/// active, and so cannot be the best price.
pub proof fn lemma_emptied_level_not_best(ladder: Ladder, side: Side, price: Price, target: nat)
    requires
        ladder_ok(ladder, side),
        ladder.contains_key(price),
        target >= total_qty(ladder[price]),
    ensures
        !with_level(ladder, price, remaining(ladder[price], target)).contains_key(price),
        !is_best(with_level(ladder, price, remaining(ladder[price], target)), side, price),
{
    lemma_drain_all(ladder[price], target);
}

} // verus!
