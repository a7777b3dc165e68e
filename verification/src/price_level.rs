//! All resting orders at one price on one side.
//!
//! A level keeps a queue of order ids in time priority, the live orders by
//! id, and the sum of their quantities. Cancelling an order leaves its queue
//! entry behind as a tombstone, which a later drain skips.
use std::collections::{HashMap, HashSet, VecDeque};
use vstd::prelude::*;
use crate::error::OrderBookError;
use crate::fill::{
    filled, filled_qty, has_id, lemma_total_qty_bounds_each, lemma_total_qty_push,
    lemma_without_one, remaining, resting_ok, total_qty, without,
};
use crate::order::Order;
use crate::{OrderId, Qty};

verus! {

broadcast use vstd::std_specs::hash::group_hash_axioms;

/// The live orders of a queue of ids, in the queue's order. An id that `live`
/// does not know is a tombstone and gives nothing.
spec fn resting(queue: Seq<OrderId>, live: Map<OrderId, Order>) -> Seq<Order>
    decreases queue.len(),
{
    if queue.len() == 0 {
        Seq::empty()
    } else if live.contains_key(queue[0]) {
        seq![live[queue[0]]] + resting(queue.drop_first(), live)
    } else {
        resting(queue.drop_first(), live)
    }
}

/// Every live order is filed under its own id and has quantity left.
spec fn well_keyed(live: Map<OrderId, Order>) -> bool {
    forall|id: OrderId| #[trigger]
        live.contains_key(id) ==> live[id].id == id && live[id].qty > 0
}

/// Two maps that agree on the ids of a queue give the same orders.
proof fn lemma_resting_frame(queue: Seq<OrderId>, a: Map<OrderId, Order>, b: Map<OrderId, Order>)
    requires
        forall|i: int|
            0 <= i < queue.len() ==> a.contains_key(#[trigger] queue[i]) == b.contains_key(queue[i])
                && (a.contains_key(queue[i]) ==> a[queue[i]] == b[queue[i]]),
    ensures
        resting(queue, a) == resting(queue, b),
    decreases queue.len(),
{
    if queue.len() > 0 {
        let tail = queue.drop_first();
        assert forall|i: int| 0 <= i < tail.len() implies a.contains_key(#[trigger] tail[i])
            == b.contains_key(tail[i]) && (a.contains_key(tail[i]) ==> a[tail[i]] == b[tail[i]]) by {
            assert(tail[i] == queue[i + 1]);
        }
        lemma_resting_frame(tail, a, b);
        assert(queue[0] == queue[0]);
    }
}

/// An id that enters at the back of the queue puts its order at the back.
proof fn lemma_resting_push(
    queue: Seq<OrderId>,
    live: Map<OrderId, Order>,
    id: OrderId,
    order: Order,
)
    requires
        !queue.contains(id),
    ensures
        resting(queue.push(id), live.insert(id, order)) == resting(queue, live).push(order),
    decreases queue.len(),
{
    let queue2 = queue.push(id);
    let live2 = live.insert(id, order);
    if queue.len() == 0 {
        assert(queue2.drop_first() =~= Seq::<OrderId>::empty());
        assert(resting(queue2.drop_first(), live2) =~= Seq::<Order>::empty());
        assert(resting(queue2, live2) =~= seq![order]);
        assert(resting(queue, live).push(order) =~= seq![order]);
    } else {
        let tail = queue.drop_first();
        assert(queue2.drop_first() =~= tail.push(id));
        assert(queue[0] != id);
        assert forall|x: OrderId| tail.contains(x) implies queue.contains(x) by {
            let i = choose|i: int| 0 <= i < tail.len() && tail[i] == x;
            assert(queue[i + 1] == x);
        }
        lemma_resting_push(tail, live, id, order);
        if live.contains_key(queue[0]) {
            assert(seq![live[queue[0]]] + resting(tail, live).push(order) =~= (seq![
                live[queue[0]],
            ] + resting(tail, live)).push(order));
        }
    }
}

/// An order is among the live orders of a queue exactly when its id is in
/// the queue and alive.
proof fn lemma_resting_has_id(queue: Seq<OrderId>, live: Map<OrderId, Order>, id: OrderId)
    requires
        well_keyed(live),
    ensures
        has_id(resting(queue, live), id) <==> queue.contains(id) && live.contains_key(id),
    decreases queue.len(),
{
    let r = resting(queue, live);
    if queue.len() > 0 {
        let tail = queue.drop_first();
        let rt = resting(tail, live);
        lemma_resting_has_id(tail, live, id);
        if has_id(r, id) {
            let i = choose|i: int| 0 <= i < r.len() && (#[trigger] r[i]).id == id;
            if live.contains_key(queue[0]) {
                if i == 0 {
                    assert(queue[0] == id);
                } else {
                    assert(rt[i - 1].id == id);
                }
            }
            if has_id(rt, id) {
                let k = choose|k: int| 0 <= k < tail.len() && tail[k] == id;
                assert(queue[k + 1] == id);
            }
        }
        if queue.contains(id) && live.contains_key(id) {
            let k = choose|k: int| 0 <= k < queue.len() && queue[k] == id;
            if k == 0 {
                assert(r[0].id == id);
            } else {
                assert(tail[k - 1] == id);
                let i = choose|i: int| 0 <= i < rt.len() && (#[trigger] rt[i]).id == id;
                if live.contains_key(queue[0]) {
                    assert(r[i + 1].id == id);
                }
            }
        }
    }
}

/// Each live order of a queue is the order that is filed under its id.
proof fn lemma_resting_member(queue: Seq<OrderId>, live: Map<OrderId, Order>, i: int)
    requires
        well_keyed(live),
        0 <= i < resting(queue, live).len(),
    ensures
        live.contains_key(resting(queue, live)[i].id),
        live[resting(queue, live)[i].id] == resting(queue, live)[i],
    decreases queue.len(),
{
    if queue.len() > 0 {
        let tail = queue.drop_first();
        if live.contains_key(queue[0]) {
            if i > 0 {
                lemma_resting_member(tail, live, i - 1);
            }
        } else {
            lemma_resting_member(tail, live, i);
        }
    }
}

/// The live orders of a queue without repeats can rest together.
proof fn lemma_resting_ok(queue: Seq<OrderId>, live: Map<OrderId, Order>)
    requires
        queue.no_duplicates(),
        well_keyed(live),
    ensures
        resting_ok(resting(queue, live)),
    decreases queue.len(),
{
    let r = resting(queue, live);
    if queue.len() > 0 {
        let tail = queue.drop_first();
        let rt = resting(tail, live);
        lemma_resting_ok(tail, live);
        if live.contains_key(queue[0]) {
            assert forall|i: int, j: int| 0 <= i < j < r.len() implies (#[trigger] r[i]).id != (
            #[trigger] r[j]).id by {
                if i == 0 {
                    assert(r[j] == rt[j - 1]);
                    if rt[j - 1].id == queue[0] {
                        lemma_resting_has_id(tail, live, queue[0]);
                        let k = choose|k: int| 0 <= k < tail.len() && tail[k] == queue[0];
                        assert(queue[k + 1] == queue[0]);
                    }
                } else {
                    assert(r[i] == rt[i - 1]);
                    assert(r[j] == rt[j - 1]);
                }
            }
            assert forall|i: int| 0 <= i < r.len() implies (#[trigger] r[i]).qty > 0 by {
                if i > 0 {
                    assert(r[i] == rt[i - 1]);
                }
            }
        }
    }
}

/// Forgetting an id takes its order out of the live orders and moves no other.
proof fn lemma_resting_without(queue: Seq<OrderId>, live: Map<OrderId, Order>, id: OrderId)
    requires
        well_keyed(live),
    ensures
        resting(queue, live.remove(id)) == without(resting(queue, live), id),
    decreases queue.len(),
{
    if queue.len() > 0 {
        let tail = queue.drop_first();
        let rt = resting(tail, live);
        lemma_resting_without(tail, live, id);
        if live.contains_key(queue[0]) {
            let head = live[queue[0]];
            assert((seq![head] + rt).drop_first() =~= rt);
        }
    }
}

/// A tombstone taken out of the queue changes nothing for the live orders.
proof fn lemma_resting_skip(queue: Seq<OrderId>, live: Map<OrderId, Order>, k: int)
    requires
        0 <= k < queue.len(),
        !live.contains_key(queue[k]),
    ensures
        resting(queue.remove(k), live) == resting(queue, live),
    decreases queue.len(),
{
    if k == 0 {
        assert(queue.remove(0) =~= queue.drop_first());
    } else {
        let tail = queue.drop_first();
        assert(tail[k - 1] == queue[k]);
        lemma_resting_skip(tail, live, k - 1);
        assert(queue.remove(k).drop_first() =~= tail.remove(k - 1));
        assert(queue.remove(k)[0] == queue[0]);
    }
}

/// When every live id is in a queue without repeats, there are as many live
/// orders in the queue as there are live ids.
proof fn lemma_resting_len(queue: Seq<OrderId>, live: Map<OrderId, Order>)
    requires
        queue.no_duplicates(),
        live.dom().finite(),
        forall|id: OrderId| #[trigger] live.contains_key(id) ==> queue.contains(id),
    ensures
        resting(queue, live).len() == live.dom().len(),
    decreases queue.len(),
{
    if queue.len() == 0 {
        assert forall|id: OrderId| !live.dom().contains(id) by {
            if live.contains_key(id) {
                assert(queue.contains(id));
            }
        }
        assert(live.dom() =~= Set::<OrderId>::empty());
    } else {
        let tail = queue.drop_first();
        let head = queue[0];
        let rest = live.remove(head);
        assert forall|id: OrderId| #[trigger] rest.contains_key(id) implies tail.contains(id) by {
            assert(live.contains_key(id));
            let i = choose|i: int| 0 <= i < queue.len() && queue[i] == id;
            assert(tail[i - 1] == id);
        }
        lemma_resting_len(tail, rest);
        assert forall|i: int| 0 <= i < tail.len() implies live.contains_key(#[trigger] tail[i])
            == rest.contains_key(tail[i]) && (live.contains_key(tail[i]) ==> live[tail[i]]
            == rest[tail[i]]) by {
            assert(tail[i] == queue[i + 1]);
        }
        lemma_resting_frame(tail, live, rest);
        if !live.contains_key(head) {
            assert(rest =~= live);
        }
    }
}

/// The resting orders at one price, first in, first out.
pub struct PriceLevel {
    /// Ids in time priority, earliest first; tombstones among them.
    queue: VecDeque<OrderId>,
    /// The live orders, each under its id.
    orders: HashMap<OrderId, Order>,
    /// The ids of the tombstones.
    stale: HashSet<OrderId>,
    /// The sum of the live orders' quantities.
    total_qty: Qty,
}

impl View for PriceLevel {
    type V = Seq<Order>;

    /// The live orders in time priority, earliest first.
    closed spec fn view(&self) -> Seq<Order> {
        resting(self.queue@, self.orders@)
    }
}

impl PriceLevel {
    /// The invariant of a level: the cached total is the sum of the live
    /// orders' quantities, every live order has one place in the queue, and
    /// the tombstones are known.
    pub closed spec fn wf(&self) -> bool {
        &&& self.queue@.no_duplicates()
        &&& well_keyed(self.orders@)
        &&& forall|id: OrderId| #[trigger]
            self.orders@.contains_key(id) ==> self.queue@.contains(id)
        &&& forall|id: OrderId|
            self.stale@.contains(id) <==> self.queue@.contains(id) && !self.orders@.contains_key(id)
        &&& self.total_qty == total_qty(self@)
    }

    /// In a well-formed level no id rests twice, every resting order has
    /// quantity left, and the total fits the quantity type.
    pub proof fn lemma_wf_view(&self)
        requires
            self.wf(),
        ensures
            resting_ok(self@),
            total_qty(self@) <= u64::MAX,
    {
        lemma_resting_ok(self.queue@, self.orders@);
    }

    /// An empty level.
    pub fn new() -> (level: PriceLevel)
        ensures
            level.wf(),
            level@ == Seq::<Order>::empty(),
    {
        PriceLevel {
            queue: VecDeque::new(),
            orders: HashMap::new(),
            stale: HashSet::new(),
            total_qty: 0,
        }
    }

    /// The sum of the quantities of the resting orders.
    pub fn get_total_qty(&self) -> (total: Qty)
        requires
            self.wf(),
        ensures
            total == total_qty(self@),
    {
        self.total_qty
    }

    /// Whether an order with the id `id` rests here.
    pub fn contains(&self, id: OrderId) -> (found: bool)
        requires
            self.wf(),
        ensures
            found == has_id(self@, id),
    {
        proof {
            lemma_resting_has_id(self.queue@, self.orders@, id);
        }
        self.orders.contains_key(&id)
    }

    /// The number of resting orders.
    pub fn len(&self) -> (n: usize)
        requires
            self.wf(),
        ensures
            n == self@.len(),
    {
        proof {
            lemma_resting_len(self.queue@, self.orders@);
        }
        self.orders.len()
    }

    /// Whether no order rests here.
    pub fn is_empty(&self) -> (empty: bool)
        requires
            self.wf(),
        ensures
            empty == (self@.len() == 0),
    {
        self.len() == 0
    }

    /// Takes the tombstone of `id` out of the queue.
    fn forget(&mut self, id: OrderId)
        requires
            old(self).wf(),
            old(self).stale@.contains(id),
        ensures
            final(self).wf(),
            final(self)@ == old(self)@,
            final(self).orders@ == old(self).orders@,
            !final(self).queue@.contains(id),
    {
        let ghost before = self.queue@;
        let mut k: usize = 0;
        while k < self.queue.len() && self.queue[k] != id
            invariant
                self.queue@ == before,
                before.contains(id),
                k <= before.len(),
                forall|j: int| 0 <= j < k ==> before[j] != id,
            decreases before.len() - k,
        {
            k = k + 1;
        }
        self.queue.remove(k);
        self.stale.remove(&id);
        proof {
            let after = self.queue@;
            assert(after == before.remove(k as int));
            assert forall|x: OrderId| after.contains(x) <==> before.contains(x) && x != id by {
                if after.contains(x) {
                    let i = choose|i: int| 0 <= i < after.len() && after[i] == x;
                    if i < k {
                        assert(before[i] == x);
                    } else {
                        assert(before[i + 1] == x);
                    }
                }
                if before.contains(x) && x != id {
                    let i = choose|i: int| 0 <= i < before.len() && before[i] == x;
                    if i < k {
                        assert(after[i] == x);
                    } else {
                        assert(after[i - 1] == x);
                    }
                }
            }
            lemma_resting_skip(before, self.orders@, k as int);
        }
    }

    /// Lets `order` rest here, behind all that rest already.
    ///
    /// The order must be new to the level and have quantity, and the level's
    /// total must still fit the quantity type with it.
    pub fn insert(&mut self, order: &Order)
        requires
            old(self).wf(),
            !has_id(old(self)@, order.id),
            order.qty > 0,
            total_qty(old(self)@) + order.qty <= u64::MAX,
        ensures
            final(self).wf(),
            final(self)@ == old(self)@.push(*order),
    {
        let id: OrderId = order.id;
        proof {
            lemma_resting_has_id(self.queue@, self.orders@, id);
        }
        if self.stale.contains(&id) {
            self.forget(id);
        }
        let ghost queue = self.queue@;
        let ghost live = self.orders@;
        self.queue.push_back(id);
        self.orders.insert(id, *order);
        self.total_qty = self.total_qty + order.qty;
        proof {
            lemma_resting_push(queue, live, id, *order);
            lemma_total_qty_push(resting(queue, live), *order);
            let after = self.queue@;
            assert forall|x: OrderId| after.contains(x) <==> queue.contains(x) || x == id by {
                if queue.contains(x) {
                    let i = choose|i: int| 0 <= i < queue.len() && queue[i] == x;
                    assert(after[i] == x);
                }
                assert(after[queue.len() as int] == id);
            }
            assert forall|i: int, j: int| 0 <= i < j < after.len() implies after[i] != after[j] by {
                if j < queue.len() {
                    assert(after[i] == queue[i] && after[j] == queue[j]);
                } else {
                    assert(after[i] == queue[i]);
                }
            }
        }
    }

    /// Cancels the order with the id `id`.
    ///
    /// The orders that stay keep their places. If no such order rests here,
    /// the level stays as it is and the id comes back as unknown.
    pub fn remove(&mut self, id: OrderId) -> (done: Result<(), OrderBookError>)
        requires
            old(self).wf(),
        ensures
            final(self).wf(),
            has_id(old(self)@, id) ==> done == Ok::<(), OrderBookError>(()) && final(self)@
                == without(old(self)@, id),
            !has_id(old(self)@, id) ==> done == Err::<(), OrderBookError>(
                OrderBookError::UnknownId(id),
            ) && final(self)@ == old(self)@,
    {
        let ghost queue = self.queue@;
        let ghost live = self.orders@;
        proof {
            lemma_resting_has_id(queue, live, id);
            lemma_resting_without(queue, live, id);
            lemma_resting_ok(queue, live);
        }
        match self.orders.remove(&id) {
            Some(order) => {
                proof {
                    let r = resting(queue, live);
                    let i = choose|i: int| 0 <= i < r.len() && (#[trigger] r[i]).id == id;
                    lemma_resting_member(queue, live, i);
                    lemma_without_one(r, i);
                    lemma_total_qty_bounds_each(r, i);
                }
                self.total_qty = self.total_qty - order.qty;
                self.stale.insert(id);
                Ok(())
            },
            None => {
                assert(self.orders@ =~= live);
                Err(OrderBookError::UnknownId(id))
            },
        }
    }

    /// Takes up to `qty` out of the level, earliest order first.
    ///
    /// Returns the pieces taken, in the order in which they were taken, and
    /// their total. An order that is only partly taken stays at the front
    /// with what is left of it. Asking for more than there is empties the
    /// level, and the total that comes back is then below `qty`.
    pub fn get_orders_till_qty(&mut self, qty: Qty) -> (taken: (Vec<Order>, Qty))
        requires
            old(self).wf(),
        ensures
            final(self).wf(),
            taken.0@ == filled(old(self)@, qty as nat),
            taken.1 == filled_qty(old(self)@, qty as nat),
            final(self)@ == remaining(old(self)@, qty as nat),
    {
        let ghost start = self@;
        let ghost target = qty as nat;
        let mut collected: Qty = 0;
        let mut pieces: Vec<Order> = Vec::new();
        let mut done = false;
        assert(pieces@ + filled(start, target) =~= filled(start, target));
        while !done
            invariant
                self.wf(),
                target == qty,
                collected <= qty,
                !done ==> filled(start, target) == pieces@ + filled(
                    self@,
                    (target - collected) as nat,
                ),
                !done ==> remaining(start, target) == remaining(
                    self@,
                    (target - collected) as nat,
                ),
                !done ==> filled_qty(start, target) == collected + filled_qty(
                    self@,
                    (target - collected) as nat,
                ),
                done ==> filled(start, target) == pieces@,
                done ==> remaining(start, target) == self@,
                done ==> filled_qty(start, target) == collected,
            decreases
                    (if done {
                        0
                    } else {
                        1 + self.queue@.len()
                    }),
        {
            let ghost queue = self.queue@;
            let ghost live = self.orders@;
            let ghost view = self@;
            let ghost room = (target - collected) as nat;
            match self.queue.pop_front() {
                None => {
                    assert(pieces@ + Seq::<Order>::empty() =~= pieces@);
                    done = true;
                },
                Some(id) => {
                    let ghost tail = queue.drop_first();
                    assert(self.queue@ =~= tail);
                    assert forall|x: OrderId| tail.contains(x) <==> queue.contains(x) && x
                        != id by {
                        if tail.contains(x) {
                            let i = choose|i: int| 0 <= i < tail.len() && tail[i] == x;
                            assert(queue[i + 1] == x);
                        }
                        if queue.contains(x) && x != id {
                            let i = choose|i: int| 0 <= i < queue.len() && queue[i] == x;
                            assert(tail[i - 1] == x);
                        }
                    }
                    match self.orders.get(&id) {
                        None => {
                            self.stale.remove(&id);
                        },
                        Some(found) => {
                            let order: Order = *found;
                            let left: Qty = qty - collected;
                            assert(view =~= seq![order] + resting(tail, live));
                            assert(view.drop_first() =~= resting(tail, live));
                            assert(order.id == id && order.qty > 0);
                            if order.qty <= left {
                                let ghost earlier = pieces@;
                                self.orders.remove(&id);
                                self.total_qty = self.total_qty - order.qty;
                                collected = collected + order.qty;
                                pieces.push(order);
                                proof {
                                    lemma_resting_frame(tail, live, self.orders@);
                                    assert(order.with_qty(order.qty) == order);
                                    assert(pieces@ + filled(self@, (room - order.qty) as nat)
                                        =~= earlier + (seq![order] + filled(
                                        self@,
                                        (room - order.qty) as nat,
                                    )));
                                    assert(pieces@ =~= earlier + seq![order]);
                                }
                                if order.qty == left {
                                    done = true;
                                }
                            } else {
                                let rest = Order {
                                    price: order.price,
                                    qty: order.qty - left,
                                    side: order.side,
                                    id: order.id,
                                };
                                let piece = Order {
                                    price: order.price,
                                    qty: left,
                                    side: order.side,
                                    id: order.id,
                                };
                                self.orders.insert(id, rest);
                                self.total_qty = self.total_qty - left;
                                self.queue.push_front(id);
                                collected = qty;
                                pieces.push(piece);
                                done = true;
                                proof {
                                    assert(self.queue@ =~= queue);
                                    lemma_resting_frame(tail, live, self.orders@);
                                    assert(self@ =~= seq![rest] + resting(tail, live));
                                    assert(self@.drop_first() =~= resting(tail, live));
                                }
                            }
                        },
                    }
                },
            }
        }
        (pieces, collected)
    }
}

impl Default for PriceLevel {
    /// An empty level.
    fn default() -> (level: PriceLevel)
        ensures
            level.wf(),
            level@ == Seq::<Order>::empty(),
    {
        PriceLevel::new()
    }
}

} // verus!
