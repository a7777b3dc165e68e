//! The orders resting at one price, taken as a sequence in time priority
//! (earliest first), and what cancelling and draining do to such a sequence.
use vstd::prelude::*;
use crate::order::Order;
use crate::OrderId;

verus! {

/// The sum of the quantities of the orders of `s`.
pub open spec fn total_qty(s: Seq<Order>) -> nat
    decreases s.len(),
{
    if s.len() == 0 {
        0
    } else {
        s[0].qty as nat + total_qty(s.drop_first())
    }
}

/// Whether an order of `s` has the id `id`.
pub open spec fn has_id(s: Seq<Order>, id: OrderId) -> bool {
    exists|i: int| 0 <= i < s.len() && (#[trigger] s[i]).id == id
}

/// No two orders of `s` share an id.
pub open spec fn distinct_ids(s: Seq<Order>) -> bool {
    forall|i: int, j: int| 0 <= i < j < s.len() ==> (#[trigger] s[i]).id != (#[trigger] s[j]).id
}

/// Every order of `s` has quantity left.
pub open spec fn all_positive(s: Seq<Order>) -> bool {
    forall|i: int| 0 <= i < s.len() ==> (#[trigger] s[i]).qty > 0
}

/// What orders must satisfy to rest together at one price: each has
/// quantity left, and no id occurs twice.
pub open spec fn resting_ok(s: Seq<Order>) -> bool {
    distinct_ids(s) && all_positive(s)
}

/// `s` without the orders whose id is `id`; the others keep their order.
pub open spec fn without(s: Seq<Order>, id: OrderId) -> Seq<Order>
    decreases s.len(),
{
    if s.len() == 0 {
        s
    } else if s[0].id == id {
        without(s.drop_first(), id)
    } else {
        seq![s[0]] + without(s.drop_first(), id)
    }
}

/// The pieces that a drain of `target` takes out of `s`, earliest first.
///
/// Orders are consumed whole from the front for as long as what is still
/// wanted exceeds them. The order that meets or exceeds what is still wanted
/// ends the drain: it gives a piece of exactly that quantity. A drain of
/// nothing is no exception: it names the earliest order, with a piece of no
/// quantity.
pub open spec fn filled(s: Seq<Order>, target: nat) -> Seq<Order>
    decreases s.len(),
{
    if s.len() == 0 {
        Seq::empty()
    } else if s[0].qty < target {
        seq![s[0]] + filled(s.drop_first(), (target - s[0].qty) as nat)
    } else {
        seq![s[0].with_qty(target as u64)]
    }
}

/// What a drain of `target` leaves of `s`: the orders it did not reach, led
/// by the rest of the order it split, if it split one.
pub open spec fn remaining(s: Seq<Order>, target: nat) -> Seq<Order>
    decreases s.len(),
{
    if s.len() == 0 {
        s
    } else if s[0].qty < target {
        remaining(s.drop_first(), (target - s[0].qty) as nat)
    } else if s[0].qty == target {
        s.drop_first()
    } else {
        seq![s[0].with_qty((s[0].qty - target) as u64)] + s.drop_first()
    }
}

/// The quantity that a drain of `target` takes out of `s`: all that is
/// wanted, or all there is.
pub open spec fn filled_qty(s: Seq<Order>, target: nat) -> nat {
    if target <= total_qty(s) {
        target
    } else {
        total_qty(s)
    }
}

/// The total of two sequences laid end to end is the sum of their totals.
pub proof fn lemma_total_qty_concat(a: Seq<Order>, b: Seq<Order>)
    ensures
        total_qty(a + b) == total_qty(a) + total_qty(b),
    decreases a.len(),
{
    if a.len() == 0 {
        assert(a + b =~= b);
    } else {
        assert((a + b).drop_first() =~= a.drop_first() + b);
        lemma_total_qty_concat(a.drop_first(), b);
    }
}

/// An order appended to a sequence adds its quantity to the total.
pub proof fn lemma_total_qty_push(s: Seq<Order>, order: Order)
    ensures
        total_qty(s.push(order)) == total_qty(s) + order.qty,
{
    let one = seq![order];
    assert(one.drop_first() =~= Seq::<Order>::empty());
    assert(total_qty(one) == order.qty) by {
        reveal_with_fuel(total_qty, 2);
    }
    assert(s.push(order) =~= s + one);
    lemma_total_qty_concat(s, one);
}

/// No single order holds more than the total.
pub proof fn lemma_total_qty_bounds_each(s: Seq<Order>, i: int)
    requires
        0 <= i < s.len(),
    ensures
        s[i].qty <= total_qty(s),
    decreases s.len(),
{
    if i > 0 {
        lemma_total_qty_bounds_each(s.drop_first(), i - 1);
    }
}

/// Where ids are distinct, taking out an id takes out the one order that has
/// it, and the total falls by that order's quantity.
pub proof fn lemma_without_one(s: Seq<Order>, i: int)
    requires
        distinct_ids(s),
        0 <= i < s.len(),
    ensures
        without(s, s[i].id) == s.remove(i),
        total_qty(without(s, s[i].id)) + s[i].qty == total_qty(s),
    decreases s.len(),
{
    let id = s[i].id;
    let tail = s.drop_first();
    assert forall|a: int, b: int| 0 <= a < b < tail.len() implies (#[trigger] tail[a]).id != (
    #[trigger] tail[b]).id by {
        assert(tail[a] == s[a + 1] && tail[b] == s[b + 1]);
    }
    if i == 0 {
        lemma_without_absent(tail, id);
        assert(s.remove(0) =~= tail);
    } else {
        assert(tail[i - 1] == s[i]);
        lemma_without_one(tail, i - 1);
        assert(s.remove(i) =~= seq![s[0]] + tail.remove(i - 1));
        assert((seq![s[0]] + tail.remove(i - 1)).drop_first() =~= tail.remove(i - 1));
    }
}

/// Taking out an id that no order has changes nothing.
pub proof fn lemma_without_absent(s: Seq<Order>, id: OrderId)
    requires
        !has_id(s, id),
    ensures
        without(s, id) == s,
    decreases s.len(),
{
    if s.len() > 0 {
        let tail = s.drop_first();
        assert(s[0].id != id);
        assert forall|i: int| 0 <= i < tail.len() implies (#[trigger] tail[i]).id != id by {
            assert(tail[i] == s[i + 1]);
        }
        lemma_without_absent(tail, id);
        assert(seq![s[0]] + tail =~= s);
    }
}

/// Orders that all have quantity left have a positive total, unless there are none.
pub proof fn lemma_total_qty_positive(s: Seq<Order>)
    requires
        all_positive(s),
    ensures
        total_qty(s) > 0 <==> s.len() > 0,
{
    if s.len() > 0 {
        assert(s[0].qty > 0);
    }
}

} // verus!

verus! {

/// The pieces of a drain follow the resting orders from the front, one piece
/// per order: each piece is its order with at most the order's quantity, and
/// every piece but the last is its order whole. So no order gives anything
/// before all that came earlier are used up.
pub proof fn lemma_filled_shape(s: Seq<Order>, target: nat)
    ensures
        filled(s, target).len() <= s.len(),
        forall|i: int|
            0 <= i < filled(s, target).len() ==> (#[trigger] filled(s, target)[i]) == s[i].with_qty(
                filled(s, target)[i].qty,
            ) && filled(s, target)[i].qty <= s[i].qty,
        forall|i: int|
            0 <= i < filled(s, target).len() - 1 ==> (#[trigger] filled(s, target)[i]) == s[i],
    decreases s.len(),
{
    if s.len() > 0 && s[0].qty < target {
        let tail = s.drop_first();
        let rest = filled(tail, (target - s[0].qty) as nat);
        lemma_filled_shape(tail, (target - s[0].qty) as nat);
        let f = filled(s, target);
        assert forall|i: int| 0 <= i < f.len() implies (#[trigger] f[i]) == s[i].with_qty(f[i].qty)
            && f[i].qty <= s[i].qty by {
            if i > 0 {
                assert(f[i] == rest[i - 1]);
                assert(tail[i - 1] == s[i]);
            }
        }
        assert forall|i: int| 0 <= i < f.len() - 1 implies (#[trigger] f[i]) == s[i] by {
            if i > 0 {
                assert(f[i] == rest[i - 1]);
                assert(tail[i - 1] == s[i]);
            }
        }
    }
}

/// What a drain leaves is the back of what rested: the orders from some place
/// on, unchanged but for the first, which may have lost quantity. The pieces
/// cover every order before that place, and at most that first one besides.
pub proof fn lemma_remaining_shape(s: Seq<Order>, target: nat)
    ensures
        remaining(s, target).len() <= s.len(),
        forall|j: int|
            0 <= j < remaining(s, target).len() ==> (#[trigger] remaining(s, target)[j]) == s[s.len()
                - remaining(s, target).len() + j].with_qty(remaining(s, target)[j].qty)
                && remaining(s, target)[j].qty <= s[s.len() - remaining(s, target).len() + j].qty,
        forall|j: int|
            1 <= j < remaining(s, target).len() ==> (#[trigger] remaining(s, target)[j]) == s[s.len()
                - remaining(s, target).len() + j],
        all_positive(s) ==> all_positive(remaining(s, target)),
        s.len() <= filled(s, target).len() + remaining(s, target).len() <= s.len() + 1,
    decreases s.len(),
{
    let r = remaining(s, target);
    if s.len() > 0 {
        let tail = s.drop_first();
        if s[0].qty < target {
            lemma_remaining_shape(tail, (target - s[0].qty) as nat);
            let k = s.len() - r.len();
            assert forall|j: int| 0 <= j < r.len() implies (#[trigger] r[j]) == s[k + j].with_qty(
                r[j].qty,
            ) && r[j].qty <= s[k + j].qty by {
                assert(tail[k - 1 + j] == s[k + j]);
            }
            assert forall|j: int| 1 <= j < r.len() implies (#[trigger] r[j]) == s[k + j] by {
                assert(tail[k - 1 + j] == s[k + j]);
            }
        } else if s[0].qty == target {
            assert forall|j: int| 0 <= j < r.len() implies (#[trigger] r[j]) == s[1 + j].with_qty(
                r[j].qty,
            ) && r[j].qty <= s[1 + j].qty by {
                assert(r[j] == s[1 + j]);
            }
            if all_positive(s) {
                assert forall|j: int| 0 <= j < r.len() implies (#[trigger] r[j]).qty > 0 by {
                    assert(r[j] == s[1 + j]);
                }
            }
        } else {
            assert forall|j: int| 0 <= j < r.len() implies (#[trigger] r[j]) == s[j].with_qty(
                r[j].qty,
            ) && r[j].qty <= s[j].qty by {
                if j > 0 {
                    assert(r[j] == tail[j - 1]);
                }
            }
            assert forall|j: int| 1 <= j < r.len() implies (#[trigger] r[j]) == s[j] by {
                assert(r[j] == tail[j - 1]);
            }
            if all_positive(s) {
                assert forall|j: int| 0 <= j < r.len() implies (#[trigger] r[j]).qty > 0 by {
                    if j > 0 {
                        assert(r[j] == tail[j - 1]);
                        assert(s[j].qty > 0);
                    }
                }
            }
        }
    }
}

/// A drain neither invents an id nor loses one: what it hands out and what
/// it leaves come from the resting orders, and every resting order is handed
/// out, left, or both where it was split.
pub proof fn lemma_drain_ids(s: Seq<Order>, target: nat, id: OrderId)
    ensures
        has_id(filled(s, target), id) ==> has_id(s, id),
        has_id(remaining(s, target), id) ==> has_id(s, id),
        has_id(s, id) ==> has_id(filled(s, target), id) || has_id(remaining(s, target), id),
{
    let f = filled(s, target);
    let r = remaining(s, target);
    lemma_filled_shape(s, target);
    lemma_remaining_shape(s, target);
    let k = s.len() - r.len();
    if has_id(f, id) {
        let i = choose|i: int| 0 <= i < f.len() && (#[trigger] f[i]).id == id;
        assert(s[i].id == id);
    }
    if has_id(r, id) {
        let j = choose|j: int| 0 <= j < r.len() && (#[trigger] r[j]).id == id;
        assert(s[k + j].id == id);
    }
    if has_id(s, id) {
        let i = choose|i: int| 0 <= i < s.len() && (#[trigger] s[i]).id == id;
        if i < f.len() {
            assert(f[i].id == id);
        } else {
            assert(r[i - k].id == id);
        }
    }
}

/// What a drain leaves can rest together if what was there could.
pub proof fn lemma_remaining_ok(s: Seq<Order>, target: nat)
    requires
        resting_ok(s),
    ensures
        resting_ok(remaining(s, target)),
{
    let r = remaining(s, target);
    lemma_remaining_shape(s, target);
    let k = s.len() - r.len();
    assert forall|i: int, j: int| 0 <= i < j < r.len() implies (#[trigger] r[i]).id != (
    #[trigger] r[j]).id by {
        assert(r[i].id == s[k + i].id);
        assert(r[j].id == s[k + j].id);
    }
}

/// The pieces of a drain add up to the quantity it reports.
pub proof fn lemma_filled_total(s: Seq<Order>, target: nat)
    ensures
        total_qty(filled(s, target)) == filled_qty(s, target),
    decreases s.len(),
{
    if s.len() > 0 {
        if s[0].qty < target {
            let rest = filled(s.drop_first(), (target - s[0].qty) as nat);
            lemma_filled_total(s.drop_first(), (target - s[0].qty) as nat);
            assert((seq![s[0]] + rest).drop_first() =~= rest);
        } else {
            let piece = s[0].with_qty(target as u64);
            assert(seq![piece].drop_first() =~= Seq::<Order>::empty());
            assert(total_qty(seq![piece]) == piece.qty) by {
                reveal_with_fuel(total_qty, 2);
            }
        }
    }
}

/// Nothing is lost in a drain: what it takes and what it leaves add up to
/// what was there.
pub proof fn lemma_remaining_total(s: Seq<Order>, target: nat)
    ensures
        total_qty(remaining(s, target)) + filled_qty(s, target) == total_qty(s),
    decreases s.len(),
{
    if s.len() > 0 {
        if s[0].qty < target {
            lemma_remaining_total(s.drop_first(), (target - s[0].qty) as nat);
        } else if s[0].qty > target {
            let rest = s[0].with_qty((s[0].qty - target) as u64);
            assert((seq![rest] + s.drop_first()).drop_first() =~= s.drop_first());
        }
    }
}

} // verus!

verus! {

/// After an order joined at the back, the ids at rest are those that were
/// there and its own.
pub proof fn lemma_has_id_push(s: Seq<Order>, order: Order, id: OrderId)
    ensures
        has_id(s.push(order), id) <==> has_id(s, id) || order.id == id,
{
    let t = s.push(order);
    if has_id(t, id) {
        let i = choose|i: int| 0 <= i < t.len() && (#[trigger] t[i]).id == id;
        if i < s.len() {
            assert(s[i].id == id);
        }
    }
    if has_id(s, id) {
        let i = choose|i: int| 0 <= i < s.len() && (#[trigger] s[i]).id == id;
        assert(t[i].id == id);
    }
    if order.id == id {
        assert(t[s.len() as int].id == id);
    }
}

/// An order with quantity and a new id can join orders that rest together.
pub proof fn lemma_push_ok(s: Seq<Order>, order: Order)
    requires
        resting_ok(s),
        !has_id(s, order.id),
        order.qty > 0,
    ensures
        resting_ok(s.push(order)),
{
    let t = s.push(order);
    assert forall|i: int, j: int| 0 <= i < j < t.len() implies (#[trigger] t[i]).id != (
    #[trigger] t[j]).id by {
        assert(t[i] == s[i]);
        if j < s.len() {
            assert(t[j] == s[j]);
        }
    }
    assert forall|i: int| 0 <= i < t.len() implies (#[trigger] t[i]).qty > 0 by {
        if i < s.len() {
            assert(t[i] == s[i]);
        }
    }
}

/// Where ids are distinct, an order taken out of a sequence takes its id
/// from the ids at rest, and no other.
proof fn lemma_remove_has_id(s: Seq<Order>, i: int, other: OrderId)
    requires
        distinct_ids(s),
        0 <= i < s.len(),
    ensures
        has_id(s.remove(i), other) <==> has_id(s, other) && other != s[i].id,
{
    let t = s.remove(i);
    if has_id(t, other) {
        let a = choose|a: int| 0 <= a < t.len() && (#[trigger] t[a]).id == other;
        if a < i {
            assert(t[a] == s[a]);
            assert(s[a].id != s[i].id);
        } else {
            assert(t[a] == s[a + 1]);
            assert(s[i].id != s[a + 1].id);
        }
    }
    if has_id(s, other) && other != s[i].id {
        let a = choose|a: int| 0 <= a < s.len() && (#[trigger] s[a]).id == other;
        if a < i {
            assert(t[a] == s[a]);
        } else {
            assert(t[a - 1] == s[a]);
        }
    }
}

/// Orders that can rest together still can when one of them is taken out.
proof fn lemma_remove_ok(s: Seq<Order>, i: int)
    requires
        resting_ok(s),
        0 <= i < s.len(),
    ensures
        resting_ok(s.remove(i)),
{
    let t = s.remove(i);
    assert forall|a: int, b: int| 0 <= a < b < t.len() implies (#[trigger] t[a]).id != (
    #[trigger] t[b]).id by {
        if b < i {
            assert(t[a] == s[a] && t[b] == s[b]);
        } else if a < i {
            assert(t[a] == s[a] && t[b] == s[b + 1]);
        } else {
            assert(t[a] == s[a + 1] && t[b] == s[b + 1]);
        }
    }
    assert forall|a: int| 0 <= a < t.len() implies (#[trigger] t[a]).qty > 0 by {
        if a < i {
            assert(t[a] == s[a]);
        } else {
            assert(t[a] == s[a + 1]);
        }
    }
}

/// Cancelling an order takes its id from the ids at rest, and no other.
/// What is left can still rest together.
pub proof fn lemma_without_ids(s: Seq<Order>, id: OrderId, other: OrderId)
    requires
        resting_ok(s),
        has_id(s, id),
    ensures
        resting_ok(without(s, id)),
        has_id(without(s, id), other) <==> has_id(s, other) && other != id,
{
    let i = choose|i: int| 0 <= i < s.len() && (#[trigger] s[i]).id == id;
    lemma_without_one(s, i);
    lemma_remove_ok(s, i);
    lemma_remove_has_id(s, i, other);
}

} // verus!

verus! {

/// First in, first out: a drain that asks for no more than the earliest
/// order holds is served by that order alone, and every later order stays
/// as it was.
pub proof fn lemma_front_served_first(s: Seq<Order>, target: nat)
    requires
        s.len() > 0,
        target <= s[0].qty,
    ensures
        filled(s, target) == seq![s[0].with_qty(target as u64)],
        forall|id: OrderId| has_id(filled(s, target), id) ==> id == s[0].id,
        s.len() - 1 <= remaining(s, target).len(),
        forall|j: int|
            1 <= j < s.len() ==> remaining(s, target)[remaining(s, target).len() - s.len() + j]
                == #[trigger] s[j],
{
    let f = filled(s, target);
    assert forall|id: OrderId| has_id(f, id) implies id == s[0].id by {
        let i = choose|i: int| 0 <= i < f.len() && (#[trigger] f[i]).id == id;
    }
}

/// A drain that asks for all there is, or for more, hands out every resting
/// order whole and in order, and leaves nothing.
pub proof fn lemma_drain_all(s: Seq<Order>, target: nat)
    requires
        all_positive(s),
        target >= total_qty(s),
    ensures
        filled(s, target) == s,
        filled_qty(s, target) == total_qty(s),
        remaining(s, target) == Seq::<Order>::empty(),
    decreases s.len(),
{
    if s.len() > 0 {
        let tail = s.drop_first();
        assert forall|i: int| 0 <= i < tail.len() implies (#[trigger] tail[i]).qty > 0 by {
            assert(tail[i] == s[i + 1]);
        }
        if s[0].qty < target {
            lemma_drain_all(tail, (target - s[0].qty) as nat);
            assert(seq![s[0]] + tail =~= s);
        } else {
            lemma_total_qty_positive(tail);
            assert(s[0].with_qty(target as u64) == s[0]);
            assert(seq![s[0]] =~= s);
            assert(tail =~= Seq::<Order>::empty());
        }
    } else {
        assert(s =~= Seq::<Order>::empty());
    }
}

/// A drain that asks for less than there is gets all it asks for, and what
/// it leaves is the rest of the total.
pub proof fn lemma_drain_part(s: Seq<Order>, target: nat)
    requires
        target < total_qty(s),
    ensures
        filled_qty(s, target) == target,
        total_qty(remaining(s, target)) == total_qty(s) - target,
        remaining(s, target).len() > 0,
{
    lemma_remaining_total(s, target);
}

/// A cancelled order is out of reach of every later drain: it gives no
/// piece, and nothing of it is left behind.
pub proof fn lemma_cancelled_gives_no_piece(s: Seq<Order>, id: OrderId, target: nat)
    requires
        resting_ok(s),
    ensures
        !has_id(without(s, id), id),
        !has_id(filled(without(s, id), target), id),
        !has_id(remaining(without(s, id), target), id),
{
    if has_id(s, id) {
        lemma_without_ids(s, id, id);
    } else {
        lemma_without_absent(s, id);
    }
    lemma_drain_ids(without(s, id), target, id);
}

} // verus!
