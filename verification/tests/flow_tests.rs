use orderbook::{BookSide, Order, OrderBook, OrderBookError, PriceLevel, Sequencer, Side};
use std::cmp::Ordering;

fn ask(price: u64, qty: u64, id: u64) -> Order {
    Order::new(price, qty, Side::Ask, id)
}

fn bid(price: u64, qty: u64, id: u64) -> Order {
    Order::new(price, qty, Side::Bid, id)
}

#[test]
fn total_follows_inserts_cancels_and_drains() {
    let mut pl = PriceLevel::new();
    assert_eq!(pl.get_total_qty(), 0);
    pl.insert(&ask(69, 100, 1));
    pl.insert(&ask(69, 50, 2));
    pl.insert(&ask(69, 7, 3));
    assert_eq!(pl.get_total_qty(), 157);
    assert_eq!(pl.remove(2), Ok(()));
    assert_eq!(pl.get_total_qty(), 107);
    let (pieces, got) = pl.get_orders_till_qty(30);
    assert_eq!(got, 30);
    assert_eq!(pieces, vec![ask(69, 30, 1)]);
    assert_eq!(pl.get_total_qty(), 77);
    let (pieces, got) = pl.get_orders_till_qty(75);
    assert_eq!(got, 75);
    assert_eq!(pieces, vec![ask(69, 70, 1), ask(69, 5, 3)]);
    assert_eq!(pl.get_total_qty(), 2);
    assert_eq!(pl.len(), 1);
}

#[test]
fn earlier_order_is_served_before_later_one() {
    let mut pl = PriceLevel::new();
    pl.insert(&ask(69, 420, 1));
    pl.insert(&ask(69, 420, 2));
    let (pieces, got) = pl.get_orders_till_qty(419);
    assert_eq!(got, 419);
    assert_eq!(pieces, vec![ask(69, 419, 1)]);
    assert!(pl.contains(1));
    assert!(pl.contains(2));
    assert_eq!(pl.get_total_qty(), 421);
}

#[test]
fn partly_filled_order_keeps_its_place() {
    let mut pl = PriceLevel::new();
    pl.insert(&ask(69, 10, 1));
    pl.insert(&ask(69, 10, 2));
    let (pieces, got) = pl.get_orders_till_qty(5);
    assert_eq!((pieces, got), (vec![ask(69, 5, 1)], 5));
    pl.insert(&ask(69, 10, 3));
    let (pieces, got) = pl.get_orders_till_qty(10);
    assert_eq!(got, 10);
    assert_eq!(pieces, vec![ask(69, 5, 1), ask(69, 5, 2)]);
    let (pieces, got) = pl.get_orders_till_qty(100);
    assert_eq!(got, 15);
    assert_eq!(pieces, vec![ask(69, 5, 2), ask(69, 10, 3)]);
    assert!(pl.is_empty());
}

#[test]
fn partial_fill_then_rest() {
    let mut pl = PriceLevel::new();
    pl.insert(&ask(69, 420, 1));
    let (pieces, got) = pl.get_orders_till_qty(418);
    assert_eq!(pieces, vec![ask(69, 418, 1)]);
    assert_eq!(got, 418);
    assert_eq!(pl.get_total_qty(), 2);
    let (pieces, got) = pl.get_orders_till_qty(2);
    assert_eq!(pieces, vec![ask(69, 2, 1)]);
    assert_eq!(got, 2);
    assert_eq!(pl.get_total_qty(), 0);
    assert!(pl.is_empty());
    assert!(!pl.contains(1));
}

#[test]
fn exact_drain_takes_price_from_the_index() {
    let mut ob = OrderBook::new();
    assert_eq!(ob.insert(ask(69, 420, 1)), Ok(()));
    assert_eq!(ob.get_best_price(Side::Ask), Some(&69));
    let (pieces, got) = ob.get_orders_till_qty(69, Side::Ask, 420).unwrap();
    assert_eq!(pieces, vec![ask(69, 420, 1)]);
    assert_eq!(got, 420);
    assert_eq!(ob.get_best_price(Side::Ask), None);
    assert_eq!(ob.get_total_qty(69, Side::Ask), None);
    assert!(!ob.contains(1));
    assert_eq!(ob.remove(1), Err(OrderBookError::UnknownId(1)));
    assert!(ob.get_orders_till_qty(69, Side::Ask, 1).is_none());
}

#[test]
fn drained_best_price_gives_way_to_the_next() {
    let mut ob = OrderBook::new();
    assert_eq!(ob.insert(ask(70, 5, 1)), Ok(()));
    assert_eq!(ob.insert(ask(69, 5, 2)), Ok(()));
    assert_eq!(ob.insert(ask(68, 5, 3)), Ok(()));
    assert_eq!(ob.get_best_price(Side::Ask), Some(&70));
    let (_, got) = ob.get_orders_till_qty(70, Side::Ask, 5).unwrap();
    assert_eq!(got, 5);
    assert_eq!(ob.get_best_price(Side::Ask), Some(&69));
    let (_, got) = ob.get_orders_till_qty(69, Side::Ask, 4).unwrap();
    assert_eq!(got, 4);
    assert_eq!(ob.get_best_price(Side::Ask), Some(&69));
    assert_eq!(ob.get_total_qty(69, Side::Ask), Some(1));
    assert_eq!(ob.remove(2), Ok(()));
    assert_eq!(ob.get_best_price(Side::Ask), Some(&68));
}

#[test]
fn over_drain_returns_what_there_is() {
    let mut pl = PriceLevel::new();
    pl.insert(&ask(69, 420, 1));
    pl.insert(&ask(69, 420, 2));
    let (pieces, got) = pl.get_orders_till_qty(842);
    assert_eq!(pieces, vec![ask(69, 420, 1), ask(69, 420, 2)]);
    assert_eq!(got, 840);
    assert!(got < 842);
    assert!(pl.is_empty());
    assert_eq!(pl.get_total_qty(), 0);
}

#[test]
fn drain_of_an_empty_level_gives_nothing() {
    let mut pl = PriceLevel::new();
    let (pieces, got) = pl.get_orders_till_qty(10);
    assert!(pieces.is_empty());
    assert_eq!(got, 0);
}

#[test]
fn drain_of_nothing_leaves_the_level_alone() {
    let mut pl = PriceLevel::new();
    pl.insert(&ask(69, 420, 1));
    let (pieces, got) = pl.get_orders_till_qty(0);
    assert_eq!(pieces, vec![ask(69, 0, 1)]);
    assert_eq!(got, 0);
    assert_eq!(pl.get_total_qty(), 420);
    assert!(pl.contains(1));
}

#[test]
fn duplicate_id_is_refused_and_changes_nothing() {
    let mut ob = OrderBook::new();
    assert_eq!(ob.insert(ask(69, 420, 1)), Ok(()));
    assert_eq!(
        ob.insert(ask(69, 10, 1)),
        Err(OrderBookError::DuplicateOrderId(1))
    );
    assert_eq!(
        ob.insert(bid(50, 10, 1)),
        Err(OrderBookError::DuplicateOrderId(1))
    );
    assert_eq!(ob.get_total_qty(69, Side::Ask), Some(420));
    assert_eq!(ob.get_total_qty(50, Side::Bid), None);
    assert_eq!(ob.get_best_price(Side::Bid), None);
    let (pieces, got) = ob.get_orders_till_qty(69, Side::Ask, 1000).unwrap();
    assert_eq!(pieces, vec![ask(69, 420, 1)]);
    assert_eq!(got, 420);
}

#[test]
fn unknown_id_is_reported() {
    let mut ob = OrderBook::new();
    assert_eq!(ob.remove(7), Err(OrderBookError::UnknownId(7)));
    assert_eq!(ob.insert(bid(69, 420, 7)), Ok(()));
    assert_eq!(ob.remove(7), Ok(()));
    assert_eq!(ob.remove(7), Err(OrderBookError::UnknownId(7)));
    assert_eq!(ob.try_remove(7), Err(OrderBookError::UnknownId(7)));
    assert_eq!(ob.get_best_price(Side::Bid), None);
}

#[test]
fn cancel_in_the_middle() {
    let mut ob = OrderBook::new();
    assert_eq!(ob.insert(ask(69, 100, 1)), Ok(()));
    assert_eq!(ob.insert(ask(69, 50, 2)), Ok(()));
    assert_eq!(ob.insert(ask(69, 7, 3)), Ok(()));
    assert_eq!(ob.get_total_qty(69, Side::Ask), Some(157));
    assert_eq!(ob.remove(2), Ok(()));
    assert_eq!(ob.get_total_qty(69, Side::Ask), Some(107));
    assert_eq!(ob.remove(2), Err(OrderBookError::UnknownId(2)));
    let (pieces, got) = ob.get_orders_till_qty(69, Side::Ask, 1000).unwrap();
    assert_eq!(pieces, vec![ask(69, 100, 1), ask(69, 7, 3)]);
    assert_eq!(got, 107);
}

#[test]
fn id_that_returns_goes_to_the_back() {
    let mut pl = PriceLevel::new();
    pl.insert(&ask(69, 10, 1));
    pl.insert(&ask(69, 20, 2));
    assert_eq!(pl.remove(1), Ok(()));
    pl.insert(&ask(69, 30, 1));
    assert_eq!(pl.len(), 2);
    assert_eq!(pl.get_total_qty(), 50);
    let (pieces, got) = pl.get_orders_till_qty(25);
    assert_eq!(pieces, vec![ask(69, 20, 2), ask(69, 5, 1)]);
    assert_eq!(got, 25);
    let (pieces, got) = pl.get_orders_till_qty(25);
    assert_eq!(pieces, vec![ask(69, 25, 1)]);
    assert_eq!(got, 25);
    assert!(pl.is_empty());
}

#[test]
fn used_up_id_can_rest_again() {
    let mut ob = OrderBook::new();
    assert_eq!(ob.insert(bid(69, 10, 1)), Ok(()));
    assert_eq!(ob.insert(bid(69, 10, 2)), Ok(()));
    let (pieces, got) = ob.get_orders_till_qty(69, Side::Bid, 15).unwrap();
    assert_eq!(pieces, vec![bid(69, 10, 1), bid(69, 5, 2)]);
    assert_eq!(got, 15);
    assert!(!ob.contains(1));
    assert!(ob.contains(2));
    assert_eq!(
        ob.insert(bid(70, 1, 2)),
        Err(OrderBookError::DuplicateOrderId(2))
    );
    assert_eq!(ob.insert(ask(69, 3, 1)), Ok(()));
    assert_eq!(ob.get_total_qty(69, Side::Ask), Some(3));
    assert_eq!(ob.get_total_qty(69, Side::Bid), Some(5));
    assert_eq!(ob.remove(2), Ok(()));
    assert_eq!(ob.get_total_qty(69, Side::Bid), None);
}

#[test]
fn sides_do_not_touch_each_other() {
    let mut ob = OrderBook::new();
    assert_eq!(ob.insert(ask(69, 10, 1)), Ok(()));
    assert_eq!(ob.insert(bid(69, 20, 2)), Ok(()));
    assert_eq!(ob.get_total_qty(69, Side::Ask), Some(10));
    assert_eq!(ob.get_total_qty(69, Side::Bid), Some(20));
    let (pieces, got) = ob.get_orders_till_qty(69, Side::Bid, 100).unwrap();
    assert_eq!(pieces, vec![bid(69, 20, 2)]);
    assert_eq!(got, 20);
    assert_eq!(ob.get_best_price(Side::Ask), Some(&69));
    assert_eq!(ob.get_best_price(Side::Bid), None);
    assert!(ob.contains(1));
}

#[test]
fn best_price_of_each_side() {
    let mut asks = BookSide::new(Side::Ask);
    let mut bids = BookSide::new(Side::Bid);
    assert_eq!(asks.get_best_price(), None);
    for (i, price) in [70u64, 68, 72, 69].iter().enumerate() {
        asks.insert(&ask(*price, 1, i as u64));
        bids.insert(&bid(*price, 1, i as u64));
    }
    assert_eq!(asks.num_levels(), 4);
    assert_eq!(asks.get_best_price(), Some(&72));
    assert_eq!(bids.get_best_price(), Some(&68));
    assert_eq!(asks.remove(2), Ok(()));
    assert_eq!(bids.remove(1), Ok(()));
    assert_eq!(asks.get_best_price(), Some(&70));
    assert_eq!(bids.get_best_price(), Some(&69));
    assert!(!asks.has_level(72));
    assert_eq!(asks.num_levels(), 3);
    assert_eq!(asks.remove(2), Err(OrderBookError::UnknownId(2)));
}

#[test]
fn side_drain_at_an_idle_price() {
    let mut asks = BookSide::new(Side::Ask);
    asks.insert(&ask(69, 1, 1));
    assert!(asks.get_orders_till_qty(70, 1).is_none());
    assert_eq!(asks.get_total_qty(70), None);
    assert!(asks.contains(1));
    assert!(!asks.is_empty());
}

#[test]
fn sequencer_counts_from_one() {
    let mut seq = Sequencer::new();
    assert!(seq.has_next());
    assert_eq!(seq.get_next_id(), 1);
    assert_eq!(seq.get_next_id(), 2);
    assert_eq!(seq.get_next_id(), 3);
}

#[test]
fn order_parts() {
    let mut order = Order::new(69, 420, Side::Bid, 5);
    assert_eq!(
        order,
        Order {
            price: 69,
            qty: 420,
            side: Side::Bid,
            id: 5
        }
    );
    order.assign_order_id(9);
    assert_eq!(order, bid(69, 420, 9));
    assert_eq!(Order::default(), ask(69, 420, 1));
}

#[test]
fn opposite_sides() {
    assert_eq!(Side::Ask.opposite(), Side::Bid);
    assert_eq!(Side::Bid.opposite(), Side::Ask);
    assert_eq!(Side::Ask.opposite().opposite(), Side::Ask);
    assert_eq!(!!Side::Bid, Side::Bid);
}

#[test]
fn orders_compare_by_price_within_a_side() {
    assert_eq!(
        ask(69, 1, 1).partial_cmp(&ask(70, 1, 2)),
        Some(Ordering::Greater)
    );
    assert_eq!(
        ask(70, 1, 1).partial_cmp(&ask(69, 1, 2)),
        Some(Ordering::Less)
    );
    assert_eq!(
        bid(69, 1, 1).partial_cmp(&bid(70, 1, 2)),
        Some(Ordering::Less)
    );
    assert_eq!(
        bid(70, 1, 1).partial_cmp(&bid(69, 1, 2)),
        Some(Ordering::Greater)
    );
    assert_eq!(
        ask(69, 1, 1).partial_cmp(&ask(69, 1, 1)),
        Some(Ordering::Equal)
    );
    assert_eq!(ask(69, 1, 1).partial_cmp(&ask(69, 1, 2)), None);
    assert_eq!(ask(69, 1, 1).partial_cmp(&bid(70, 1, 1)), None);
}
