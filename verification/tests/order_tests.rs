use orderbook::{Order, Side};

#[test]
fn not_side_impl() {
    let ask = Side::Ask;
    let bid = Side::Bid;

    assert_eq!(!ask, Side::Bid);
    assert_eq!(!bid, Side::Ask);
}

#[test]
fn order_index_ordering_ask() {
    let o1 = Order {
        price: 69,
        side: Side::Ask,
        ..Order::default()
    };
    let o2 = Order {
        price: 70,
        side: Side::Ask,
        ..Order::default()
    };

    assert!(o1 > o2);
    assert!(o1 != o2);
}

#[test]
fn order_index_ordering_bid() {
    let o1 = Order {
        price: 69,
        side: Side::Bid,
        ..Order::default()
    };
    let o2 = Order {
        price: 70,
        side: Side::Bid,
        ..Order::default()
    };

    assert!(o1 < o2);
    assert!(o1 != o2);
}
