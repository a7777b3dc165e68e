use orderbook::{BookSide, Order, OrderId, Side};

#[test]
fn book_side_insert() {
    // Setup
    let side = Side::Ask;
    let mut bs = BookSide::new(side);
    let price = 69;
    let qty = 420;
    let id: OrderId = 1;
    let order = Order {
        price,
        qty,
        side,
        id,
    };

    // Act
    bs.insert(&order);

    // Assert
    assert!(bs.contains(id));
    assert!(bs.has_level(price));
    assert_eq!(bs.get_total_qty(price), Some(qty));
    assert_eq!(bs.num_levels(), 1);
    let best_price = bs.get_best_price().unwrap();
    assert_eq!(*best_price, price);
}

#[test]
fn book_side_remove() {
    // Setup
    let side = Side::Ask;
    let mut bs = BookSide::new(side);
    let price = 69;
    let qty = 420;
    let id: OrderId = 1;
    let order = Order {
        price,
        qty,
        side,
        id,
    };

    bs.insert(&order);
    let _ = bs.remove(id);

    // Act
    assert!(!bs.contains(id));
    assert!(bs.is_empty());
}

#[test]
fn book_side_get_best_price_ask() {
    // Setup
    let side = Side::Ask;
    let mut bs = BookSide::new(side);
    // First order
    let price = 69;
    let qty = 420;
    let id: OrderId = 1;
    let o1 = Order {
        price,
        qty,
        side,
        id,
    };
    bs.insert(&o1);

    // Second order
    let price = 70;
    let id: OrderId = 2;
    let o2 = Order {
        price,
        qty,
        side,
        id,
    };
    bs.insert(&o2);

    // Act
    let best_price = bs.get_best_price();

    // Assert
    assert_eq!(best_price, Some(&o2.price));
}

#[test]
fn book_side_get_best_price_bid() {
    // Setup
    let side = Side::Bid;
    let mut bs = BookSide::new(side);
    // First order
    let price = 69;
    let qty = 420;
    let id: OrderId = 1;
    let o1 = Order {
        price,
        qty,
        side,
        id,
    };
    bs.insert(&o1);

    // Second order
    let price = 70;
    let id: OrderId = 2;
    let o2 = Order {
        price,
        qty,
        side,
        id,
    };
    bs.insert(&o2);

    // Act
    let best_price = bs.get_best_price();

    // Assert
    assert_eq!(best_price, Some(&o1.price));
}

#[test]
fn get_total_qty() {
    // Setup
    let side = Side::Bid;
    let mut bs = BookSide::new(side);
    // First order
    let price = 69;
    let qty = 420;
    let id: OrderId = 1;
    let o1 = Order {
        price,
        qty,
        side,
        id,
    };
    bs.insert(&o1);

    // Second order
    let id: OrderId = 2;
    let o2 = Order {
        price,
        qty,
        side,
        id,
    };
    bs.insert(&o2);

    // Act
    let total_qty = bs.get_total_qty(price);

    // Assert
    assert_eq!(total_qty, Some(qty * 2));
}

#[test]
// Function tested in `PriceLevel`
fn get_till_qty() {
    // Setup
    let side = Side::Bid;
    let mut bs = BookSide::new(side);
    // First order
    let price = 69;
    let qty = 420;
    let id: OrderId = 1;
    let o1 = Order {
        price,
        qty,
        side,
        id,
    };
    bs.insert(&o1);

    // Second order
    let id_2: OrderId = 2;
    let o2 = Order {
        price,
        qty,
        side,
        id: id_2,
    };
    bs.insert(&o2);

    // Act
    let res = bs.get_orders_till_qty(price, qty * 2);
    assert!(res.is_some());
    let (items, total_qty) = res.unwrap();

    // Assert
    assert_eq!(items.len(), 2);
    assert_eq!(total_qty, qty * 2);

    // First item
    let item = items.first().unwrap();
    assert_eq!(item.qty, qty);
    assert!(!bs.contains(id));

    // First item
    let item = items.get(1).unwrap();
    assert_eq!(item.qty, qty);
    assert!(!bs.contains(id_2));
}
