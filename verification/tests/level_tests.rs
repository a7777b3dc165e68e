use orderbook::{Order, OrderId, PriceLevel, Side};

#[test]
fn get_single_till_qty_remaining() {
    // Setup
    let mut pl = PriceLevel::default();
    let price = 69;
    let qty = 420;
    let side = Side::Ask;
    let id: OrderId = 1;
    let order = Order {
        price,
        qty,
        side,
        id,
    };

    pl.insert(&order);
    // Act
    let (items, total_qty) = pl.get_orders_till_qty(qty - 2);

    // Assert
    assert_eq!(pl.get_total_qty(), 2);
    assert_eq!(items.len(), 1);
    let item = items.first().unwrap();
    assert_eq!(item.qty, qty - 2);
    assert_eq!(total_qty, qty - 2);
}

#[test]
fn get_single_till_qty_drain_exact() {
    // Setup
    let mut pl = PriceLevel::default();
    let price = 69;
    let qty = 420;
    let side = Side::Ask;
    let id: OrderId = 1;
    let order = Order {
        price,
        qty,
        side,
        id,
    };

    pl.insert(&order);
    // Act
    let (items, total_qty) = pl.get_orders_till_qty(qty);

    // Assert
    assert_eq!(pl.get_total_qty(), 0);
    assert_eq!(items.len(), 1);
    let item = items.first().unwrap();
    assert_eq!(item.qty, qty);
    assert_eq!(total_qty, qty);
}

#[test]
fn get_multi_till_qty_remaining() {
    // Setup
    let mut pl = PriceLevel::default();
    let price = 69;
    let qty = 420;
    let side = Side::Ask;
    let id: OrderId = 1;
    let order = Order {
        price,
        qty,
        side,
        id,
    };

    pl.insert(&order);
    let id_2: OrderId = 2;
    let order = Order {
        price,
        qty,
        side,
        id: id_2,
    };

    pl.insert(&order);
    // Act
    let (items, total_qty) = pl.get_orders_till_qty(qty + 3);

    // Assert
    assert_eq!(total_qty, qty + 3);
    assert_eq!(items.len(), 2);
    assert_eq!(pl.get_total_qty(), qty - 3);
    assert_eq!(pl.len(), 1);
    assert!(!pl.is_empty());

    // First item
    let item = items.first().unwrap();
    assert_eq!(item.qty, qty);
    assert!(!pl.contains(id));

    // Second item
    let item = items.get(1).unwrap();
    assert_eq!(item.qty, 3);
    assert!(pl.contains(id_2));
}

#[test]
// given quantity larger than total_qty
fn get_multi_till_qty_overflow() {
    // Setup
    let mut pl = PriceLevel::default();
    let price = 69;
    let qty = 420;
    let side = Side::Ask;
    let id: OrderId = 1;
    let order = Order {
        price,
        qty,
        side,
        id,
    };

    pl.insert(&order);
    let id_2: OrderId = 2;
    let order = Order {
        price,
        qty,
        side,
        id: id_2,
    };

    pl.insert(&order);
    let test_qty = (qty * 2) + 2;
    // Act
    let (items, total_qty) = pl.get_orders_till_qty(test_qty);

    // Assert
    assert_ne!(total_qty, test_qty);
    assert_eq!(total_qty, qty * 2);
    assert_eq!(items.len(), 2);
    assert_eq!(pl.get_total_qty(), 0);
    assert_eq!(pl.len(), 0);
    assert!(pl.is_empty());

    // First item
    let item = items.first().unwrap();
    assert_eq!(item.qty, qty);
    assert!(!pl.contains(id));

    // Second item
    let item = items.get(1).unwrap();
    assert_eq!(item.qty, qty);
    assert!(!pl.contains(id_2));
}

#[test]
fn get_multi_till_qty_exact() {
    // Setup
    let mut pl = PriceLevel::default();
    let price = 69;
    let qty = 420;
    let side = Side::Ask;
    let id: OrderId = 1;
    let order = Order {
        price,
        qty,
        side,
        id,
    };

    pl.insert(&order);
    let id_2: OrderId = 2;
    let order = Order {
        price,
        qty,
        side,
        id: id_2,
    };

    pl.insert(&order);
    // Act
    let (items, total_qty) = pl.get_orders_till_qty(qty * 2);

    // Assert
    assert_eq!(total_qty, qty * 2);
    assert_eq!(items.len(), 2);
    assert_eq!(pl.get_total_qty(), 0);
    assert_eq!(pl.len(), 0);
    assert!(pl.is_empty());

    // First item
    let item = items.first().unwrap();
    assert_eq!(item.qty, qty);
    assert!(!pl.contains(id));

    // Second item
    let item = items.get(1).unwrap();
    assert_eq!(item.qty, qty);
    assert!(!pl.contains(id_2));
}

#[test]
fn insert() {
    // Setup
    let mut pl = PriceLevel::default();
    let price = 69;
    let qty = 420;
    let side = Side::Ask;
    let id: OrderId = 1;
    let order = Order {
        price,
        qty,
        side,
        id,
    };

    // Act
    pl.insert(&order);

    // Assert
    assert_eq!(pl.get_total_qty(), qty);
    assert_eq!(pl.len(), 1);
    assert!(pl.contains(id));
}

#[test]
fn remove() {
    // Setup
    let mut pl = PriceLevel::default();
    let price = 69;
    let qty = 420;
    let side = Side::Ask;
    let id: OrderId = 1;
    let order = Order {
        price,
        qty,
        side,
        id,
    };

    pl.insert(&order);
    // Act
    let _ = pl.remove(id);

    // Assert
    assert!(!pl.contains(id));
    assert_eq!(pl.get_total_qty(), 0);
}

#[test]
fn price_level_insert() {
    // Setup
    let mut pl = PriceLevel::default();
    let price = 69;
    let qty = 420;
    let side = Side::Ask;
    let id: OrderId = 1;
    let order = Order {
        price,
        qty,
        side,
        id,
    };

    // Act
    pl.insert(&order);

    // Assert
    assert_eq!(pl.get_total_qty(), qty);
    assert_eq!(pl.len(), 1);
    assert!(pl.contains(id));
}

#[test]
fn price_level_remove() {
    // Setup
    let mut pl = PriceLevel::default();
    let price = 69;
    let qty = 420;
    let side = Side::Ask;
    let id: OrderId = 1;
    let order = Order {
        price,
        qty,
        side,
        id,
    };

    pl.insert(&order);
    // Act
    let ret = pl.remove(id);

    // Assert
    assert!(ret.is_ok());
    assert!(!pl.contains(id));
    assert_eq!(pl.get_total_qty(), 0);
    assert_eq!(pl.len(), 0);
}

#[test]
fn price_level_remove_unknown_id() {
    // Setup
    let mut pl = PriceLevel::default();
    let id: OrderId = 1;

    // Act
    let ret = pl.remove(id);

    // Assert
    assert!(ret.is_err());
}
