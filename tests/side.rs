use bourse::side::{get_ask_key, get_bid_key, AskSide, BidSide, OrderBookSide, SideFunctionality};
use bourse::types::{Price, Side, Status};

#[test]
fn test_ask_init() {
    let side = AskSide::new();

    assert!(side.vol() == 0);
    assert!(side.best_vol() == 0);
    assert!(side.best_price() == Price::MAX);
    assert!(side.best_order_idx().is_none());
}

#[test]
fn test_bid_init() {
    let side = BidSide::new();

    assert!(side.vol() == 0);
    assert!(side.best_vol() == 0);
    assert!(side.best_vol_and_orders() == (0, 0));
    assert!(side.best_price() == 0);
    assert!(side.best_order_idx().is_none());
}

#[test]
fn side_test_insert_order() {
    let mut side = OrderBookSide::new();

    side.insert_order((Side::Ask, 100, 10), 1, 10);

    assert!(side.vol() == 10);
    assert!(side.best_vol() == 10);
    assert!(side.best_vol_and_orders() == (10, 1));
    assert!(side.best_price() == 100);
    assert!(side.best_order_idx() == Some(1));

    // Insert order at the same level
    side.insert_order((Side::Ask, 100, 11), 2, 11);

    assert!(side.vol() == 21);
    assert!(side.best_vol() == 21);
    assert!(side.best_vol_and_orders() == (21, 2));
    assert!(side.best_price() == 100);
    assert!(side.best_order_idx() == Some(1));

    // Insert higher price
    side.insert_order((Side::Ask, 101, 12), 3, 12);

    assert!(side.vol() == 33);
    assert!(side.best_vol() == 21);
    assert!(side.best_vol_and_orders() == (21, 2));
    assert!(side.best_price() == 100);
    assert!(side.best_order_idx() == Some(1));

    // Insert lower price
    side.insert_order((Side::Ask, 99, 13), 4, 2);

    assert!(side.vol() == 35);
    assert!(side.best_vol() == 2);
    assert!(side.best_vol_and_orders() == (2, 1));
    assert!(side.best_price() == 99);
    assert!(side.best_order_idx() == Some(4));

    let x: u8 = 255 - 10;
    assert!(x == 245);
    let y: u8 = 255 - x;
    assert!(y == 10);
}

#[test]
fn test_best_bid_price() {
    let mut side = BidSide::new();

    side.insert_order(get_bid_key(0, 100), 1, 10);

    assert!(side.best_price() == 100);
}

#[test]
fn test_best_ask_price() {
    let mut side = AskSide::new();

    side.insert_order(get_ask_key(0, 100), 1, 10);

    assert!(side.best_price() == 100);
}

#[test]
fn test_remove_order() {
    let mut side = AskSide::new();

    side.insert_order(get_ask_key(0, 100), 1, 10);
    side.insert_order(get_ask_key(1, 99), 2, 10);

    assert!(side.best_price() == 99);
    assert!(side.vol() == 20);
    assert!(side.best_vol_and_orders() == (10, 1));
    assert!(side.best_order_idx() == Some(2));

    side.remove_order(get_ask_key(1, 99), 10);

    assert!(side.best_price() == 100);
    assert!(side.vol() == 10);
    assert!(side.best_vol_and_orders() == (10, 1));
    assert!(side.best_order_idx() == Some(1));

    side.insert_order(get_ask_key(3, 100), 3, 15);

    assert!(side.best_price() == 100);
    assert!(side.vol() == 25);
    assert!(side.best_vol_and_orders() == (25, 2));
    assert!(side.best_order_idx() == Some(1));

    side.remove_order(get_ask_key(3, 100), 15);

    assert!(side.best_price() == 100);
    assert!(side.vol() == 10);
    assert!(side.best_vol_and_orders() == (10, 1));
    assert!(side.best_order_idx() == Some(1));

    side.remove_order(get_ask_key(0, 100), 10);

    assert!(side.best_price() == Price::MAX);
    assert!(side.vol() == 0);
    assert!(side.best_vol_and_orders() == (0, 0));
    assert!(side.best_order_idx() == None);
}

#[test]
fn test_remove_vol() {
    let mut side = AskSide::new();

    side.insert_order(get_ask_key(0, 100), 1, 10);

    side.remove_vol(100, 5);

    assert!(side.best_vol() == 5);
    assert!(side.best_vol_and_orders() == (5, 1));
    assert!(side.vol() == 5);
}

#[test]
fn side_equal_keys_keep_insertion_order() {
    let mut side = AskSide::new();

    side.insert_order(get_ask_key(0, 100), 7, 10);
    side.insert_order(get_ask_key(0, 100), 3, 5);

    assert!(side.best_vol_and_orders() == (15, 2));
    assert!(side.best_order_idx() == Some(7));

    side.remove_order(get_ask_key(0, 100), 10);

    assert!(side.best_order_idx() == Some(3));
    assert!(side.best_vol_and_orders() == (5, 1));
}

#[test]
fn side_bid_levels_by_price() {
    let mut side = BidSide::new();

    side.insert_order(get_bid_key(0, 100), 1, 10);
    side.insert_order(get_bid_key(1, 98), 2, 4);

    assert!(side.best_price() == 100);
    assert!(side.vol_and_orders_at_price(98) == (4, 1));
    assert!(side.vol_and_orders_at_price(99) == (0, 0));
    assert!(get_bid_key(5, 100) == (Side::Bid, Price::MAX - 100, 5));
}

#[test]
fn side_flags_and_status_codes() {
    assert!(Side::from(true) == Side::Bid);
    assert!(Side::from(false) == Side::Ask);
    assert!(bool::from(Side::Bid));
    assert!(!bool::from(Side::Ask));
    assert!(u8::from(Status::New) == 0);
    assert!(u8::from(Status::Active) == 1);
    assert!(u8::from(Status::Filled) == 2);
    assert!(u8::from(Status::Cancelled) == 3);
    assert!(u8::from(Status::Rejected) == 4);
}
