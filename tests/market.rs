use bourse::market::Market;
use bourse::orderbook::{OrderBook, OrderBookState};
use rand::seq::SliceRandom;
use rand::Rng;
use rand_xoshiro::rand_core::SeedableRng;
use rand_xoshiro::Xoroshiro128Plus;
use bourse::types::{Price, Side, Status};

#[test]
fn market_test_init() {
    let market: Market<2, 10> = Market::new(101, [1, 2], true);

    assert!(market.get_time() == 101);
    assert!(market.bid_vols() == [0, 0]);
    assert!(market.ask_vols() == [0, 0]);
    assert!(market.bid_best_vols() == [0, 0]);
    assert!(market.bid_best_vol_and_orders() == [(0, 0), (0, 0)]);
    assert!(market.bid_best_vols() == [0, 0]);
    assert!(market.ask_best_vol_and_orders() == [(0, 0), (0, 0)]);
    assert!(market.bid_asks() == [(0, Price::MAX), (0, Price::MAX)]);
}

#[test]
fn market_test_insert_order() {
    let mut market: Market<2, 10> = Market::new(101, [1, 2], true);

    market
        .create_and_place_order(0, Side::Ask, 10, 0, Some(100))
        .unwrap();
    market
        .create_and_place_order(0, Side::Bid, 10, 0, Some(50))
        .unwrap();

    assert!(market.bid_asks() == [(50, 100), (0, Price::MAX)]);
    assert!(market.ask_vols() == [10, 0]);
    assert!(market.bid_vols() == [10, 0]);
    assert!(market.bid_best_vols() == [10, 0]);
    assert!(market.bid_best_vol_and_orders() == [(10, 1), (0, 0)]);
    assert!(market.ask_best_vols() == [10, 0]);
    assert!(market.ask_best_vol_and_orders() == [(10, 1), (0, 0)]);

    market
        .create_and_place_order(1, Side::Ask, 20, 0, Some(20))
        .unwrap();
    market
        .create_and_place_order(1, Side::Bid, 20, 0, Some(10))
        .unwrap();

    assert!(market.bid_asks() == [(50, 100), (10, 20)]);
    assert!(market.ask_vols() == [10, 20]);
    assert!(market.bid_vols() == [10, 20]);
    assert!(market.bid_best_vols() == [10, 20]);
    assert!(market.bid_best_vol_and_orders() == [(10, 1), (20, 1)]);
    assert!(market.ask_best_vols() == [10, 20]);
    assert!(market.ask_best_vol_and_orders() == [(10, 1), (20, 1)]);

    market
        .create_and_place_order(0, Side::Ask, 10, 0, Some(90))
        .unwrap();
    market
        .create_and_place_order(0, Side::Bid, 10, 0, Some(60))
        .unwrap();

    assert!(market.bid_asks() == [(60, 90), (10, 20)]);
    assert!(market.ask_vols() == [20, 20]);
    assert!(market.bid_vols() == [20, 20]);
    assert!(market.bid_best_vols() == [10, 20]);
    assert!(market.bid_best_vol_and_orders() == [(10, 1), (20, 1)]);
    assert!(market.ask_best_vols() == [10, 20]);
    assert!(market.ask_best_vol_and_orders() == [(10, 1), (20, 1)]);

    market
        .create_and_place_order(1, Side::Ask, 10, 0, Some(20))
        .unwrap();
    market
        .create_and_place_order(1, Side::Bid, 10, 0, Some(12))
        .unwrap();

    assert!(market.bid_asks() == [(60, 90), (12, 20)]);
    assert!(market.ask_vols() == [20, 30]);
    assert!(market.bid_vols() == [20, 30]);
    assert!(market.bid_best_vols() == [10, 10]);
    assert!(market.bid_best_vol_and_orders() == [(10, 1), (10, 1)]);
    assert!(market.ask_best_vols() == [10, 30]);
    assert!(market.ask_best_vol_and_orders() == [(10, 1), (30, 2)]);

    market
        .create_and_place_order(0, Side::Ask, 10, 0, Some(110))
        .unwrap();
    market
        .create_and_place_order(0, Side::Bid, 10, 0, Some(40))
        .unwrap();

    assert!(market.bid_asks() == [(60, 90), (12, 20)]);
    assert!(market.ask_vols() == [30, 30]);
    assert!(market.bid_vols() == [30, 30]);
    assert!(market.bid_best_vols() == [10, 10]);
    assert!(market.bid_best_vol_and_orders() == [(10, 1), (10, 1)]);
    assert!(market.ask_best_vols() == [10, 30]);
    assert!(market.ask_best_vol_and_orders() == [(10, 1), (30, 2)]);
}

#[test]
fn market_test_cancel_order() {
    let mut market: Market<2, 10> = Market::new(0, [1, 2], true);

    market
        .create_and_place_order(0, Side::Ask, 10, 0, Some(100))
        .unwrap();
    market
        .create_and_place_order(0, Side::Bid, 10, 0, Some(50))
        .unwrap();
    market
        .create_and_place_order(0, Side::Ask, 10, 0, Some(90))
        .unwrap();
    market
        .create_and_place_order(0, Side::Bid, 10, 0, Some(60))
        .unwrap();

    market
        .create_and_place_order(1, Side::Ask, 50, 0, Some(20))
        .unwrap();
    market
        .create_and_place_order(1, Side::Bid, 50, 0, Some(10))
        .unwrap();

    assert!(market.bid_asks() == [(60, 90), (10, 20)]);
    assert!(market.ask_vols() == [20, 50]);
    assert!(market.bid_vols() == [20, 50]);
    assert!(market.bid_best_vols() == [10, 50]);
    assert!(market.ask_best_vols() == [10, 50]);
    assert!(market.bid_best_vol_and_orders() == [(10, 1), (50, 1)]);
    assert!(market.ask_best_vol_and_orders() == [(10, 1), (50, 1)]);

    market.cancel_order((0, 0));
    market.cancel_order((0, 3));

    assert!(market.bid_asks() == [(50, 90), (10, 20)]);
    assert!(market.ask_vols() == [10, 50]);
    assert!(market.bid_vols() == [10, 50]);
    assert!(market.bid_best_vols() == [10, 50]);
    assert!(market.ask_best_vols() == [10, 50]);
    assert!(market.bid_best_vol_and_orders() == [(10, 1), (50, 1)]);
    assert!(market.ask_best_vol_and_orders() == [(10, 1), (50, 1)]);

    market.cancel_order((0, 1));
    market.cancel_order((0, 2));

    assert!(market.bid_asks() == [(0, Price::MAX), (10, 20)]);
    assert!(market.ask_vols() == [0, 50]);
    assert!(market.bid_vols() == [0, 50]);
    assert!(market.bid_best_vols() == [0, 50]);
    assert!(market.ask_best_vols() == [0, 50]);
    assert!(market.bid_best_vol_and_orders() == [(0, 0), (50, 1)]);
    assert!(market.ask_best_vol_and_orders() == [(0, 0), (50, 1)]);

    assert!(matches!(market.order((0, 0)).status, Status::Cancelled));
    assert!(matches!(market.order((0, 1)).status, Status::Cancelled));
    assert!(matches!(market.order((0, 2)).status, Status::Cancelled));
    assert!(matches!(market.order((0, 3)).status, Status::Cancelled));
}

#[test]
fn market_test_mod_order_vol() {
    let mut market: Market<2, 10> = Market::new(0, [1, 2], true);

    market
        .create_and_place_order(0, Side::Ask, 10, 0, Some(100))
        .unwrap();
    market
        .create_and_place_order(0, Side::Bid, 10, 0, Some(50))
        .unwrap();

    market.modify_order((0, 0), None, Some(8));
    market.modify_order((0, 1), None, Some(5));

    assert!(market.ask_vols() == [8, 0]);
    assert!(market.ask_best_vols() == [8, 0]);
    assert!(market.ask_best_vol_and_orders() == [(8, 1), (0, 0)]);
    assert!(market.bid_vols() == [5, 0]);
    assert!(market.bid_best_vols() == [5, 0]);
    assert!(market.bid_best_vol_and_orders() == [(5, 1), (0, 0)]);

    assert!(market.order((0, 0)).vol == 8);
    assert!(market.order((0, 1)).vol == 5);
}

#[test]
fn market_test_serialisation() {
    let mut market: Market<4, 10> = Market::new(0, [1, 1, 1, 1], true);

    let mut rng = Xoroshiro128Plus::seed_from_u64(101);

    for i in (0..500).into_iter() {
        let asset = rng.gen_range(0..4);
        let side = [Side::Bid, Side::Ask].choose(&mut rng).unwrap();
        let price = rng.gen_range(20..40);
        let vol = rng.gen_range(5..20);
        market
            .create_and_place_order(asset, *side, vol, 0, Some(price))
            .unwrap();
        market.set_time(i);
    }

    let market_snapshot: Vec<OrderBookState> =
        (0..4).map(|i| market.get_order_book(i).to_snapshot()).collect();
    let books: Vec<OrderBook<10>> = market_snapshot
        .into_iter()
        .map(|s| OrderBook::from_snapshot(s).unwrap())
        .collect();
    let loaded_market: Market<4, 10> = Market::from_books(books).unwrap();

    assert!(market.get_trade_vols() == loaded_market.get_trade_vols());

    assert!(market.bid_asks() == loaded_market.bid_asks());

    assert!(market.bid_best_vol_and_orders() == loaded_market.bid_best_vol_and_orders());
    assert!(market.bid_vols() == loaded_market.bid_vols());

    assert!(market.ask_best_vol_and_orders() == loaded_market.ask_best_vol_and_orders());
    assert!(market.ask_vols() == loaded_market.ask_vols());
}
