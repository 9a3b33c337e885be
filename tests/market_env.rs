use bourse::market_env::MarketEnv;
use bourse::types::{Nanos, Price, Side, Status};
use rand_xoshiro::rand_core::SeedableRng;
use rand_xoshiro::Xoroshiro128StarStar as Rng;

#[test]
fn market_env_test_env() {
    let step_size: Nanos = 1000;
    let mut env: MarketEnv<2, 10> = MarketEnv::new(0, [1, 1], step_size, true);
    let mut rng = Rng::seed_from_u64(101);

    env.place_order(0, Side::Bid, 10, 101, Some(10)).unwrap();
    env.place_order(0, Side::Ask, 20, 101, Some(20)).unwrap();

    env.step(&mut rng);

    assert!(env.get_transactions().len() == 0);
    assert!(env.get_market().bid_asks() == [(10, 20), (0, Price::MAX)]);
    assert!(env.get_orders(0).len() == 2);
    assert!(env.get_orders(0)[0].status == Status::Active);
    assert!(env.get_orders(0)[1].status == Status::Active);
    assert!(env.get_market().get_time() == step_size);

    env.place_order(0, Side::Bid, 10, 101, Some(11)).unwrap();
    env.place_order(0, Side::Ask, 20, 101, Some(21)).unwrap();

    env.step(&mut rng);

    assert!(env.get_market().bid_asks() == [(11, 20), (0, Price::MAX)]);
    assert!(env.get_orders(0).len() == 4);
    assert!(env.get_market().get_time() == 2 * step_size);

    env.place_order(0, Side::Bid, 30, 101, None).unwrap();

    env.step(&mut rng);

    assert!(env.get_market().bid_asks() == [(11, 21), (0, Price::MAX)]);
    assert!(env.get_market().ask_vols() == [10, 0]);
    assert!(env.get_orders(0).len() == 5);
    assert!(env.get_orders(0)[1].status == Status::Filled);
    assert!(env.get_orders(0)[4].status == Status::Filled);
    assert!(env.get_trades(0).len() == 2);
    assert!(env.get_market().get_time() == 3 * step_size);

    let prices = env.get_prices(0);
    assert!(prices.0 == vec![10, 11, 11]);
    assert!(prices.1 == vec![20, 20, 21]);

    let volumes = env.get_volumes(0);
    assert!(volumes.0 == vec![10, 20, 20]);
    assert!(volumes.1 == vec![20, 40, 10]);

    let touch_volumes = env.get_touch_volumes(0);
    assert!(*touch_volumes.0 == vec![10, 10, 10]);
    assert!(*touch_volumes.1 == vec![20, 20, 10]);

    let touch_order_counts = env.get_touch_order_counts(0);
    assert!(*touch_order_counts.0 == vec![1, 1, 1]);
    assert!(*touch_order_counts.1 == vec![1, 1, 1]);

    let trade_vols = env.get_trade_vols(0);
    assert!(*trade_vols == vec![0, 0, 30]);
}


#[test]
fn market_env_assets_are_independent() {
    let mut env: MarketEnv<2, 3> = MarketEnv::new(0, [1, 2], 10, true);
    let mut rng = Rng::seed_from_u64(5);

    env.place_order(1, Side::Ask, 6, 1, Some(40)).unwrap();
    env.place_order(0, Side::Bid, 4, 1, Some(7)).unwrap();
    assert!(env.place_order(1, Side::Bid, 4, 1, Some(7)).is_err());
    env.step(&mut rng);

    assert!(env.get_market().bid_asks() == [(7, Price::MAX), (0, 40)]);
    assert!(env.get_market().get_time() == 10);
    assert!(env.get_prices(1).1 == vec![40]);
    assert!(env.get_volumes(0).0 == vec![4]);
    assert!(env.order_status((1, 0)) == Status::Active);

    env.cancel_order((1, 0));
    env.modify_order((0, 0), None, Some(1));
    env.step(&mut rng);

    assert!(env.get_market().bid_asks() == [(7, Price::MAX), (0, Price::MAX)]);
    assert!(env.get_market().bid_vols() == [1, 0]);
    assert!(env.get_trade_vols(0) == &vec![0, 0]);
    assert!(env.level_2_data()[0].bid_price_levels == vec![(1, 1), (0, 0), (0, 0)]);
}
