use bourse::env::Env;
use bourse::types::{Event, Nanos, Side, Status};
use rand_xoshiro::rand_core::SeedableRng;
use rand_xoshiro::Xoroshiro128StarStar as Rng;

#[test]
fn env_test_env() {
    let step_size: Nanos = 1000;
    let mut env: Env<10> = Env::new(0, 1, step_size, true);
    let mut rng = Rng::seed_from_u64(101);

    env.place_order(Side::Bid, 10, 101, Some(10)).unwrap();
    env.place_order(Side::Ask, 20, 101, Some(20)).unwrap();

    env.step(&mut rng);

    assert!(env.get_transactions().len() == 0);
    assert!(env.get_orderbook().bid_ask() == (10, 20));
    assert!(env.get_orderbook().get_orders().len() == 2);
    assert!(env.get_orderbook().get_orders()[0].status == Status::Active);
    assert!(env.get_orderbook().get_orders()[1].status == Status::Active);
    assert!(env.get_orderbook().get_time() == step_size);

    env.place_order(Side::Bid, 10, 101, Some(11)).unwrap();
    env.place_order(Side::Ask, 20, 101, Some(21)).unwrap();

    env.step(&mut rng);

    assert!(env.get_orderbook().bid_ask() == (11, 20));
    assert!(env.get_orderbook().get_orders().len() == 4);
    assert!(env.get_orderbook().get_time() == 2 * step_size);

    env.place_order(Side::Bid, 30, 101, None).unwrap();

    env.step(&mut rng);

    assert!(env.get_orderbook().bid_ask() == (11, 21));
    assert!(env.get_orderbook().ask_vol() == 10);
    assert!(env.get_orderbook().get_orders().len() == 5);
    assert!(env.get_orderbook().get_orders()[1].status == Status::Filled);
    assert!(env.get_orderbook().get_orders()[4].status == Status::Filled);
    assert!(env.get_orderbook().get_trades().len() == 2);
    assert!(env.get_orderbook().get_time() == 3 * step_size);

    let prices = env.get_prices();
    assert!(prices.0 == vec![10, 11, 11]);
    assert!(prices.1 == vec![20, 20, 21]);

    let volumes = env.get_volumes();
    assert!(volumes.0 == vec![10, 20, 20]);
    assert!(volumes.1 == vec![20, 40, 10]);

    let touch_volumes = env.get_touch_volumes();
    assert!(*touch_volumes.0 == vec![10, 10, 10]);
    assert!(*touch_volumes.1 == vec![20, 20, 10]);

    let touch_order_counts = env.get_touch_order_counts();
    assert!(*touch_order_counts.0 == vec![1, 1, 1]);
    assert!(*touch_order_counts.1 == vec![1, 1, 1]);

    let trade_vols = env.get_trade_vols();
    assert!(*trade_vols == vec![0, 0, 30]);
}

#[test]
fn step_events_arrive_one_tick_apart() {
    let mut env: Env<4> = Env::new(100, 1, 50, true);

    env.place_order(Side::Ask, 5, 1, Some(30)).unwrap();
    env.place_order(Side::Ask, 5, 1, Some(30)).unwrap();
    env.place_order(Side::Ask, 5, 1, Some(30)).unwrap();

    // the queue is applied in the given order
    env.step_with(vec![
        Event::New { order_id: 2 },
        Event::New { order_id: 0 },
        Event::New { order_id: 1 },
    ]);

    assert!(env.order(2).arr_time == 100);
    assert!(env.order(0).arr_time == 101);
    assert!(env.order(1).arr_time == 102);
    assert!(env.get_orderbook().get_time() == 150);

    // priority follows the step-local arrival order
    env.place_order(Side::Bid, 7, 2, None).unwrap();
    let mut rng = Rng::seed_from_u64(3);
    env.step(&mut rng);
    let trades = env.get_trades();
    assert!(trades.len() == 2);
    assert!(trades[0].passive_order_id == 2);
    assert!(trades[0].vol == 5);
    assert!(trades[1].passive_order_id == 0);
    assert!(trades[1].vol == 2);
    assert!(env.order_status(3) == Status::Filled);
}

#[test]
fn step_skips_unknown_orders() {
    let mut env: Env<2> = Env::new(0, 1, 10, true);

    env.cancel_order(5);
    env.modify_order(7, Some(3), None);
    assert!(env.get_transactions().len() == 2);

    let mut rng = Rng::seed_from_u64(1);
    env.step(&mut rng);

    assert!(env.get_transactions().len() == 0);
    assert!(env.get_trade_vols() == &vec![0]);
    assert!(env.level_2_data().bid_price_levels == vec![(0, 0), (0, 0)]);
}

#[test]
fn env_price_error_queues_nothing() {
    let mut env: Env<2> = Env::new(0, 5, 10, true);

    assert!(env.place_order(Side::Bid, 1, 1, Some(7)).is_err());
    assert!(env.get_transactions().len() == 0);
    assert!(env.get_orders().len() == 0);
}

#[test]
fn same_seed_same_history() {
    fn run(seed: u64) -> (Vec<(u64, u32, u32, usize, usize)>, Vec<u32>, Vec<u32>) {
        let mut env: Env<3> = Env::new(0, 1, 100, true);
        let mut rng = Rng::seed_from_u64(seed);
        for step in 0..5u32 {
            for k in 0..4u32 {
                let side = if (step + k) % 2 == 0 { Side::Bid } else { Side::Ask };
                let price = 20 + (step * 3 + k * 5) % 7;
                env.place_order(side, 3 + k, k, Some(price)).unwrap();
            }
            env.step(&mut rng);
        }
        let trades = env
            .get_trades()
            .iter()
            .map(|t| (t.t, t.price, t.vol, t.active_order_id, t.passive_order_id))
            .collect();
        (trades, env.get_prices().0.clone(), env.get_trade_vols().clone())
    }

    assert!(run(11) == run(11));
}
