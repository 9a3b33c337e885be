use bourse::orderbook::{OrderBook, OrderError};
use bourse::side::SideFunctionality;
use rand::seq::SliceRandom;
use rand::Rng;
use rand_xoshiro::rand_core::SeedableRng;
use rand_xoshiro::Xoroshiro128Plus;
use bourse::types::{Event, Level1Data, Price, Side, Status};

#[test]
fn orderbook_test_init() {
    let book: OrderBook<10> = OrderBook::new(0, 1, true);

    assert!(book.bid_vol() == 0);
    assert!(book.ask_vol() == 0);
    assert!(book.bid_best_vol() == 0);
    assert!(book.bid_best_vol_and_orders() == (0, 0));
    assert!(book.bid_best_vol() == 0);
    assert!(book.ask_best_vol_and_orders() == (0, 0));
    assert!(book.bid_ask() == (0, Price::MAX))
}

#[test]
fn orderbook_test_insert_order() {
    let mut book: OrderBook<10> = OrderBook::new(0, 1, true);

    book.create_and_place_order(Side::Ask, 10, 0, Some(100)).unwrap();
    book.create_and_place_order(Side::Bid, 10, 0, Some(50)).unwrap();

    assert!(book.bid_ask() == (50, 100));
    assert!(book.ask_vol() == 10);
    assert!(book.bid_vol() == 10);
    assert!(book.bid_best_vol() == 10);
    assert!(book.bid_best_vol_and_orders() == (10, 1));
    assert!(book.ask_best_vol() == 10);
    assert!(book.ask_best_vol_and_orders() == (10, 1));

    book.create_and_place_order(Side::Ask, 10, 0, Some(90)).unwrap();
    book.create_and_place_order(Side::Bid, 10, 0, Some(60)).unwrap();

    assert!(book.bid_ask() == (60, 90));
    assert!(book.ask_vol() == 20);
    assert!(book.bid_vol() == 20);
    assert!(book.bid_best_vol() == 10);
    assert!(book.bid_best_vol_and_orders() == (10, 1));
    assert!(book.ask_best_vol() == 10);
    assert!(book.ask_best_vol_and_orders() == (10, 1));

    book.create_and_place_order(Side::Ask, 10, 0, Some(110)).unwrap();
    book.create_and_place_order(Side::Bid, 10, 0, Some(40)).unwrap();

    assert!(book.bid_ask() == (60, 90));
    assert!(book.ask_vol() == 30);
    assert!(book.bid_vol() == 30);
    assert!(book.bid_best_vol() == 10);
    assert!(book.bid_best_vol_and_orders() == (10, 1));
    assert!(book.ask_best_vol() == 10);
    assert!(book.ask_best_vol_and_orders() == (10, 1));
}

#[test]
fn test_level_data() {
    let mut book = OrderBook::<4>::new(0, 2, true);

    let bid_levels = book.bid_levels();

    assert!(bid_levels.len() == 4);
    assert!(bid_levels == [(0, 0), (0, 0), (0, 0), (0, 0)]);

    let ask_levels = book.ask_levels();

    assert!(ask_levels.len() == 4);
    assert!(ask_levels == [(0, 0), (0, 0), (0, 0), (0, 0)]);

    book.create_and_place_order(Side::Bid, 10, 0, Some(100)).unwrap();
    book.create_and_place_order(Side::Bid, 10, 0, Some(100)).unwrap();
    book.create_and_place_order(Side::Bid, 12, 0, Some(98)).unwrap();
    book.create_and_place_order(Side::Bid, 14, 0, Some(94)).unwrap();

    book.create_and_place_order(Side::Ask, 11, 0, Some(102)).unwrap();
    book.create_and_place_order(Side::Ask, 11, 0, Some(102)).unwrap();
    book.create_and_place_order(Side::Ask, 13, 0, Some(104)).unwrap();
    book.create_and_place_order(Side::Ask, 15, 0, Some(108)).unwrap();

    let bid_levels = book.bid_levels();

    assert!(bid_levels.len() == 4);
    assert!(bid_levels == [(20, 2), (12, 1), (0, 0), (14, 1)]);

    let ask_levels = book.ask_levels();

    assert!(ask_levels.len() == 4);
    assert!(ask_levels == [(22, 2), (13, 1), (0, 0), (15, 1)]);

    assert!(matches!(
        book.level_1_data(),
        Level1Data {
            bid_price: 100,
            ask_price: 102,
            bid_vol: 46,
            ask_vol: 50,
            bid_touch_vol: 20,
            ask_touch_vol: 22,
            bid_touch_orders: 2,
            ask_touch_orders: 2,
        }
    ));

    let level_2 = book.level_2_data();
    assert!(level_2.bid_price == 100);
    assert!(level_2.ask_price == 102);
    assert!(level_2.bid_vol == 46);
    assert!(level_2.ask_vol == 50);
    assert!(level_2.bid_price_levels == [(20, 2), (12, 1), (0, 0), (14, 1)]);
    assert!(level_2.ask_price_levels == [(22, 2), (13, 1), (0, 0), (15, 1)]);
}

#[test]
fn orderbook_test_cancel_order() {
    let mut book: OrderBook<10> = OrderBook::new(0, 1, true);

    book.create_and_place_order(Side::Ask, 10, 0, Some(100)).unwrap();
    book.create_and_place_order(Side::Bid, 10, 0, Some(50)).unwrap();
    book.create_and_place_order(Side::Ask, 10, 0, Some(90)).unwrap();
    book.create_and_place_order(Side::Bid, 10, 0, Some(60)).unwrap();

    assert!(book.bid_ask() == (60, 90));
    assert!(book.ask_vol() == 20);
    assert!(book.bid_vol() == 20);
    assert!(book.bid_best_vol() == 10);
    assert!(book.ask_best_vol() == 10);
    assert!(book.bid_best_vol_and_orders() == (10, 1));
    assert!(book.ask_best_vol_and_orders() == (10, 1));

    book.cancel_order(0);
    book.cancel_order(3);

    assert!(book.bid_ask() == (50, 90));
    assert!(book.ask_vol() == 10);
    assert!(book.bid_vol() == 10);
    assert!(book.bid_best_vol() == 10);
    assert!(book.ask_best_vol() == 10);
    assert!(book.bid_best_vol_and_orders() == (10, 1));
    assert!(book.ask_best_vol_and_orders() == (10, 1));

    book.cancel_order(1);
    book.cancel_order(2);

    assert!(book.bid_ask() == (0, Price::MAX));
    assert!(book.ask_vol() == 0);
    assert!(book.bid_vol() == 0);
    assert!(book.bid_best_vol() == 0);
    assert!(book.ask_best_vol() == 0);
    assert!(book.bid_best_vol_and_orders() == (0, 0));
    assert!(book.ask_best_vol_and_orders() == (0, 0));

    assert!(matches!(book.order(0).status, Status::Cancelled));
    assert!(matches!(book.order(1).status, Status::Cancelled));
    assert!(matches!(book.order(2).status, Status::Cancelled));
    assert!(matches!(book.order(3).status, Status::Cancelled));
}

#[test]
fn orderbook_test_mod_order_vol() {
    let mut book: OrderBook<10> = OrderBook::new(0, 1, true);

    book.create_and_place_order(Side::Ask, 10, 0, Some(100)).unwrap();
    book.create_and_place_order(Side::Bid, 10, 0, Some(50)).unwrap();

    book.modify_order(0, None, Some(8));
    book.modify_order(1, None, Some(5));

    assert!(book.ask_vol() == 8);
    assert!(book.ask_best_vol() == 8);
    assert!(book.ask_best_vol_and_orders() == (8, 1));
    assert!(book.bid_vol() == 5);
    assert!(book.bid_best_vol() == 5);
    assert!(book.bid_best_vol_and_orders() == (5, 1));

    assert!(book.order(0).vol == 8);
    assert!(book.order(1).vol == 5);
}

#[test]
fn test_modify_order() {
    let mut book: OrderBook<10> = OrderBook::new(0, 1, true);

    book.create_and_place_order(Side::Ask, 10, 0, Some(100)).unwrap();
    book.create_and_place_order(Side::Bid, 10, 0, Some(50)).unwrap();

    assert!(book.bid_ask() == (50, 100));

    book.modify_order(0, Some(110), Some(15));
    book.modify_order(1, Some(60), Some(20));

    assert!(book.ask_vol() == 15);
    assert!(book.ask_best_vol() == 15);
    assert!(book.bid_vol() == 20);
    assert!(book.bid_best_vol() == 20);
    assert!(book.bid_ask() == (60, 110));
}

#[test]
fn test_modify_order_crossing() {
    let mut book: OrderBook<10> = OrderBook::new(0, 1, true);

    book.create_and_place_order(Side::Ask, 10, 0, Some(100)).unwrap();
    book.create_and_place_order(Side::Bid, 10, 0, Some(50)).unwrap();

    assert!(book.bid_ask() == (50, 100));

    book.modify_order(1, Some(100), Some(20));

    assert!(book.ask_vol() == 0);
    assert!(book.ask_best_vol() == 0);
    assert!(book.ask_best_vol_and_orders() == (0, 0));
    assert!(book.bid_vol() == 10);
    assert!(book.bid_best_vol() == 10);
    assert!(book.bid_best_vol_and_orders() == (10, 1));
    assert!(book.bid_ask() == (100, Price::MAX));

    assert!(book.get_trades().len() == 1);
    assert!(book.get_trades()[0].price == 100);
    assert!(book.get_trades()[0].vol == 10);
}

#[test]
fn test_trades() {
    let mut book: OrderBook<10> = OrderBook::new(0, 1, true);

    book.create_order(Side::Ask, 101, 101, Some(20)).unwrap();
    book.create_order(Side::Ask, 101, 101, Some(18)).unwrap();
    book.create_order(Side::Bid, 202, 101, Some(12)).unwrap();
    book.create_order(Side::Bid, 202, 101, Some(14)).unwrap();

    book.place_order(0);
    book.set_time(1);
    book.place_order(1);
    book.set_time(2);
    book.place_order(2);
    book.set_time(3);
    book.place_order(3);
    book.set_time(4);

    book.create_order(Side::Bid, 102, 101, None).unwrap();
    book.place_order(4);

    assert!(book.ask_vol() == 100);
    assert!(book.bid_ask() == (14, 20));

    assert!(book.get_trades().len() == 2);
    assert!(book.get_trades()[0].price == 18);
    assert!(book.get_trades()[0].vol == 101);
    assert!(book.get_trades()[1].price == 20);
    assert!(book.get_trades()[1].vol == 1);
    assert!(book.get_trade_vol() == 102);

    book.create_order(Side::Ask, 204, 101, Some(14)).unwrap();
    book.place_order(5);

    assert!(book.bid_vol() == 202);
    assert!(book.ask_vol() == 102);
    assert!(book.bid_best_vol_and_orders() == (202, 1));
    assert!(book.ask_best_vol_and_orders() == (2, 1));
    assert!(book.bid_ask() == (12, 14));

    assert!(book.get_trades().len() == 3);
    assert!(book.get_trades()[2].price == 14);
    assert!(book.get_trades()[2].vol == 202);
    assert!(book.get_trade_vol() == 304);
}

#[test]
fn test_market_order_no_trading() {
    let mut book: OrderBook<10> = OrderBook::new(0, 1, false);

    book.create_and_place_order(Side::Bid, 101, 101, None).unwrap();

    assert!(book.bid_ask() == (0, Price::MAX));
    assert!(book.bid_vol() == 0);
    assert!(book.ask_vol() == 0);
    assert!(book.order(0).status == Status::Rejected);
}

#[test]
fn test_unfilled_market_order() {
    let mut book: OrderBook<10> = OrderBook::new(0, 1, true);

    book.create_and_place_order(Side::Ask, 10, 101, Some(50)).unwrap();
    book.create_and_place_order(Side::Bid, 20, 101, None).unwrap();

    assert!(book.bid_ask() == (0, Price::MAX));
    assert!(book.bid_vol() == 0);
    assert!(book.ask_vol() == 0);
    assert!(book.order(1).status == Status::Cancelled);
}

#[test]
fn test_incorrect_price_err() {
    let mut book: OrderBook<10> = OrderBook::new(0, 2, true);

    let res = book.create_order(Side::Ask, 100, 101, Some(51));

    assert!(res.is_err_and(|e| matches!(
        e,
        OrderError::PriceError {
            price: 51,
            tick_size: 2
        }
    )));
}

#[test]
fn test_no_double_place() {
    let mut book: OrderBook<10> = OrderBook::new(0, 2, true);

    let id = book.create_order(Side::Ask, 100, 101, Some(50)).unwrap();

    book.place_order(id);

    assert!(book.bid_ask() == (0, 50));
    assert!(book.ask_best_vol_and_orders() == (100, 1));

    book.place_order(id);

    assert!(book.bid_ask() == (0, 50));
    assert!(book.ask_best_vol_and_orders() == (100, 1));
}

#[test]
fn zero_price_is_rejected() {
    let mut book: OrderBook<10> = OrderBook::new(0, 1, true);

    let res = book.create_order(Side::Bid, 10, 1, Some(0));

    assert!(res == Err(OrderError::PriceError { price: 0, tick_size: 1 }));
    assert!(book.n_orders() == 0);
}

#[test]
fn created_order_fields() {
    let mut book: OrderBook<10> = OrderBook::new(7, 5, true);

    let a = book.create_order(Side::Ask, 10, 3, Some(25)).unwrap();
    let b = book.create_order(Side::Bid, 4, 9, None).unwrap();
    let c = book.create_order(Side::Ask, 6, 9, None).unwrap();

    assert!(a == 0 && b == 1 && c == 2);
    let o = *book.order(a);
    assert!(o.status == Status::New);
    assert!(o.arr_time == 7);
    assert!(o.end_time == u64::MAX);
    assert!(o.vol == 10 && o.start_vol == 10);
    assert!(o.price == 25);
    assert!(o.trader_id == 3);
    assert!(o.order_id == 0);
    assert!(book.order(b).price == Price::MAX);
    assert!(book.order(c).price == 0);
    assert!(book.bid_ask() == (0, Price::MAX));
}

#[test]
fn modify_reduce_keeps_priority() {
    let mut book: OrderBook<10> = OrderBook::new(0, 1, true);

    book.create_and_place_order(Side::Ask, 10, 0, Some(100)).unwrap();
    book.set_time(1);
    book.create_and_place_order(Side::Ask, 10, 0, Some(100)).unwrap();
    book.set_time(2);

    book.modify_order(0, None, Some(4));
    assert!(book.order(0).arr_time == 0);

    book.create_and_place_order(Side::Bid, 4, 0, None).unwrap();
    assert!(book.get_trades()[0].passive_order_id == 0);
    assert!(book.order(0).status == Status::Filled);
}

#[test]
fn modify_increase_loses_priority() {
    let mut book: OrderBook<10> = OrderBook::new(0, 1, true);

    book.create_and_place_order(Side::Ask, 10, 0, Some(100)).unwrap();
    book.set_time(1);
    book.create_and_place_order(Side::Ask, 10, 0, Some(100)).unwrap();
    book.set_time(2);

    book.modify_order(0, None, Some(12));
    assert!(book.order(0).arr_time == 2);
    assert!(book.ask_best_vol_and_orders() == (22, 2));

    book.create_and_place_order(Side::Bid, 5, 0, None).unwrap();
    assert!(book.get_trades()[0].passive_order_id == 1);
}

#[test]
fn modify_inactive_is_noop() {
    let mut book: OrderBook<10> = OrderBook::new(0, 1, true);

    book.create_order(Side::Ask, 10, 0, Some(100)).unwrap();
    book.modify_order(0, Some(90), Some(3));
    assert!(book.order(0).status == Status::New);
    assert!(book.order(0).price == 100);
    assert!(book.order(0).vol == 10);
}

#[test]
fn process_events_dispatch() {
    let mut book: OrderBook<10> = OrderBook::new(0, 1, true);

    book.create_order(Side::Bid, 10, 0, Some(30)).unwrap();
    book.create_order(Side::Ask, 10, 0, Some(40)).unwrap();
    book.process_event(Event::New { order_id: 0 });
    book.process_event(Event::New { order_id: 1 });
    assert!(book.bid_ask() == (30, 40));
    book.process_event(Event::Modify { order_id: 0, new_price: Some(35), new_vol: None });
    assert!(book.bid_ask() == (35, 40));
    book.process_event(Event::Cancellation { order_id: 1 });
    assert!(book.bid_ask() == (35, Price::MAX));
    assert!(book.order(1).status == Status::Cancelled);
}

#[test]
fn trading_disabled_limit_orders_rest_crossed() {
    let mut book: OrderBook<10> = OrderBook::new(0, 1, false);

    book.create_and_place_order(Side::Ask, 10, 0, Some(50)).unwrap();
    book.create_and_place_order(Side::Bid, 10, 0, Some(60)).unwrap();
    assert!(book.bid_ask() == (60, 50));
    assert!(book.get_trades().len() == 0);

    book.enable_trading();
    book.create_and_place_order(Side::Bid, 4, 0, Some(55)).unwrap();
    assert!(book.get_trades().len() == 1);
    assert!(book.get_trades()[0].price == 50);
    assert!(book.get_trade_vol() == 4);
    book.reset_trade_vol();
    assert!(book.get_trade_vol() == 0);
}

#[test]
fn orderbook_test_serialisation() {
    let mut book: OrderBook<10> = OrderBook::new(0, 1, true);

    let mut rng = Xoroshiro128Plus::seed_from_u64(101);

    for i in (0..200).into_iter() {
        let side = [Side::Bid, Side::Ask].choose(&mut rng).unwrap();
        let price = rng.gen_range(20..40);
        let vol = rng.gen_range(5..20);
        book.create_and_place_order(*side, vol, 0, Some(price)).unwrap();
        book.set_time(i);
    }

    let book_snapshot = book.to_snapshot();
    let loaded_book: OrderBook<10> = OrderBook::from_snapshot(book_snapshot).unwrap();

    assert!(book.to_snapshot().trading == loaded_book.to_snapshot().trading);
    assert!(book.get_trade_vol() == loaded_book.get_trade_vol());

    assert!(book.bid_ask() == loaded_book.bid_ask());

    assert!(book.bid_best_vol_and_orders() == loaded_book.bid_best_vol_and_orders());
    assert!(book.bid_vol() == loaded_book.bid_vol());

    assert!(book.ask_best_vol_and_orders() == loaded_book.ask_best_vol_and_orders());
    assert!(book.bid_vol() == loaded_book.bid_vol());

    assert!(book.n_orders() == loaded_book.n_orders());

    assert!(book.get_bid_side().best_order_idx() == loaded_book.get_bid_side().best_order_idx());
    assert!(book.get_ask_side().best_order_idx() == loaded_book.get_ask_side().best_order_idx());
}

#[test]
fn market_buy_walks_the_asks() {
    let mut book: OrderBook<10> = OrderBook::new(0, 1, true);

    book.create_and_place_order(Side::Ask, 101, 1, Some(18)).unwrap();
    book.set_time(1);
    book.create_and_place_order(Side::Ask, 101, 1, Some(20)).unwrap();
    book.set_time(2);
    let id = book.create_and_place_order(Side::Bid, 102, 2, None).unwrap();

    let trades = book.get_trades();
    assert!(trades.len() == 2);
    assert!(trades[0].price == 18 && trades[0].vol == 101);
    assert!(trades[1].price == 20 && trades[1].vol == 1);
    assert!(trades[0].active_order_id == id && trades[0].passive_order_id == 0);
    assert!(trades[1].passive_order_id == 1);
    assert!(trades[0].t == 2);
    assert!(book.ask_best_vol_and_orders() == (100, 1));
    assert!(book.bid_ask() == (0, 20));
    assert!(book.get_trade_vol() == 102);
    assert!(book.order(id).status == Status::Filled);
    assert!(book.order(id).end_time == 2);
    assert!(book.order(0).status == Status::Filled);
    assert!(book.order(1).status == Status::Active);
    assert!(book.order(1).vol == 100);
}

#[test]
fn rejected_market_order_leaves_book() {
    let mut book: OrderBook<10> = OrderBook::new(0, 1, false);

    book.create_and_place_order(Side::Ask, 5, 0, Some(40)).unwrap();
    book.create_and_place_order(Side::Bid, 10, 0, None).unwrap();

    assert!(book.order(1).status == Status::Rejected);
    assert!(book.bid_ask() == (0, 40));
    assert!(book.ask_vol() == 5);
    assert!(book.get_trades().len() == 0);
}

#[test]
fn zero_volume_limit_order_never_rests() {
    let mut book: OrderBook<10> = OrderBook::new(0, 1, true);

    book.create_and_place_order(Side::Ask, 10, 0, Some(50)).unwrap();
    book.set_time(3);
    let id = book.create_and_place_order(Side::Bid, 0, 0, Some(60)).unwrap();

    assert!(book.order(id).status == Status::Cancelled);
    assert!(book.order(id).end_time == 3);
    assert!(book.bid_ask() == (0, 50));
    assert!(book.bid_vol() == 0);
    assert!(book.get_trades().len() == 0);
}

#[test]
fn trades_never_worse_than_limit() {
    let mut book: OrderBook<10> = OrderBook::new(0, 1, true);

    book.create_and_place_order(Side::Bid, 5, 0, Some(40)).unwrap();
    book.create_and_place_order(Side::Bid, 5, 0, Some(38)).unwrap();
    book.create_and_place_order(Side::Ask, 8, 0, Some(38)).unwrap();

    let trades = book.get_trades();
    assert!(trades.len() == 2);
    assert!(trades[0].price == 40 && trades[0].vol == 5);
    assert!(trades[1].price == 38 && trades[1].vol == 3);
    assert!(book.order(0).status == Status::Filled);
    assert!(book.order(1).vol == 2);
    assert!(book.order(1).status == Status::Active);
    assert!(book.order(2).status == Status::Filled);
}
