use bourse::orderbook::{OrderBook, OrderBookState};
use bourse::types::{Order, Price, Side, Status};

fn lcg(state: &mut u64) -> u64 {
    *state = state.wrapping_mul(6364136223846793005).wrapping_add(1442695040888963407);
    *state >> 33
}

/// A book built from a fixed pseudo-random sequence of instructions
fn busy_book(seed: u64, n: u64) -> OrderBook<10> {
    let mut book: OrderBook<10> = OrderBook::new(0, 1, true);
    let mut s = seed;
    for i in 0..n {
        book.set_time(i);
        let side = if lcg(&mut s) % 2 == 0 { Side::Bid } else { Side::Ask };
        let price = 20 + (lcg(&mut s) % 20) as u32;
        let vol = 1 + (lcg(&mut s) % 15) as u32;
        match lcg(&mut s) % 6 {
            0 => {
                book.create_and_place_order(side, vol, 0, None).unwrap();
            }
            1 if book.n_orders() > 0 => {
                let id = (lcg(&mut s) % book.n_orders() as u64) as usize;
                book.cancel_order(id);
            }
            2 if book.n_orders() > 0 => {
                let id = (lcg(&mut s) % book.n_orders() as u64) as usize;
                book.modify_order(id, Some(price), Some(vol));
            }
            3 if book.n_orders() > 0 => {
                let id = (lcg(&mut s) % book.n_orders() as u64) as usize;
                book.modify_order(id, None, Some(vol / 2));
            }
            _ => {
                book.create_and_place_order(side, vol, 0, Some(price)).unwrap();
            }
        }
    }
    book
}

fn active(orders: &[Order], side: Side) -> Vec<Order> {
    orders
        .iter()
        .filter(|o| o.status == Status::Active && o.side == side)
        .copied()
        .collect()
}

#[test]
fn active_volume_is_side_totals() {
    for seed in [1u64, 7, 42] {
        let book = busy_book(seed, 300);
        let orders = book.get_orders();
        let total: u64 = orders
            .iter()
            .filter(|o| o.status == Status::Active)
            .map(|o| o.vol as u64)
            .sum();
        assert_eq!(total, book.bid_vol() as u64 + book.ask_vol() as u64);
    }
}

#[test]
fn levels_aggregate_resting_orders() {
    let book = busy_book(3, 300);
    let orders = book.get_orders();
    let (bid, ask) = book.bid_ask();
    let bids = active(&orders, Side::Bid);
    let asks = active(&orders, Side::Ask);
    let at = |os: &Vec<Order>, p: Price| {
        let v: u32 = os.iter().filter(|o| o.price == p).map(|o| o.vol).sum();
        let c = os.iter().filter(|o| o.price == p).count() as u32;
        (v, c)
    };
    let bid_levels = book.bid_levels();
    let ask_levels = book.ask_levels();
    for i in 0..10u32 {
        if !bids.is_empty() {
            assert_eq!(bid_levels[i as usize], at(&bids, bid - i));
        }
        if !asks.is_empty() {
            assert_eq!(ask_levels[i as usize], at(&asks, ask + i));
        }
    }
}

#[test]
fn trading_book_stays_uncrossed() {
    for seed in [2u64, 5, 11] {
        let mut book: OrderBook<10> = OrderBook::new(0, 1, true);
        let mut s = seed;
        for i in 0..200 {
            book.set_time(i);
            let side = if lcg(&mut s) % 2 == 0 { Side::Bid } else { Side::Ask };
            let price = 20 + (lcg(&mut s) % 20) as u32;
            let vol = 1 + (lcg(&mut s) % 15) as u32;
            book.create_and_place_order(side, vol, 0, Some(price)).unwrap();
            let (bid, ask) = book.bid_ask();
            assert!(book.bid_vol() == 0 || book.ask_vol() == 0 || bid < ask);
        }
    }
}

#[test]
fn trades_at_passive_prices() {
    let book = busy_book(9, 300);
    let orders = book.get_orders();
    let trades = book.get_trades();
    assert!(!trades.is_empty());
    let mut cumulative = 0u64;
    for t in trades.iter() {
        let passive = orders[t.passive_order_id];
        let active = orders[t.active_order_id];
        assert_eq!(t.price, passive.price);
        assert!(t.side == passive.side);
        assert!(t.side != active.side);
        cumulative += t.vol as u64;
    }
    let mut fresh: OrderBook<10> = OrderBook::new(0, 1, true);
    fresh.create_and_place_order(Side::Ask, 5, 0, Some(30)).unwrap();
    fresh.create_and_place_order(Side::Ask, 6, 0, Some(31)).unwrap();
    fresh.create_and_place_order(Side::Bid, 9, 0, Some(32)).unwrap();
    let vols: u32 = fresh.get_trades().iter().map(|t| t.vol).sum();
    assert_eq!(vols, fresh.get_trade_vol());
    assert_eq!(vols, 9);
    assert!(cumulative > 0);
}

#[test]
fn snapshot_round_trip() {
    let book = busy_book(21, 400);
    let state = book.to_snapshot();
    assert_eq!(state.orders.len(), book.n_orders());
    let loaded: OrderBook<10> = OrderBook::from_snapshot(state).unwrap();

    assert!(book.bid_ask() == loaded.bid_ask());
    assert!(book.bid_vol() == loaded.bid_vol());
    assert!(book.ask_vol() == loaded.ask_vol());
    assert!(book.level_1_data() == loaded.level_1_data());
    assert!(book.bid_levels() == loaded.bid_levels());
    assert!(book.ask_levels() == loaded.ask_levels());
    assert!(book.get_trade_vol() == loaded.get_trade_vol());
    assert!(book.get_trades().len() == loaded.get_trades().len());
}

#[test]
fn snapshot_rejects_inconsistent_state() {
    let mut book: OrderBook<10> = OrderBook::new(0, 1, true);
    book.create_and_place_order(Side::Bid, 5, 0, Some(30)).unwrap();
    let mut state = book.to_snapshot();
    state.orders[0].order.order_id = 3;
    assert!(OrderBook::<10>::from_snapshot(state).is_none());

    let empty = OrderBookState {
        t: 0,
        tick_size: 0,
        trade_vol: 0,
        orders: vec![],
        trades: vec![],
        trading: true,
    };
    assert!(OrderBook::<10>::from_snapshot(empty).is_none());
}
