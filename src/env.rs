//! Discrete event simulation environment
//!
//! Wraps an order book, queues the order instructions submitted by
//! agents, applies them in a random order each step, and records
//! market data.
use rand::seq::SliceRandom;
use rand_xoshiro::Xoroshiro128StarStar;
use vstd::prelude::*;

use crate::data::{record_wf, Level2DataRecords};
use crate::orderbook::{
    applied_at, applied_in_order, clock_set, created_entry, lemma_trade_sum_split, trade_sum,
    valid_price, OrderBook, OrderError,
};
use crate::types::{
    Event, Level2Data, Nanos, Order, OrderCount, OrderId, Price, Side, Status, Trade,
    TraderId, Vol,
};

verus! {

#[verifier::external_type_specification]
#[verifier::external_body]
pub struct ExXoroshiro128StarStar(Xoroshiro128StarStar);

/// Relies on rand's `SliceRandom::shuffle` (Fisher-Yates by swaps): the
/// instructions come back in some order, each exactly as often as before.
#[verifier::external_body]
pub(crate) fn shuffle_events<T>(events: &mut Vec<T>, rng: &mut Xoroshiro128StarStar)
    ensures
        final(events)@.to_multiset() == old(events)@.to_multiset(),
{
    events.shuffle(rng)
}

/// Every order that exists in both books kept its arrival time, unless an
/// instruction of `events` applied at `start + k` names it and it arrived
/// at `start + k`
pub open spec fn arrivals_from<const N: usize>(
    b0: OrderBook<N>,
    b1: OrderBook<N>,
    events: Seq<Event>,
    start: Nanos,
) -> bool {
    forall|j: int|
        0 <= j < b0.arena().len() ==> (#[trigger] b1.order_at(j)).arr_time == b0.order_at(j).arr_time
            || exists|k: int|
            0 <= k < events.len() && events[k].target() == j && b1.order_at(j).arr_time == start + k
}

/// Book `b1` is what one step of length `step` from book `b0` gives: the
/// trade volume is reset, `events` are applied in order from the start
/// time, one time unit apart, and the clock then jumps to the next step;
/// the trade volume is then that of the step's trades
pub open spec fn stepped<const N: usize>(b0: OrderBook<N>, b1: OrderBook<N>, events: Seq<Event>, step: Nanos) -> bool {
    &&& exists|r: OrderBook<N>, b: OrderBook<N>|
        #![trigger applied_in_order(r, b, events, b0.time())]
        r.same_book(b0) && r.time() == b0.time() && r.traded() == 0 && r.is_trading() == b0.is_trading()
            && applied_in_order(r, b, events, b0.time()) && clock_set(b, b1, (b0.time() + step) as Nanos)
    &&& b0.trade_log().len() <= b1.trade_log().len()
    &&& b1.trade_log().subrange(0, b0.trade_log().len() as int) == b0.trade_log()
    &&& b1.traded() == trade_sum(b1.trade_log().subrange(b0.trade_log().len() as int, b1.trade_log().len() as int))
}

/// Discrete event simulation environment
///
/// `N` is the number of price levels recorded.
pub struct Env<const N: usize> {
    /// Time-length of each simulation step
    step_size: Nanos,
    /// Simulated order book
    order_book: OrderBook<N>,
    /// Per step trade volume histories
    trade_vols: Vec<Vol>,
    /// Transaction queue
    transactions: Vec<Event>,
    /// Current level 2 market data
    level_2_data: Level2Data<N>,
    /// Level 2 data history
    level_2_data_records: Level2DataRecords<N>,
}

impl<const N: usize> Env<N> {
    /// The order book
    pub closed spec fn book(self) -> OrderBook<N> {
        self.order_book
    }

    /// Instructions waiting for the next step, oldest first
    pub closed spec fn queue(self) -> Seq<Event> {
        self.transactions@
    }

    /// Length of a step
    pub closed spec fn step_len(self) -> Nanos {
        self.step_size
    }

    /// Trade volume of each step
    pub closed spec fn trade_history(self) -> Seq<Vol> {
        self.trade_vols@
    }

    /// Level 2 history
    pub closed spec fn records(self) -> Level2DataRecords<N> {
        self.level_2_data_records
    }

    /// Current level 2 data
    pub closed spec fn snapshot(self) -> Level2Data<N> {
        self.level_2_data
    }

    /// Environment invariant
    pub open spec fn wf(self) -> bool {
        &&& self.book().wf()
        &&& self.records().wf()
        &&& self.records().len() == self.trade_history().len()
        &&& record_wf(self.snapshot())
    }

    /// Initialise an empty environment
    ///
    /// - `start_time` - Simulation start time
    /// - `tick_size` - Market tick size
    /// - `step_size` - Simulated step time-length
    /// - `trading` - Flag if `true` orders will be matched
    pub fn new(start_time: Nanos, tick_size: Price, step_size: Nanos, trading: bool) -> (r: Self)
        requires
            tick_size >= 1,
        ensures
            r.wf(),
            r.book().time() == start_time,
            r.book().tick() == tick_size,
            r.book().is_trading() == trading,
            r.book().arena().len() == 0,
            r.book().trade_log().len() == 0,
            r.step_len() == step_size,
            r.queue().len() == 0,
            r.trade_history().len() == 0,
    {
        let order_book = OrderBook::new(start_time, tick_size, trading);
        let level_2_data = order_book.level_2_data();
        Env {
            step_size,
            order_book,
            trade_vols: Vec::new(),
            transactions: Vec::new(),
            level_2_data,
            level_2_data_records: Level2DataRecords::new(),
        }
    }

    /// Apply a sequence of instructions as one simulation step
    ///
    /// The cumulative trade volume is reset; instruction `i` is applied
    /// at the step's start time plus `i`; time then jumps to the next
    /// step and the market data of the step is recorded. An instruction
    /// that names an unknown order, or whose volumes would overflow the
    /// 32-bit volume counters, is skipped.
    pub fn step_with(&mut self, events: Vec<Event>)
        requires
            old(self).wf(),
            old(self).book().time() + events@.len() <= u64::MAX,
            old(self).book().time() + old(self).step_len() <= u64::MAX,
        ensures
            final(self).wf(),
            final(self).queue() == old(self).queue(),
            final(self).step_len() == old(self).step_len(),
            final(self).book().time() == old(self).book().time() + old(self).step_len(),
            final(self).book().tick() == old(self).book().tick(),
            final(self).book().is_trading() == old(self).book().is_trading(),
            final(self).book().arena().len() == old(self).book().arena().len(),
            arrivals_from(old(self).book(), final(self).book(), events@, old(self).book().time()),
            final(self).trade_history() == old(self).trade_history().push(final(self).book().traded()),
            final(self).records().len() == old(self).records().len() + 1,
            final(self).records().holds(old(self).records().len() as int, final(self).snapshot()),
            final(self).snapshot().bid_price == final(self).book().best_bid(),
            final(self).snapshot().ask_price == final(self).book().best_ask(),
            final(self).snapshot().bid_vol == final(self).book().bids().total(),
            final(self).snapshot().ask_vol == final(self).book().asks().total(),
            stepped(old(self).book(), final(self).book(), events@, old(self).step_len()),
    {
        let start_time = self.order_book.get_time();
        self.order_book.reset_trade_vol();
        let ghost b0 = self.order_book;
        let ghost ns = b0.trade_log().len();
        let ghost mut bs: Seq<OrderBook<N>> = seq![b0];
        proof {
            assert(b0.trade_log().subrange(ns as int, ns as int) =~= Seq::<Trade>::empty());
            assert(b0.trade_log().subrange(0, ns as int) =~= b0.trade_log());
        }
        let n = events.len();
        let mut i: usize = 0;
        while i < n
            invariant
                0 <= i <= n,
                n == events@.len(),
                start_time == b0.time(),
                start_time + n <= u64::MAX,
                self.order_book.wf(),
                self.order_book.tick() == b0.tick(),
                self.order_book.is_trading() == b0.is_trading(),
                self.order_book.arena().len() == b0.arena().len(),
                arrivals_from(b0, self.order_book, events@.take(i as int), start_time),
                self.transactions == old(self).transactions,
                self.step_size == old(self).step_size,
                self.trade_vols == old(self).trade_vols,
                self.level_2_data_records == old(self).level_2_data_records,
                self.level_2_data == old(self).level_2_data,
                bs.len() == i + 1,
                bs[0] == b0,
                bs[i as int] == self.order_book,
                forall|k: int|
                    0 <= k < i ==> applied_at(#[trigger] bs[k], bs[k + 1], events@[k], (start_time + k) as Nanos),
                ns <= self.order_book.trade_log().len(),
                self.order_book.trade_log().subrange(0, ns as int) == b0.trade_log(),
                self.order_book.traded() == trade_sum(
                    self.order_book.trade_log().subrange(ns as int, self.order_book.trade_log().len() as int),
                ),
            decreases n - i,
        {
            let e = events[i];
            let ghost b1 = self.order_book;
            self.order_book.set_time(start_time + i as u64);
            let ghost mid = self.order_book;
            if self.order_book.check_event(e) {
                self.order_book.process_event(e);
            }
            proof {
                let b2 = self.order_book;
                assert(clock_set(b1, mid, (start_time + i) as Nanos));
                assert(applied_at(b1, b2, e, (start_time + i) as Nanos));
                let n1 = b1.trade_log().len();
                let n2 = b2.trade_log().len();
                assert(b2.trade_log().subrange(0, n1 as int) == b1.trade_log());
                assert(b2.trade_log().subrange(ns as int, n1 as int) =~= b1.trade_log().subrange(ns as int, n1 as int));
                assert(b2.trade_log().subrange(0, ns as int) =~= b1.trade_log().subrange(0, ns as int));
                lemma_trade_sum_split(b2.trade_log(), ns as int, n1 as int, n2 as int);
                if !mid.can_process(e) {
                    assert(b2.trade_log().subrange(n1 as int, n2 as int) =~= Seq::<Trade>::empty());
                    assert(trade_sum(Seq::<Trade>::empty()) == 0);
                }
                let bs2 = bs.push(b2);
                assert forall|k: int|
                    0 <= k < i + 1 implies applied_at(#[trigger] bs2[k], bs2[k + 1], events@[k], (start_time + k) as Nanos) by {
                    if k < i {
                        assert(bs2[k] == bs[k] && bs2[k + 1] == bs[k + 1]);
                    }
                }
                bs = bs2;
                let ev = events@.take(i as int + 1);
                assert(ev[i as int] == e);
                assert forall|j: int| 0 <= j < b0.arena().len() implies (#[trigger] b2.order_at(j)).arr_time
                    == b0.order_at(j).arr_time || exists|k: int|
                    0 <= k < ev.len() && ev[k].target() == j && b2.order_at(j).arr_time == start_time + k by {
                    assert(b1.order_at(j).arr_time == b0.order_at(j).arr_time || exists|k: int|
                        0 <= k < events@.take(i as int).len() && events@.take(i as int)[k].target() == j
                            && b1.order_at(j).arr_time == start_time + k);
                    if b2.order_at(j).arr_time != b1.order_at(j).arr_time {
                        assert(e.target() == j);
                        assert(b2.order_at(j).arr_time == start_time + i);
                    } else if b1.order_at(j).arr_time != b0.order_at(j).arr_time {
                        let k = choose|k: int|
                            0 <= k < events@.take(i as int).len() && events@.take(i as int)[k].target() == j
                                && b1.order_at(j).arr_time == start_time + k;
                        assert(ev[k] == events@.take(i as int)[k]);
                    }
                }
            }
            i = i + 1;
        }
        proof {
            assert(events@.take(n as int) == events@);
        }
        let ghost bl = self.order_book;
        self.order_book.set_time(start_time + self.step_size);
        self.level_2_data = self.order_book.level_2_data();
        self.level_2_data_records.append_record(&self.level_2_data);
        self.trade_vols.push(self.order_book.get_trade_vol());
        proof {
            let b = old(self).book();
            assert(bs.len() == events@.len() + 1 && bs[0] == b0 && bs[events@.len() as int] == bl);
            assert(applied_in_order(b0, bl, events@, start_time));
            assert(clock_set(bl, self.order_book, (start_time + self.step_size) as Nanos));
            assert(self.order_book.trade_log().subrange(0, ns as int) == b.trade_log());
            assert forall|j: int| 0 <= j < b.arena().len() implies (#[trigger] self.order_book.order_at(j)).arr_time
                == b.order_at(j).arr_time || exists|k: int|
                0 <= k < events@.len() && events@[k].target() == j && self.order_book.order_at(j).arr_time == start_time + k by {
                assert(self.order_book.order_at(j) == bl.order_at(j));
                assert(b0.order_at(j) == b.order_at(j));
                assert(bl.order_at(j).arr_time == b0.order_at(j).arr_time || exists|k: int|
                    0 <= k < events@.len() && events@[k].target() == j && bl.order_at(j).arr_time == start_time + k);
            }
        }
    }

    /// Update the state of the simulation
    ///
    /// The queued instructions are shuffled with `rng` and applied as
    /// one step (see [`Env::step_with`]); the queue is then empty.
    pub fn step(&mut self, rng: &mut Xoroshiro128StarStar)
        requires
            old(self).wf(),
            old(self).book().time() + old(self).queue().len() <= u64::MAX,
            old(self).book().time() + old(self).step_len() <= u64::MAX,
        ensures
            final(self).wf(),
            final(self).queue().len() == 0,
            final(self).book().time() == old(self).book().time() + old(self).step_len(),
            final(self).trade_history() == old(self).trade_history().push(final(self).book().traded()),
            final(self).records().len() == old(self).records().len() + 1,
            final(self).book().arena().len() == old(self).book().arena().len(),
            exists|events: Seq<Event>|
                #![trigger events.to_multiset()]
                events.to_multiset() == old(self).queue().to_multiset() && arrivals_from(
                    old(self).book(),
                    final(self).book(),
                    events,
                    old(self).book().time(),
                ) && stepped(old(self).book(), final(self).book(), events, old(self).step_len()),
            final(self).step_len() == old(self).step_len(),
            final(self).records().holds(old(self).records().len() as int, final(self).snapshot()),
            final(self).snapshot().bid_price == final(self).book().best_bid(),
            final(self).snapshot().ask_price == final(self).book().best_ask(),
            final(self).snapshot().bid_vol == final(self).book().bids().total(),
            final(self).snapshot().ask_vol == final(self).book().asks().total(),
    {
        let mut transactions: Vec<Event> = Vec::new();
        std::mem::swap(&mut transactions, &mut self.transactions);
        shuffle_events(&mut transactions, rng);
        proof {
            transactions@.to_multiset_ensures();
            old(self).queue().to_multiset_ensures();
            assert(transactions@.len() == old(self).queue().len());
        }
        let ghost shuffled = transactions@;
        self.step_with(transactions);
        proof {
            assert(shuffled.to_multiset() == old(self).queue().to_multiset());
        }
    }

    /// Enable trading
    pub fn enable_trading(&mut self)
        requires
            old(self).wf(),
        ensures
            final(self).wf(),
            final(self).book().is_trading(),
            final(self).book().same_book(old(self).book()),
            final(self).queue() == old(self).queue(),
    {
        self.order_book.enable_trading();
    }

    /// Disable trading
    pub fn disable_trading(&mut self)
        requires
            old(self).wf(),
        ensures
            final(self).wf(),
            !final(self).book().is_trading(),
            final(self).book().same_book(old(self).book()),
            final(self).queue() == old(self).queue(),
    {
        self.order_book.disable_trading();
    }

    /// Create a new order and queue an instruction to place it
    ///
    /// The order only reaches the market during the next step.
    /// Returns the id of the new order.
    ///
    /// - `side` - Side to place order
    /// - `vol` - Volume of the order
    /// - `trader_id` - Id of the trader/agent placing the order
    /// - `price` - Order price, if None the order will be treated as a market order
    pub fn place_order(&mut self, side: Side, vol: Vol, trader_id: TraderId, price: Option<Price>) -> (r:
        Result<OrderId, OrderError>)
        requires
            old(self).wf(),
            old(self).book().arena().len() < usize::MAX,
        ensures
            final(self).wf(),
            r.is_ok() <==> match price {
                Some(p) => valid_price(p, old(self).book().tick()),
                None => true,
            },
            r.is_err() ==> r == Err::<OrderId, OrderError>(
                OrderError::PriceError { price: price.unwrap(), tick_size: old(self).book().tick() },
            ) && final(self).queue() == old(self).queue() && final(self).book() == old(self).book(),
            final(self).book().same_book_but_orders(old(self).book()),
            final(self).step_len() == old(self).step_len(),
            final(self).trade_history() == old(self).trade_history(),
            r.is_ok() ==> r == Ok::<OrderId, OrderError>(old(self).book().arena().len() as usize)
                && final(self).queue() == old(self).queue().push(Event::New { order_id: r.unwrap() })
                && final(self).book().arena() == old(self).book().arena().push(
                created_entry(side, vol, trader_id, price, old(self).book().time(), r.unwrap()),
            ),
    {
        match self.order_book.create_order(side, vol, trader_id, price) {
            Ok(order_id) => {
                self.transactions.push(Event::New { order_id });
                Ok(order_id)
            },
            Err(e) => Err(e),
        }
    }

    /// Queue an instruction to cancel an order
    pub fn cancel_order(&mut self, order_id: OrderId)
        requires
            old(self).wf(),
        ensures
            final(self).wf(),
            final(self).book() == old(self).book(),
            final(self).queue() == old(self).queue().push(Event::Cancellation { order_id }),
    {
        self.transactions.push(Event::Cancellation { order_id })
    }

    /// Queue an instruction to modify an order
    pub fn modify_order(&mut self, order_id: OrderId, new_price: Option<Price>, new_vol: Option<Vol>)
        requires
            old(self).wf(),
        ensures
            final(self).wf(),
            final(self).book() == old(self).book(),
            final(self).queue() == old(self).queue().push(Event::Modify { order_id, new_price, new_vol }),
    {
        self.transactions.push(Event::Modify { order_id, new_price, new_vol })
    }

    /// Bid and ask touch price histories
    pub fn get_prices(&self) -> (r: &(Vec<Price>, Vec<Price>))
        ensures
            *r == self.records().prices,
    {
        &self.level_2_data_records.prices
    }

    /// Bid and ask total volume histories
    pub fn get_volumes(&self) -> (r: &(Vec<Vol>, Vec<Vol>))
        ensures
            *r == self.records().volumes,
    {
        &self.level_2_data_records.volumes
    }

    /// Bid and ask touch volume histories
    pub fn get_touch_volumes(&self) -> (r: (&Vec<Vol>, &Vec<Vol>))
        requires
            self.wf(),
            N > 0,
        ensures
            *r.0 == self.records().volumes_at_levels.0@[0],
            *r.1 == self.records().volumes_at_levels.1@[0],
    {
        (&self.level_2_data_records.volumes_at_levels.0[0], &self.level_2_data_records.volumes_at_levels.1[0])
    }

    /// Bid and ask touch order count histories
    pub fn get_touch_order_counts(&self) -> (r: (&Vec<OrderCount>, &Vec<OrderCount>))
        requires
            self.wf(),
            N > 0,
        ensures
            *r.0 == self.records().orders_at_levels.0@[0],
            *r.1 == self.records().orders_at_levels.1@[0],
    {
        (&self.level_2_data_records.orders_at_levels.0[0], &self.level_2_data_records.orders_at_levels.1[0])
    }

    /// Per step trade volume history
    pub fn get_trade_vols(&self) -> (r: &Vec<Vol>)
        ensures
            r@ == self.trade_history(),
    {
        &self.trade_vols
    }

    /// Copies of the orders created, indexed by id
    pub fn get_orders(&self) -> (r: Vec<Order>)
        ensures
            r@.len() == self.book().arena().len(),
            forall|i: int| 0 <= i < r@.len() ==> #[trigger] r@[i] == self.book().order_at(i),
    {
        self.order_book.get_orders()
    }

    /// The underlying order book
    pub fn get_orderbook(&self) -> (r: &OrderBook<N>)
        ensures
            *r == self.book(),
    {
        &self.order_book
    }

    /// Level 2 data history
    pub fn get_level_2_data_history(&self) -> (r: &Level2DataRecords<N>)
        ensures
            *r == self.records(),
    {
        &self.level_2_data_records
    }

    /// Trade records
    pub fn get_trades(&self) -> (r: &Vec<Trade>)
        ensures
            r@ == self.book().trade_log(),
    {
        self.order_book.get_trades()
    }

    /// Order data of an order
    pub fn order(&self, order_id: OrderId) -> (r: &Order)
        requires
            order_id < self.book().arena().len(),
        ensures
            *r == self.book().order_at(order_id as int),
    {
        self.order_book.order(order_id)
    }

    /// Status of an order
    pub fn order_status(&self, order_id: OrderId) -> (r: Status)
        requires
            order_id < self.book().arena().len(),
        ensures
            r == self.book().order_at(order_id as int).status,
    {
        self.order_book.order(order_id).status
    }

    /// Current level 2 market data
    pub fn level_2_data(&self) -> (r: &Level2Data<N>)
        ensures
            *r == self.snapshot(),
    {
        &self.level_2_data
    }

    /// Length of a simulation step
    pub fn get_step_size(&self) -> (r: Nanos)
        ensures
            r == self.step_len(),
    {
        self.step_size
    }

    /// Instructions waiting for the next step
    pub fn get_transactions(&self) -> (r: &Vec<Event>)
        ensures
            r@ == self.queue(),
    {
        &self.transactions
    }
}

} // verus!
