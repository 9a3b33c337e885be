//! Multi-asset discrete event simulation environment
//!
//! Wraps a [`Market`], queues the order instructions submitted by agents,
//! applies them in a random order each step, and records the market
//! data of every asset.
use rand_xoshiro::Xoroshiro128StarStar;
use vstd::prelude::*;

use crate::data::{record_wf, Level2DataRecords};
use crate::env::shuffle_events;
use crate::market::{market_applied_at, market_applied_in_order, market_clock_set, Market};
use crate::orderbook::{OrderError, valid_price};
use crate::types::{
    AssetIdx, Event, Level2Data, MarketEvent, MarketOrderId, Nanos, Order, OrderCount, Price,
    Side, Status, Trade, TraderId, Vol,
};

verus! {

/// Market `m1` is what one step of length `step` from market `m0` gives:
/// trade volumes are reset, `events` are applied in order from the start
/// time, one time unit apart, and the clocks then jump to the next step
pub open spec fn market_stepped<const A: usize, const L: usize>(
    m0: Market<A, L>,
    m1: Market<A, L>,
    events: Seq<MarketEvent>,
    step: Nanos,
) -> bool {
    exists|r: Market<A, L>, m: Market<A, L>|
        #![trigger market_applied_in_order(r, m, events, m0.books()[0].time())]
        r.books().len() == A && (forall|i: int|
            0 <= i < A ==> (#[trigger] r.books()[i]).same_book(m0.books()[i]) && r.books()[i].time()
                == m0.books()[0].time() && r.books()[i].traded() == 0 && r.books()[i].is_trading()
                == m0.books()[i].is_trading()) && market_applied_in_order(r, m, events, m0.books()[0].time())
            && market_clock_set(m, m1, (m0.books()[0].time() + step) as Nanos)
}

/// Record and snapshot of an asset hold the market data of its book
pub open spec fn snapshot_of<const A: usize, const L: usize>(env: MarketEnv<A, L>, i: int) -> bool {
    let b = env.market_view().books()[i];
    let d = env.snapshot(i);
    &&& env.records(i).holds(env.records(i).len() - 1, d)
    &&& d.bid_price == b.best_bid()
    &&& d.ask_price == b.best_ask()
    &&& d.bid_vol == b.bids().total()
    &&& d.ask_vol == b.asks().total()
}

/// Multi-asset discrete event simulation environment of `A` assets,
/// recording `L` price levels
pub struct MarketEnv<const A: usize, const L: usize> {
    /// Time-length of each simulation step
    step_size: Nanos,
    /// Simulated market
    market: Market<A, L>,
    /// Per step trade volume histories, per asset
    trade_vols: Vec<Vec<Vol>>,
    /// Transaction queue
    transactions: Vec<MarketEvent>,
    /// Current level 2 market data, per asset
    level_2_data: Vec<Level2Data<L>>,
    /// Level 2 data history, per asset
    level_2_data_records: Vec<Level2DataRecords<L>>,
}

impl<const A: usize, const L: usize> MarketEnv<A, L> {
    /// The market
    pub closed spec fn market_view(self) -> Market<A, L> {
        self.market
    }

    /// Instructions waiting for the next step, oldest first
    pub closed spec fn queue(self) -> Seq<MarketEvent> {
        self.transactions@
    }

    /// Length of a step
    pub closed spec fn step_len(self) -> Nanos {
        self.step_size
    }

    /// Trade volume of each step of an asset
    pub closed spec fn trade_history(self, asset: int) -> Seq<Vol> {
        self.trade_vols@[asset]@
    }

    /// Level 2 history of an asset
    pub closed spec fn records(self, asset: int) -> Level2DataRecords<L> {
        self.level_2_data_records@[asset]
    }

    /// Current level 2 data of an asset
    pub closed spec fn snapshot(self, asset: int) -> Level2Data<L> {
        self.level_2_data@[asset]
    }

    /// Environment invariant
    pub open spec fn wf(self) -> bool {
        &&& self.market_view().wf()
        &&& self.inner_wf()
    }

    /// The histories hold one column set per asset, of one length per asset
    pub closed spec fn inner_wf(self) -> bool {
        &&& self.trade_vols@.len() == A
        &&& self.level_2_data@.len() == A
        &&& self.level_2_data_records@.len() == A
        &&& forall|i: int|
            0 <= i < A ==> (#[trigger] self.level_2_data_records@[i]).wf()
                && self.level_2_data_records@[i].len() == self.trade_vols@[i]@.len()
                && record_wf(self.level_2_data@[i])
    }

    /// Initialise an empty market environment
    ///
    /// - `start_time` - Simulation start time
    /// - `tick_sizes` - Tick size of each asset
    /// - `step_size` - Simulated step time-length
    /// - `trading` - Flag if `true` orders will be matched
    pub fn new(start_time: Nanos, tick_sizes: [Price; A], step_size: Nanos, trading: bool) -> (r: Self)
        requires
            A > 0,
            forall|i: int| 0 <= i < A ==> tick_sizes@[i] >= 1,
        ensures
            r.wf(),
            r.queue().len() == 0,
            r.step_len() == step_size,
            forall|i: int| 0 <= i < A ==> (#[trigger] r.market_view().books()[i]).time() == start_time,
    {
        let market = Market::<A, L>::new(start_time, tick_sizes, trading);
        let level_2_data = market.level_2_data();
        let mut trade_vols: Vec<Vec<Vol>> = Vec::new();
        let mut records: Vec<Level2DataRecords<L>> = Vec::new();
        let mut i: usize = 0;
        while i < A
            invariant
                0 <= i <= A,
                trade_vols@.len() == i,
                records@.len() == i,
                forall|k: int|
                    0 <= k < i ==> (#[trigger] records@[k]).wf() && records@[k].len() == 0
                        && trade_vols@[k]@.len() == 0,
            decreases A - i,
        {
            trade_vols.push(Vec::new());
            records.push(Level2DataRecords::new());
            i = i + 1;
        }
        MarketEnv {
            step_size,
            market,
            trade_vols,
            transactions: Vec::new(),
            level_2_data,
            level_2_data_records: records,
        }
    }

    /// Record the market data of the step for every asset
    fn record_step(&mut self)
        requires
            old(self).wf(),
        ensures
            final(self).wf(),
            final(self).market_view() == old(self).market_view(),
            final(self).queue() == old(self).queue(),
            final(self).step_len() == old(self).step_len(),
            forall|i: int|
                0 <= i < A ==> (#[trigger] final(self).trade_history(i)) == old(self).trade_history(i).push(
                    final(self).market_view().books()[i].traded(),
                ) && final(self).records(i).len() == old(self).records(i).len() + 1,
            forall|i: int| 0 <= i < A ==> #[trigger] snapshot_of(*final(self), i),
    {
        self.level_2_data = self.market.level_2_data();
        let trade_vols = self.market.get_trade_vols();
        let mut i: usize = 0;
        while i < A
            invariant
                0 <= i <= A,
                self.market.wf(),
                self.market == old(self).market,
                self.transactions == old(self).transactions,
                self.step_size == old(self).step_size,
                self.trade_vols@.len() == A,
                self.level_2_data@.len() == A,
                self.level_2_data_records@.len() == A,
                trade_vols@.len() == A,
                forall|k: int| 0 <= k < A ==> trade_vols@[k] == (#[trigger] self.market.books()[k]).traded(),
                forall|k: int| 0 <= k < A ==> record_wf(#[trigger] self.level_2_data@[k]),
                forall|k: int|
                    0 <= k < A ==> (#[trigger] self.level_2_data_records@[k]).wf()
                        && self.level_2_data_records@[k].len() == self.trade_vols@[k]@.len(),
                forall|k: int|
                    0 <= k < i ==> (#[trigger] self.trade_vols@[k]@) == old(self).trade_vols@[k]@.push(trade_vols@[k])
                        && self.level_2_data_records@[k].len() == old(self).level_2_data_records@[k].len() + 1,
                forall|k: int|
                    i <= k < A ==> #[trigger] self.trade_vols@[k] == old(self).trade_vols@[k]
                        && self.level_2_data_records@[k] == old(self).level_2_data_records@[k],
                forall|k: int|
                    0 <= k < A ==> (#[trigger] self.level_2_data@[k]).bid_price == self.market.books()[k].best_bid()
                        && self.level_2_data@[k].ask_price == self.market.books()[k].best_ask()
                        && self.level_2_data@[k].bid_vol == self.market.books()[k].bids().total()
                        && self.level_2_data@[k].ask_vol == self.market.books()[k].asks().total(),
                forall|k: int|
                    0 <= k < i ==> (#[trigger] self.level_2_data_records@[k]).holds(
                        old(self).level_2_data_records@[k].len() as int,
                        self.level_2_data@[k],
                    ),
            decreases A - i,
        {
            let ghost r0 = self.level_2_data_records@;
            let ghost t0 = self.trade_vols@;
            let mut record = self.level_2_data_records.remove(i);
            record.append_record(&self.level_2_data[i]);
            self.level_2_data_records.insert(i, record);
            let mut column = self.trade_vols.remove(i);
            column.push(trade_vols[i]);
            self.trade_vols.insert(i, column);
            proof {
                assert(self.level_2_data_records@ =~= r0.update(i as int, record));
                assert(self.trade_vols@ =~= t0.update(i as int, column));
            }
            i = i + 1;
        }
    }

    /// Apply a sequence of instructions as one simulation step
    ///
    /// Trade volumes are reset; instruction `i` is applied at the step's
    /// start time plus `i`; time then jumps to the next step and the
    /// market data of every asset is recorded. An instruction that names
    /// an unknown asset or order, or whose volumes would overflow the
    /// 32-bit volume counters, is skipped.
    pub fn step_with(&mut self, events: Vec<MarketEvent>)
        requires
            old(self).wf(),
            old(self).market_view().books()[0].time() + events@.len() <= u64::MAX,
            old(self).market_view().books()[0].time() + old(self).step_len() <= u64::MAX,
        ensures
            final(self).wf(),
            final(self).queue() == old(self).queue(),
            forall|i: int|
                0 <= i < A ==> (#[trigger] final(self).market_view().books()[i]).time() == old(
                    self).market_view().books()[0].time() + old(self).step_len(),
            forall|i: int|
                0 <= i < A ==> (#[trigger] final(self).trade_history(i)) == old(self).trade_history(i).push(
                    final(self).market_view().books()[i].traded(),
                ) && final(self).records(i).len() == old(self).records(i).len() + 1,
            forall|i: int| 0 <= i < A ==> #[trigger] snapshot_of(*final(self), i),
            market_stepped(old(self).market_view(), final(self).market_view(), events@, old(self).step_len()),
    {
        let start_time = self.market.get_time();
        self.market.reset_trade_vols();
        let ghost m0 = self.market;
        let ghost mut ms: Seq<Market<A, L>> = seq![m0];
        let n = events.len();
        let mut i: usize = 0;
        while i < n
            invariant
                0 <= i <= n,
                n == events@.len(),
                start_time + n <= u64::MAX,
                self.market.wf(),
                self.inner_wf(),
                self.inner_wf() == old(self).inner_wf(),
                self.transactions == old(self).transactions,
                self.step_size == old(self).step_size,
                self.trade_vols == old(self).trade_vols,
                self.level_2_data_records == old(self).level_2_data_records,
                ms.len() == i + 1,
                ms[0] == m0,
                ms[i as int] == self.market,
                forall|k: int|
                    0 <= k < i ==> market_applied_at(#[trigger] ms[k], ms[k + 1], events@[k], (start_time + k) as Nanos),
            decreases n - i,
        {
            let e = events[i];
            let ghost m1 = self.market;
            self.market.set_time(start_time + i as u64);
            let ghost mid = self.market;
            if self.market.check_event(e) {
                self.market.process_event(e);
            }
            proof {
                assert(market_clock_set(m1, mid, (start_time + i) as Nanos));
                assert(market_applied_at(m1, self.market, e, (start_time + i) as Nanos));
                let ms2 = ms.push(self.market);
                assert forall|k: int|
                    0 <= k < i + 1 implies market_applied_at(#[trigger] ms2[k], ms2[k + 1], events@[k], (start_time + k) as Nanos) by {
                    if k < i {
                        assert(ms2[k] == ms[k] && ms2[k + 1] == ms[k + 1]);
                    }
                }
                ms = ms2;
            }
            i = i + 1;
        }
        let ghost ml = self.market;
        self.market.set_time(start_time + self.step_size);
        proof {
            assert(ms.len() == events@.len() + 1 && ms[0] == m0 && ms[events@.len() as int] == ml);
            assert(market_applied_in_order(m0, ml, events@, start_time));
            assert(market_clock_set(ml, self.market, (start_time + self.step_size) as Nanos));
        }
        self.record_step();
    }

    /// Update the state of the simulation
    ///
    /// The queued instructions are shuffled with `rng` and applied as
    /// one step (see [`MarketEnv::step_with`]); the queue is then empty.
    pub fn step(&mut self, rng: &mut Xoroshiro128StarStar)
        requires
            old(self).wf(),
            old(self).market_view().books()[0].time() + old(self).queue().len() <= u64::MAX,
            old(self).market_view().books()[0].time() + old(self).step_len() <= u64::MAX,
        ensures
            final(self).wf(),
            final(self).queue().len() == 0,
            forall|i: int|
                0 <= i < A ==> (#[trigger] final(self).market_view().books()[i]).time() == old(
                    self).market_view().books()[0].time() + old(self).step_len(),
            forall|i: int|
                0 <= i < A ==> (#[trigger] final(self).trade_history(i)) == old(self).trade_history(i).push(
                    final(self).market_view().books()[i].traded(),
                ) && final(self).records(i).len() == old(self).records(i).len() + 1,
            forall|i: int| 0 <= i < A ==> #[trigger] snapshot_of(*final(self), i),
            exists|events: Seq<MarketEvent>|
                #![trigger events.to_multiset()]
                events.to_multiset() == old(self).queue().to_multiset() && market_stepped(
                    old(self).market_view(),
                    final(self).market_view(),
                    events,
                    old(self).step_len(),
                ),
    {
        let mut transactions: Vec<MarketEvent> = Vec::new();
        std::mem::swap(&mut transactions, &mut self.transactions);
        shuffle_events(&mut transactions, rng);
        proof {
            transactions@.to_multiset_ensures();
            old(self).queue().to_multiset_ensures();
            assert(transactions@.len() == old(self).queue().len());
        }
        let ghost shuffled = transactions@;
        self.step_with(transactions);
        proof {
            assert(shuffled.to_multiset() == old(self).queue().to_multiset());
        }
    }

    /// Enable trading
    pub fn enable_trading(&mut self)
        requires
            old(self).wf(),
        ensures
            final(self).wf(),
            final(self).queue() == old(self).queue(),
            forall|i: int| 0 <= i < A ==> (#[trigger] final(self).market_view().books()[i]).is_trading(),
    {
        self.market.enable_trading();
    }

    /// Disable trading
    pub fn disable_trading(&mut self)
        requires
            old(self).wf(),
        ensures
            final(self).wf(),
            final(self).queue() == old(self).queue(),
            forall|i: int| 0 <= i < A ==> !(#[trigger] final(self).market_view().books()[i]).is_trading(),
    {
        self.market.disable_trading();
    }

    /// Create a new order for an asset and queue an instruction to place it
    pub fn place_order(
        &mut self,
        asset: AssetIdx,
        side: Side,
        vol: Vol,
        trader_id: TraderId,
        price: Option<Price>,
    ) -> (r: Result<MarketOrderId, OrderError>)
        requires
            old(self).wf(),
            asset < A,
            old(self).market_view().books()[asset as int].arena().len() < usize::MAX,
        ensures
            final(self).wf(),
            r.is_ok() <==> match price {
                Some(p) => valid_price(p, old(self).market_view().books()[asset as int].tick()),
                None => true,
            },
            r.is_err() ==> final(self).queue() == old(self).queue(),
            r.is_ok() ==> final(self).queue() == old(self).queue().push(
                MarketEvent { asset, event: Event::New { order_id: r.unwrap().1 } },
            ) && r.unwrap() == (asset, old(self).market_view().books()[asset as int].arena().len() as usize),
    {
        match self.market.create_order(asset, side, vol, trader_id, price) {
            Ok(order_id) => {
                self.transactions.push(MarketEvent { asset, event: Event::New { order_id: order_id.1 } });
                Ok(order_id)
            },
            Err(e) => Err(e),
        }
    }

    /// Queue an instruction to cancel an order
    pub fn cancel_order(&mut self, order_id: MarketOrderId)
        requires
            old(self).wf(),
        ensures
            final(self).wf(),
            final(self).queue() == old(self).queue().push(
                MarketEvent { asset: order_id.0, event: Event::Cancellation { order_id: order_id.1 } },
            ),
    {
        self.transactions.push(
            MarketEvent { asset: order_id.0, event: Event::Cancellation { order_id: order_id.1 } },
        )
    }

    /// Queue an instruction to modify an order
    pub fn modify_order(&mut self, order_id: MarketOrderId, new_price: Option<Price>, new_vol: Option<Vol>)
        requires
            old(self).wf(),
        ensures
            final(self).wf(),
            final(self).queue() == old(self).queue().push(
                MarketEvent {
                    asset: order_id.0,
                    event: Event::Modify { order_id: order_id.1, new_price, new_vol },
                },
            ),
    {
        self.transactions.push(
            MarketEvent {
                asset: order_id.0,
                event: Event::Modify { order_id: order_id.1, new_price, new_vol },
            },
        )
    }

    /// Bid and ask touch price histories of an asset
    pub fn get_prices(&self, asset: AssetIdx) -> (r: &(Vec<Price>, Vec<Price>))
        requires
            self.wf(),
            asset < A,
        ensures
            *r == self.records(asset as int).prices,
    {
        &self.level_2_data_records[asset].prices
    }

    /// Bid and ask total volume histories of an asset
    pub fn get_volumes(&self, asset: AssetIdx) -> (r: &(Vec<Vol>, Vec<Vol>))
        requires
            self.wf(),
            asset < A,
        ensures
            *r == self.records(asset as int).volumes,
    {
        &self.level_2_data_records[asset].volumes
    }

    /// Bid and ask touch volume histories of an asset
    pub fn get_touch_volumes(&self, asset: AssetIdx) -> (r: (&Vec<Vol>, &Vec<Vol>))
        requires
            self.wf(),
            asset < A,
            L > 0,
        ensures
            *r.0 == self.records(asset as int).volumes_at_levels.0@[0],
            *r.1 == self.records(asset as int).volumes_at_levels.1@[0],
    {
        (
            &self.level_2_data_records[asset].volumes_at_levels.0[0],
            &self.level_2_data_records[asset].volumes_at_levels.1[0],
        )
    }

    /// Bid and ask touch order count histories of an asset
    pub fn get_touch_order_counts(&self, asset: AssetIdx) -> (r: (&Vec<OrderCount>, &Vec<OrderCount>))
        requires
            self.wf(),
            asset < A,
            L > 0,
        ensures
            *r.0 == self.records(asset as int).orders_at_levels.0@[0],
            *r.1 == self.records(asset as int).orders_at_levels.1@[0],
    {
        (
            &self.level_2_data_records[asset].orders_at_levels.0[0],
            &self.level_2_data_records[asset].orders_at_levels.1[0],
        )
    }

    /// Per step trade volume history of an asset
    pub fn get_trade_vols(&self, asset: AssetIdx) -> (r: &Vec<Vol>)
        requires
            self.wf(),
            asset < A,
        ensures
            r@ == self.trade_history(asset as int),
    {
        &self.trade_vols[asset]
    }

    /// Copies of the orders created for an asset
    pub fn get_orders(&self, asset: AssetIdx) -> (r: Vec<Order>)
        requires
            self.wf(),
            asset < A,
        ensures
            r@.len() == self.market_view().books()[asset as int].arena().len(),
            forall|i: int|
                0 <= i < r@.len() ==> #[trigger] r@[i] == self.market_view().books()[asset as int].order_at(i),
    {
        self.market.get_orders(asset)
    }

    /// The underlying market
    pub fn get_market(&self) -> (r: &Market<A, L>)
        ensures
            *r == self.market_view(),
    {
        &self.market
    }

    /// Level 2 data history of an asset
    pub fn get_level_2_data_history(&self, asset: AssetIdx) -> (r: &Level2DataRecords<L>)
        requires
            self.wf(),
            asset < A,
        ensures
            *r == self.records(asset as int),
    {
        &self.level_2_data_records[asset]
    }

    /// Trade records of an asset
    pub fn get_trades(&self, asset: AssetIdx) -> (r: &Vec<Trade>)
        requires
            self.wf(),
            asset < A,
        ensures
            r@ == self.market_view().books()[asset as int].trade_log(),
    {
        self.market.get_order_book(asset).get_trades()
    }

    /// Order data of an order
    pub fn order(&self, order_id: MarketOrderId) -> (r: &Order)
        requires
            self.wf(),
            order_id.0 < A,
            order_id.1 < self.market_view().books()[order_id.0 as int].arena().len(),
        ensures
            *r == self.market_view().books()[order_id.0 as int].order_at(order_id.1 as int),
    {
        self.market.order(order_id)
    }

    /// Status of an order
    pub fn order_status(&self, order_id: MarketOrderId) -> (r: Status)
        requires
            self.wf(),
            order_id.0 < A,
            order_id.1 < self.market_view().books()[order_id.0 as int].arena().len(),
        ensures
            r == self.market_view().books()[order_id.0 as int].order_at(order_id.1 as int).status,
    {
        self.market.order(order_id).status
    }

    /// Current level 2 market data of every asset
    pub fn level_2_data(&self) -> (r: &Vec<Level2Data<L>>)
        requires
            self.wf(),
        ensures
            r@.len() == A,
    {
        &self.level_2_data
    }

    /// Length of a simulation step
    pub fn get_step_size(&self) -> (r: Nanos)
        ensures
            r == self.step_len(),
    {
        self.step_size
    }

    /// Instructions waiting for the next step
    pub fn get_transactions(&self) -> (r: &Vec<MarketEvent>)
        ensures
            r@ == self.queue(),
    {
        &self.transactions
    }
}

} // verus!
