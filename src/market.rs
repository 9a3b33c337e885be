//! Multi asset market combining several order books
//!
//! Assets are indexed by position; order ids are extended with the
//! index of the asset they trade. All books share one clock.
use vstd::prelude::*;

use crate::orderbook::{
    cancelled, clock_set, created_entry, placed, processed, tick_walk, valid_price, OrderBook,
    OrderError,
};
use crate::side::price_key;
use crate::types::{
    AssetIdx, Event, Level2Data, MarketEvent, MarketOrderId, Nanos, Order, OrderCount, Price,
    Side, Status, TraderId, Vol,
};

verus! {

/// Every book of `m1` is the book of `m0` with its clock set to `t`
pub open spec fn market_clock_set<const N: usize, const M: usize>(m0: Market<N, M>, m1: Market<N, M>, t: Nanos) -> bool {
    &&& m1.books().len() == m0.books().len()
    &&& forall|i: int| 0 <= i < m0.books().len() ==> clock_set(#[trigger] m0.books()[i], m1.books()[i], t)
}

/// Applying instruction `e` at time `t` to market `m0` gives market `m1`:
/// every clock is set to `t`, then the instruction is processed by the
/// book of its asset where it can be, and skipped where it cannot
pub open spec fn market_applied_at<const N: usize, const M: usize>(
    m0: Market<N, M>,
    m1: Market<N, M>,
    e: MarketEvent,
    t: Nanos,
) -> bool {
    exists|mid: Market<N, M>|
        #[trigger] market_clock_set(m0, mid, t) && if e.asset < N && mid.books()[e.asset as int].can_process(
            e.event,
        ) {
            &&& m1.books().len() == mid.books().len()
            &&& processed(mid.books()[e.asset as int], m1.books()[e.asset as int], e.event)
            &&& forall|i: int|
                0 <= i < mid.books().len() && i != e.asset ==> #[trigger] m1.books()[i] == mid.books()[i]
        } else {
            m1.books() == mid.books()
        }
}

/// Market `m1` is what applying `events` in order to market `m0` gives,
/// the instruction at index `i` being applied at time `start + i`
pub open spec fn market_applied_in_order<const N: usize, const M: usize>(
    m0: Market<N, M>,
    m1: Market<N, M>,
    events: Seq<MarketEvent>,
    start: Nanos,
) -> bool {
    exists|ms: Seq<Market<N, M>>|
        #![trigger ms.len()]
        ms.len() == events.len() + 1 && ms[0] == m0 && ms[events.len() as int] == m1 && forall|i: int|
            0 <= i < events.len() ==> market_applied_at(#[trigger] ms[i], ms[i + 1], events[i], (start + i) as Nanos)
}

/// Multi asset market of `N` order books, each reporting `M` price levels
pub struct Market<const N: usize, const M: usize> {
    order_books: Vec<OrderBook<M>>,
}

impl<const N: usize, const M: usize> Market<N, M> {
    /// The order books, indexed by asset
    pub closed spec fn books(self) -> Seq<OrderBook<M>> {
        self.order_books@
    }

    /// Market invariant: one well-formed book per asset, all at one time
    pub open spec fn wf(self) -> bool {
        &&& self.books().len() == N
        &&& N > 0
        &&& forall|i: int| 0 <= i < N ==> (#[trigger] self.books()[i]).wf()
        &&& forall|i: int| 0 <= i < N ==> (#[trigger] self.books()[i]).time() == self.books()[0].time()
    }

    /// Initialise a market
    ///
    /// - `start_time` - Initial time of every book
    /// - `tick_size` - Tick size of each asset
    /// - `trading` - If `false` no orders will be matched
    pub fn new(start_time: Nanos, tick_size: [Price; N], trading: bool) -> (r: Self)
        requires
            N > 0,
            forall|i: int| 0 <= i < N ==> tick_size@[i] >= 1,
        ensures
            r.wf(),
            forall|i: int|
                0 <= i < N ==> (#[trigger] r.books()[i]).time() == start_time && r.books()[i].tick()
                    == tick_size@[i] && r.books()[i].is_trading() == trading && r.books()[i].arena().len()
                    == 0,
    {
        let mut order_books: Vec<OrderBook<M>> = Vec::new();
        let mut i: usize = 0;
        while i < N
            invariant
                0 <= i <= N,
                order_books@.len() == i,
                forall|k: int| 0 <= k < N ==> tick_size@[k] >= 1,
                forall|k: int|
                    0 <= k < i ==> (#[trigger] order_books@[k]).wf() && order_books@[k].time() == start_time
                        && order_books@[k].tick() == tick_size@[k] && order_books@[k].is_trading()
                        == trading && order_books@[k].arena().len() == 0,
            decreases N - i,
        {
            order_books.push(OrderBook::new(start_time, tick_size[i], trading));
            i = i + 1;
        }
        Market { order_books }
    }

    /// Market made of existing books, one per asset; fails unless there
    /// are `N` books, all at one time
    pub fn from_books(books: Vec<OrderBook<M>>) -> (r: Option<Self>)
        requires
            forall|i: int| 0 <= i < books@.len() ==> (#[trigger] books@[i]).wf(),
        ensures
            r.is_some() <==> (N > 0 && books@.len() == N && forall|i: int|
                0 <= i < N ==> (#[trigger] books@[i]).time() == books@[0].time()),
            r.is_some() ==> r.unwrap().wf() && r.unwrap().books() == books@,
    {
        if N == 0 || books.len() != N {
            return None;
        }
        let t = books[0].get_time();
        let mut i: usize = 0;
        while i < N
            invariant
                0 <= i <= N,
                books@.len() == N,
                t == books@[0].time(),
                forall|k: int| 0 <= k < i ==> (#[trigger] books@[k]).time() == t,
            decreases N - i,
        {
            if books[i].get_time() != t {
                return None;
            }
            i = i + 1;
        }
        Some(Market { order_books: books })
    }

    /// Reference to the order book of an asset
    pub fn get_order_book(&self, asset: AssetIdx) -> (r: &OrderBook<M>)
        requires
            self.wf(),
            asset < N,
        ensures
            *r == self.books()[asset as int],
    {
        &self.order_books[asset]
    }

    /// Market time
    pub fn get_time(&self) -> (r: Nanos)
        requires
            self.wf(),
        ensures
            forall|i: int| 0 <= i < N ==> r == (#[trigger] self.books()[i]).time(),
    {
        self.order_books[0].get_time()
    }

    /// Set the time of every book
    pub fn set_time(&mut self, t: Nanos)
        requires
            old(self).wf(),
        ensures
            final(self).wf(),
            forall|i: int|
                0 <= i < N ==> (#[trigger] final(self).books()[i]).time() == t && final(self).books()[i].same_book(
                    old(self).books()[i],
                ) && final(self).books()[i].traded() == old(self).books()[i].traded()
                    && final(self).books()[i].is_trading() == old(self).books()[i].is_trading(),
    {
        let mut i: usize = 0;
        while i < N
            invariant
                0 <= i <= N,
                self.order_books@.len() == N,
                forall|k: int| 0 <= k < N ==> (#[trigger] self.books()[k]).wf(),
                forall|k: int|
                    0 <= k < i ==> (#[trigger] self.books()[k]).time() == t && self.books()[k].same_book(
                        old(self).books()[k],
                    ) && self.books()[k].traded() == old(self).books()[k].traded()
                        && self.books()[k].is_trading() == old(self).books()[k].is_trading(),
                forall|k: int| i <= k < N ==> #[trigger] self.books()[k] == old(self).books()[k],
            decreases N - i,
        {
            let ghost b0 = self.books();
            let mut book = self.order_books.remove(i);
            book.set_time(t);
            self.order_books.insert(i, book);
            proof {
                assert(self.order_books@ =~= b0.update(i as int, book));
            }
            i = i + 1;
        }
    }

    /// Enable or disable trade execution for all assets
    fn set_trading(&mut self, trading: bool)
        requires
            old(self).wf(),
        ensures
            final(self).wf(),
            forall|i: int|
                0 <= i < N ==> (#[trigger] final(self).books()[i]).is_trading() == trading && final(self).books()[i].same_book(old(self).books()[i]) && final(self).books()[i].traded() == old(self).books()[i].traded() && final(self).books()[i].time() == old(self).books()[i].time(),
    {
        let mut i: usize = 0;
        while i < N
            invariant
                0 <= i <= N,
                self.order_books@.len() == N,
                old(self).wf(),
                forall|k: int| 0 <= k < N ==> (#[trigger] self.books()[k]).wf(),
                forall|k: int| 0 <= k < N ==> (#[trigger] self.books()[k]).time() == old(self).books()[k].time(),
                forall|k: int|
                    0 <= k < i ==> (#[trigger] self.books()[k]).is_trading() == trading
                        && self.books()[k].same_book(old(self).books()[k]) && self.books()[k].traded()
                        == old(self).books()[k].traded(),
                forall|k: int| i <= k < N ==> #[trigger] self.books()[k] == old(self).books()[k],
            decreases N - i,
        {
            let ghost b0 = self.books();
            let mut book = self.order_books.remove(i);
            if trading {
                book.enable_trading();
            } else {
                book.disable_trading();
            }
            self.order_books.insert(i, book);
            proof {
                assert(self.order_books@ =~= b0.update(i as int, book));
            }
            i = i + 1;
        }
    }

    /// Enable trade execution for all assets
    pub fn enable_trading(&mut self)
        requires
            old(self).wf(),
        ensures
            final(self).wf(),
            forall|i: int| 0 <= i < N ==> (#[trigger] final(self).books()[i]).is_trading(),
    {
        self.set_trading(true)
    }

    /// Disable trade execution for all assets
    pub fn disable_trading(&mut self)
        requires
            old(self).wf(),
        ensures
            final(self).wf(),
            forall|i: int| 0 <= i < N ==> !(#[trigger] final(self).books()[i]).is_trading(),
    {
        self.set_trading(false)
    }

    /// Cumulative trade volume of each asset
    pub fn get_trade_vols(&self) -> (r: Vec<Vol>)
        requires
            self.wf(),
        ensures
            r@.len() == N,
            forall|i: int| 0 <= i < N ==> r@[i] == (#[trigger] self.books()[i]).traded(),
    {
        let mut r: Vec<Vol> = Vec::new();
        let mut i: usize = 0;
        while i < N
            invariant
                0 <= i <= N,
                self.wf(),
                r@.len() == i,
                forall|k: int| 0 <= k < i ==> r@[k] == (#[trigger] self.books()[k]).traded(),
            decreases N - i,
        {
            r.push(self.order_books[i].get_trade_vol());
            i = i + 1;
        }
        r
    }

    /// Reset the cumulative trade volume of every asset to 0
    pub fn reset_trade_vols(&mut self)
        requires
            old(self).wf(),
        ensures
            final(self).wf(),
            forall|i: int|
                0 <= i < N ==> (#[trigger] final(self).books()[i]).traded() == 0 && final(self).books()[i].same_book(
                    old(self).books()[i],
                ) && final(self).books()[i].time() == old(self).books()[i].time()
                    && final(self).books()[i].is_trading() == old(self).books()[i].is_trading(),
    {
        let mut i: usize = 0;
        while i < N
            invariant
                0 <= i <= N,
                self.order_books@.len() == N,
                old(self).wf(),
                forall|k: int| 0 <= k < N ==> (#[trigger] self.books()[k]).wf(),
                forall|k: int| 0 <= k < N ==> (#[trigger] self.books()[k]).time() == old(self).books()[k].time(),
                forall|k: int|
                    0 <= k < i ==> (#[trigger] self.books()[k]).traded() == 0 && self.books()[k].same_book(
                        old(self).books()[k],
                    ) && self.books()[k].is_trading() == old(self).books()[k].is_trading(),
                forall|k: int| i <= k < N ==> #[trigger] self.books()[k] == old(self).books()[k],
            decreases N - i,
        {
            let ghost b0 = self.books();
            let mut book = self.order_books.remove(i);
            book.reset_trade_vol();
            self.order_books.insert(i, book);
            proof {
                assert(self.order_books@ =~= b0.update(i as int, book));
            }
            i = i + 1;
        }
    }

    /// Total bid volume of each asset
    pub fn bid_vols(&self) -> (r: Vec<Vol>)
        requires
            self.wf(),
        ensures
            r@.len() == N,
            forall|i: int| 0 <= i < N ==> r@[i] == (#[trigger] self.books()[i]).bids().total(),
    {
        let mut r: Vec<Vol> = Vec::new();
        let mut i: usize = 0;
        while i < N
            invariant
                0 <= i <= N,
                self.wf(),
                r@.len() == i,
                forall|k: int| 0 <= k < i ==> r@[k] == (#[trigger] self.books()[k]).bids().total(),
            decreases N - i,
        {
            r.push(self.order_books[i].bid_vol());
            i = i + 1;
        }
        r
    }

    /// Total ask volume of each asset
    pub fn ask_vols(&self) -> (r: Vec<Vol>)
        requires
            self.wf(),
        ensures
            r@.len() == N,
            forall|i: int| 0 <= i < N ==> r@[i] == (#[trigger] self.books()[i]).asks().total(),
    {
        let mut r: Vec<Vol> = Vec::new();
        let mut i: usize = 0;
        while i < N
            invariant
                0 <= i <= N,
                self.wf(),
                r@.len() == i,
                forall|k: int| 0 <= k < i ==> r@[k] == (#[trigger] self.books()[k]).asks().total(),
            decreases N - i,
        {
            r.push(self.order_books[i].ask_vol());
            i = i + 1;
        }
        r
    }

    /// Touch bid volume of each asset
    pub fn bid_best_vols(&self) -> (r: Vec<Vol>)
        requires
            self.wf(),
        ensures
            r@.len() == N,
            forall|i: int|
                0 <= i < N ==> r@[i] == (#[trigger] self.books()[i]).bids().level_vol(
                    self.books()[i].bids().best_key(),
                ),
    {
        let mut r: Vec<Vol> = Vec::new();
        let mut i: usize = 0;
        while i < N
            invariant
                0 <= i <= N,
                self.wf(),
                r@.len() == i,
                forall|k: int|
                    0 <= k < i ==> r@[k] == (#[trigger] self.books()[k]).bids().level_vol(
                        self.books()[k].bids().best_key(),
                    ),
            decreases N - i,
        {
            r.push(self.order_books[i].bid_best_vol());
            i = i + 1;
        }
        r
    }

    /// Touch ask volume of each asset
    pub fn ask_best_vols(&self) -> (r: Vec<Vol>)
        requires
            self.wf(),
        ensures
            r@.len() == N,
            forall|i: int|
                0 <= i < N ==> r@[i] == (#[trigger] self.books()[i]).asks().level_vol(
                    self.books()[i].asks().best_key(),
                ),
    {
        let mut r: Vec<Vol> = Vec::new();
        let mut i: usize = 0;
        while i < N
            invariant
                0 <= i <= N,
                self.wf(),
                r@.len() == i,
                forall|k: int|
                    0 <= k < i ==> r@[k] == (#[trigger] self.books()[k]).asks().level_vol(
                        self.books()[k].asks().best_key(),
                    ),
            decreases N - i,
        {
            r.push(self.order_books[i].ask_best_vol());
            i = i + 1;
        }
        r
    }

    /// Touch bid volume and order count of each asset
    pub fn bid_best_vol_and_orders(&self) -> (r: Vec<(Vol, OrderCount)>)
        requires
            self.wf(),
        ensures
            r@.len() == N,
            forall|i: int|
                0 <= i < N ==> (#[trigger] r@[i]).0 == self.books()[i].bids().level_vol(
                    self.books()[i].bids().best_key(),
                ) && r@[i].1 == self.books()[i].bids().level_count(self.books()[i].bids().best_key()),
    {
        let mut r: Vec<(Vol, OrderCount)> = Vec::new();
        let mut i: usize = 0;
        while i < N
            invariant
                0 <= i <= N,
                self.wf(),
                r@.len() == i,
                forall|k: int|
                    0 <= k < i ==> (#[trigger] r@[k]).0 == self.books()[k].bids().level_vol(
                        self.books()[k].bids().best_key(),
                    ) && r@[k].1 == self.books()[k].bids().level_count(self.books()[k].bids().best_key()),
            decreases N - i,
        {
            r.push(self.order_books[i].bid_best_vol_and_orders());
            i = i + 1;
        }
        r
    }

    /// Touch ask volume and order count of each asset
    pub fn ask_best_vol_and_orders(&self) -> (r: Vec<(Vol, OrderCount)>)
        requires
            self.wf(),
        ensures
            r@.len() == N,
            forall|i: int|
                0 <= i < N ==> (#[trigger] r@[i]).0 == self.books()[i].asks().level_vol(
                    self.books()[i].asks().best_key(),
                ) && r@[i].1 == self.books()[i].asks().level_count(self.books()[i].asks().best_key()),
    {
        let mut r: Vec<(Vol, OrderCount)> = Vec::new();
        let mut i: usize = 0;
        while i < N
            invariant
                0 <= i <= N,
                self.wf(),
                r@.len() == i,
                forall|k: int|
                    0 <= k < i ==> (#[trigger] r@[k]).0 == self.books()[k].asks().level_vol(
                        self.books()[k].asks().best_key(),
                    ) && r@[k].1 == self.books()[k].asks().level_count(self.books()[k].asks().best_key()),
            decreases N - i,
        {
            r.push(self.order_books[i].ask_best_vol_and_orders());
            i = i + 1;
        }
        r
    }

    /// Bid price levels of each asset (see [`OrderBook::bid_levels`])
    pub fn bid_levels(&self) -> (r: Vec<Vec<(Vol, OrderCount)>>)
        requires
            self.wf(),
        ensures
            r@.len() == N,
            forall|i: int| 0 <= i < N ==> (#[trigger] r@[i])@.len() == M,
            forall|i: int, k: int|
                0 <= i < N && 0 <= k < M ==> #[trigger] r@[i]@[k] == (
                    self.books()[i].bids().level_vol(price_key(Side::Bid, tick_walk(self.books()[i].best_bid(), self.books()[i].tick(), k as nat, false))) as Vol,
                    self.books()[i].bids().level_count(price_key(Side::Bid, tick_walk(self.books()[i].best_bid(), self.books()[i].tick(), k as nat, false))) as OrderCount,
                ),
    {
        let mut r: Vec<Vec<(Vol, OrderCount)>> = Vec::new();
        let mut i: usize = 0;
        while i < N
            invariant
                0 <= i <= N,
                self.wf(),
                r@.len() == i,
                forall|k: int| 0 <= k < i ==> (#[trigger] r@[k])@.len() == M,
                forall|j: int, k: int|
                    0 <= j < i && 0 <= k < M ==> #[trigger] r@[j]@[k] == (
                        self.books()[j].bids().level_vol(price_key(Side::Bid, tick_walk(self.books()[j].best_bid(), self.books()[j].tick(), k as nat, false))) as Vol,
                        self.books()[j].bids().level_count(price_key(Side::Bid, tick_walk(self.books()[j].best_bid(), self.books()[j].tick(), k as nat, false))) as OrderCount,
                    ),
            decreases N - i,
        {
            r.push(self.order_books[i].bid_levels());
            i = i + 1;
        }
        r
    }

    /// Ask price levels of each asset (see [`OrderBook::ask_levels`])
    pub fn ask_levels(&self) -> (r: Vec<Vec<(Vol, OrderCount)>>)
        requires
            self.wf(),
        ensures
            r@.len() == N,
            forall|i: int| 0 <= i < N ==> (#[trigger] r@[i])@.len() == M,
            forall|i: int, k: int|
                0 <= i < N && 0 <= k < M ==> #[trigger] r@[i]@[k] == (
                    self.books()[i].asks().level_vol(tick_walk(self.books()[i].best_ask(), self.books()[i].tick(), k as nat, true)) as Vol,
                    self.books()[i].asks().level_count(tick_walk(self.books()[i].best_ask(), self.books()[i].tick(), k as nat, true)) as OrderCount,
                ),
    {
        let mut r: Vec<Vec<(Vol, OrderCount)>> = Vec::new();
        let mut i: usize = 0;
        while i < N
            invariant
                0 <= i <= N,
                self.wf(),
                r@.len() == i,
                forall|k: int| 0 <= k < i ==> (#[trigger] r@[k])@.len() == M,
                forall|j: int, k: int|
                    0 <= j < i && 0 <= k < M ==> #[trigger] r@[j]@[k] == (
                        self.books()[j].asks().level_vol(tick_walk(self.books()[j].best_ask(), self.books()[j].tick(), k as nat, true)) as Vol,
                        self.books()[j].asks().level_count(tick_walk(self.books()[j].best_ask(), self.books()[j].tick(), k as nat, true)) as OrderCount,
                    ),
            decreases N - i,
        {
            r.push(self.order_books[i].ask_levels());
            i = i + 1;
        }
        r
    }

    /// Touch prices of each asset
    pub fn bid_asks(&self) -> (r: Vec<(Price, Price)>)
        requires
            self.wf(),
        ensures
            r@.len() == N,
            forall|i: int|
                0 <= i < N ==> #[trigger] r@[i] == (self.books()[i].best_bid(), self.books()[i].best_ask()),
    {
        let mut r: Vec<(Price, Price)> = Vec::new();
        let mut i: usize = 0;
        while i < N
            invariant
                0 <= i <= N,
                self.wf(),
                r@.len() == i,
                forall|k: int|
                    0 <= k < i ==> #[trigger] r@[k] == (self.books()[k].best_bid(), self.books()[k].best_ask()),
            decreases N - i,
        {
            r.push(self.order_books[i].bid_ask());
            i = i + 1;
        }
        r
    }

    /// Level 2 data of each asset
    pub fn level_2_data(&self) -> (r: Vec<Level2Data<M>>)
        requires
            self.wf(),
        ensures
            r@.len() == N,
            forall|i: int|
                0 <= i < N ==> (#[trigger] r@[i]).bid_price_levels@.len() == M
                    && r@[i].ask_price_levels@.len() == M
                    && r@[i].bid_price == self.books()[i].best_bid()
                    && r@[i].ask_price == self.books()[i].best_ask()
                    && r@[i].bid_vol == self.books()[i].bids().total()
                    && r@[i].ask_vol == self.books()[i].asks().total(),
    {
        let mut r: Vec<Level2Data<M>> = Vec::new();
        let mut i: usize = 0;
        while i < N
            invariant
                0 <= i <= N,
                self.wf(),
                r@.len() == i,
                forall|k: int|
                    0 <= k < i ==> (#[trigger] r@[k]).bid_price_levels@.len() == M
                        && r@[k].ask_price_levels@.len() == M
                        && r@[k].bid_price == self.books()[k].best_bid()
                        && r@[k].ask_price == self.books()[k].best_ask()
                        && r@[k].bid_vol == self.books()[k].bids().total()
                        && r@[k].ask_vol == self.books()[k].asks().total(),
            decreases N - i,
        {
            r.push(self.order_books[i].level_2_data());
            i = i + 1;
        }
        r
    }

    /// Order data of an order
    pub fn order(&self, order_id: MarketOrderId) -> (r: &Order)
        requires
            self.wf(),
            order_id.0 < N,
            order_id.1 < self.books()[order_id.0 as int].arena().len(),
        ensures
            *r == self.books()[order_id.0 as int].order_at(order_id.1 as int),
    {
        self.order_books[order_id.0].order(order_id.1)
    }

    /// Copies of the orders created for an asset
    pub fn get_orders(&self, asset: AssetIdx) -> (r: Vec<Order>)
        requires
            self.wf(),
            asset < N,
        ensures
            r@.len() == self.books()[asset as int].arena().len(),
            forall|i: int| 0 <= i < r@.len() ==> #[trigger] r@[i] == self.books()[asset as int].order_at(i),
    {
        self.order_books[asset].get_orders()
    }

    /// Create a new order for an asset (see [`OrderBook::create_order`])
    pub fn create_order(&mut self, asset: AssetIdx, side: Side, vol: Vol, trader_id: TraderId, price: Option<
        Price,
    >) -> (r: Result<MarketOrderId, OrderError>)
        requires
            old(self).wf(),
            asset < N,
            old(self).books()[asset as int].arena().len() < usize::MAX,
        ensures
            final(self).wf(),
            r.is_ok() <==> match price {
                Some(p) => valid_price(p, old(self).books()[asset as int].tick()),
                None => true,
            },
            r.is_ok() ==> r == Ok::<MarketOrderId, OrderError>(
                (asset, old(self).books()[asset as int].arena().len() as usize),
            ),
            r.is_err() ==> r == Err::<MarketOrderId, OrderError>(
                OrderError::PriceError { price: price.unwrap(), tick_size: old(self).books()[asset as int].tick() },
            ) && final(self).books() == old(self).books(),
            r.is_ok() ==> final(self).books()[asset as int].arena() == old(self).books()[asset as int].arena().push(
                created_entry(
                    side,
                    vol,
                    trader_id,
                    price,
                    old(self).books()[asset as int].time(),
                    old(self).books()[asset as int].arena().len() as usize,
                ),
            ) && final(self).books()[asset as int].same_book_but_orders(old(self).books()[asset as int]),
            forall|i: int| 0 <= i < N && i != asset ==> #[trigger] final(self).books()[i] == old(self).books()[i],
    {
        let ghost b0 = self.books();
        let mut book = self.order_books.remove(asset);
        let res = book.create_order(side, vol, trader_id, price);
        self.order_books.insert(asset, book);
        proof {
            assert(self.order_books@ =~= b0.update(asset as int, book));
        }
        match res {
            Ok(id) => Ok((asset, id)),
            Err(e) => Err(e),
        }
    }

    /// Create an order for an asset and place it immediately
    pub fn create_and_place_order(
        &mut self,
        asset: AssetIdx,
        side: Side,
        vol: Vol,
        trader_id: TraderId,
        price: Option<Price>,
    ) -> (r: Result<MarketOrderId, OrderError>)
        requires
            old(self).wf(),
            asset < N,
            old(self).books()[asset as int].arena().len() < OrderCount::MAX,
            old(self).books()[asset as int].side_vol(side) + vol <= Vol::MAX,
            old(self).books()[asset as int].traded() + vol <= Vol::MAX,
        ensures
            final(self).wf(),
            r.is_ok() <==> match price {
                Some(p) => valid_price(p, old(self).books()[asset as int].tick()),
                None => true,
            },
            r.is_ok() ==> r == Ok::<MarketOrderId, OrderError>(
                (asset, old(self).books()[asset as int].arena().len() as usize),
            ),
            r.is_err() ==> r == Err::<MarketOrderId, OrderError>(
                OrderError::PriceError { price: price.unwrap(), tick_size: old(self).books()[asset as int].tick() },
            ) && final(self).books() == old(self).books(),
            r.is_ok() ==> exists|b: OrderBook<M>|
                b.arena() == old(self).books()[asset as int].arena().push(
                    created_entry(
                        side,
                        vol,
                        trader_id,
                        price,
                        old(self).books()[asset as int].time(),
                        old(self).books()[asset as int].arena().len() as usize,
                    ),
                ) && b.same_book_but_orders(old(self).books()[asset as int]) && placed(
                    b,
                    final(self).books()[asset as int],
                    old(self).books()[asset as int].arena().len() as int,
                ),
            forall|i: int| 0 <= i < N && i != asset ==> #[trigger] final(self).books()[i] == old(self).books()[i],
    {
        let ghost b0 = self.books();
        let mut book = self.order_books.remove(asset);
        let res = book.create_and_place_order(side, vol, trader_id, price);
        self.order_books.insert(asset, book);
        proof {
            assert(self.order_books@ =~= b0.update(asset as int, book));
        }
        match res {
            Ok(id) => Ok((asset, id)),
            Err(e) => Err(e),
        }
    }

    /// Process an instruction for one asset (see [`OrderBook::process_event`])
    pub fn process_event(&mut self, event: MarketEvent)
        requires
            old(self).wf(),
            event.asset < N,
            old(self).books()[event.asset as int].can_process(event.event),
        ensures
            final(self).wf(),
            forall|i: int| 0 <= i < N && i != event.asset ==> #[trigger] final(self).books()[i] == old(self).books()[i],
            final(self).books()[event.asset as int].arena().len() == old(self).books()[event.asset as int].arena().len(),
            processed(old(self).books()[event.asset as int], final(self).books()[event.asset as int], event.event),
    {
        let ghost b0 = self.books();
        let mut book = self.order_books.remove(event.asset);
        book.process_event(event.event);
        self.order_books.insert(event.asset, book);
        proof {
            assert(self.order_books@ =~= b0.update(event.asset as int, book));
        }
    }

    /// Place an order of an asset
    pub fn place_order(&mut self, order_id: MarketOrderId)
        requires
            old(self).wf(),
            order_id.0 < N,
            old(self).books()[order_id.0 as int].can_process(Event::New { order_id: order_id.1 }),
        ensures
            final(self).wf(),
            processed(
                old(self).books()[order_id.0 as int],
                final(self).books()[order_id.0 as int],
                Event::New { order_id: order_id.1 },
            ),
            forall|i: int| 0 <= i < N && i != order_id.0 ==> #[trigger] final(self).books()[i] == old(self).books()[i],
    {
        self.process_event(MarketEvent { asset: order_id.0, event: Event::New { order_id: order_id.1 } })
    }

    /// Cancel an order of an asset
    pub fn cancel_order(&mut self, order_id: MarketOrderId)
        requires
            old(self).wf(),
            order_id.0 < N,
            order_id.1 < old(self).books()[order_id.0 as int].arena().len(),
        ensures
            final(self).wf(),
            old(self).books()[order_id.0 as int].order_at(order_id.1 as int).status != Status::Active
                ==> final(self).books() == old(self).books(),
            old(self).books()[order_id.0 as int].order_at(order_id.1 as int).status == Status::Active
                ==> cancelled(old(self).books()[order_id.0 as int], final(self).books()[order_id.0 as int], order_id.1 as int),
            forall|i: int| 0 <= i < N && i != order_id.0 ==> #[trigger] final(self).books()[i] == old(self).books()[i],
    {
        let ghost b0 = self.books();
        let mut book = self.order_books.remove(order_id.0);
        book.cancel_order(order_id.1);
        self.order_books.insert(order_id.0, book);
        proof {
            assert(self.order_books@ =~= b0.update(order_id.0 as int, book));
        }
    }

    /// Modify an order of an asset (see [`OrderBook::modify_order`])
    pub fn modify_order(&mut self, order_id: MarketOrderId, new_price: Option<Price>, new_vol: Option<Vol>)
        requires
            old(self).wf(),
            order_id.0 < N,
            old(self).books()[order_id.0 as int].can_process(
                Event::Modify { order_id: order_id.1, new_price, new_vol },
            ),
        ensures
            final(self).wf(),
            processed(
                old(self).books()[order_id.0 as int],
                final(self).books()[order_id.0 as int],
                Event::Modify { order_id: order_id.1, new_price, new_vol },
            ),
            forall|i: int| 0 <= i < N && i != order_id.0 ==> #[trigger] final(self).books()[i] == old(self).books()[i],
    {
        self.process_event(
            MarketEvent { asset: order_id.0, event: Event::Modify { order_id: order_id.1, new_price, new_vol } },
        )
    }

    /// Checks whether an instruction can be processed
    pub fn check_event(&self, event: MarketEvent) -> (r: bool)
        requires
            self.wf(),
        ensures
            r == (event.asset < N && self.books()[event.asset as int].can_process(event.event)),
    {
        if event.asset >= self.order_books.len() {
            return false;
        }
        self.order_books[event.asset].check_event(event.event)
    }
}

} // verus!
