//! Type aliases and order data-structures
use vstd::prelude::*;

verus! {

/// Order-id
pub type OrderId = usize;

/// Order lookup key: side, side-normalised price and arrival time
pub type OrderKey = (Side, u32, u64);

/// Simulated time
pub type Nanos = u64;

/// Prices
pub type Price = u32;

/// Order/trade volumes
pub type Vol = u32;

/// Id of an agent/trader
pub type TraderId = u32;

/// Count of orders
pub type OrderCount = u32;

/// Index of an asset in a multi-asset market
pub type AssetIdx = usize;

/// Order id extended with the index of the asset it trades
pub type MarketOrderId = (AssetIdx, OrderId);

/// Largest representable price, also the price of a buy market-order
pub const MAX_PRICE: Price = 0xffff_ffff;

/// Sentinel end-time of an order that has not reached a terminal state
pub const MAX_NANOS: Nanos = 0xffff_ffff_ffff_ffff;

/// Market side
#[derive(Clone, Copy, Debug, PartialEq, Eq, Structural)]
pub enum Side {
    Bid,
    Ask,
}

/// The other side of the market
pub open spec fn opposite(side: Side) -> Side {
    match side {
        Side::Bid => Side::Ask,
        Side::Ask => Side::Bid,
    }
}

impl Side {
    /// The other side of the market
    pub fn opposite(self) -> (r: Side)
        ensures
            r == opposite(self),
    {
        match self {
            Side::Bid => Side::Ask,
            Side::Ask => Side::Bid,
        }
    }
}

impl From<bool> for Side {
    /// Side of a flag, `true` is the bid side
    fn from(side: bool) -> (r: Side) {
        if side {
            Side::Bid
        } else {
            Side::Ask
        }
    }
}

impl vstd::std_specs::convert::FromSpecImpl<bool> for Side {
    open spec fn obeys_from_spec() -> bool {
        true
    }

    open spec fn from_spec(side: bool) -> Side {
        if side {
            Side::Bid
        } else {
            Side::Ask
        }
    }
}

impl From<Side> for bool {
    /// Flag of a side, `true` is the bid side
    fn from(side: Side) -> (r: bool) {
        match side {
            Side::Bid => true,
            Side::Ask => false,
        }
    }
}

impl vstd::std_specs::convert::FromSpecImpl<Side> for bool {
    open spec fn obeys_from_spec() -> bool {
        true
    }

    open spec fn from_spec(side: Side) -> bool {
        side == Side::Bid
    }
}

/// Order status
#[derive(Clone, Copy, Debug, PartialEq, Eq, Structural)]
pub enum Status {
    /// Newly created, not placed
    New,
    /// Active (i.e. on the market)
    Active,
    /// Filled
    Filled,
    /// Cancelled
    Cancelled,
    /// Rejected, e.g. a market order
    /// placed in a no-trading period
    Rejected,
}

/// Numeric code of a status
pub open spec fn status_code(s: Status) -> u8 {
    match s {
        Status::New => 0,
        Status::Active => 1,
        Status::Filled => 2,
        Status::Cancelled => 3,
        Status::Rejected => 4,
    }
}

impl From<Status> for u8 {
    /// Numeric code of a status (`New` is 0, ..., `Rejected` is 4)
    fn from(status: Status) -> (r: u8) {
        match status {
            Status::New => 0,
            Status::Active => 1,
            Status::Filled => 2,
            Status::Cancelled => 3,
            Status::Rejected => 4,
        }
    }
}

impl vstd::std_specs::convert::FromSpecImpl<Status> for u8 {
    open spec fn obeys_from_spec() -> bool {
        true
    }

    open spec fn from_spec(status: Status) -> u8 {
        status_code(status)
    }
}

/// Order data
#[derive(Clone, Copy, Debug, PartialEq, Eq, Structural)]
pub struct Order {
    /// Order side
    pub side: Side,
    /// Status of the order
    pub status: Status,
    /// Arrival time of the order
    pub arr_time: Nanos,
    /// End time of the order (filled,
    /// cancelled etc.)
    pub end_time: Nanos,
    /// Current volume of the order
    pub vol: Vol,
    /// Original volume when the
    /// order was placed
    pub start_vol: Vol,
    /// Price of the order
    pub price: Price,
    /// Id of the trader/agent who
    /// placed the order
    pub trader_id: TraderId,
    /// Id of the order
    pub order_id: OrderId,
}

/// Trade record
#[derive(Clone, Copy, Debug, PartialEq, Eq, Structural)]
pub struct Trade {
    /// Trade time
    pub t: Nanos,
    /// Trade side
    pub side: Side,
    /// trade price
    pub price: Price,
    /// Trade volume
    pub vol: Vol,
    /// Id of the aggressive order
    pub active_order_id: OrderId,
    /// Id of the passive order
    pub passive_order_id: OrderId,
}

/// A freshly created order that has not been placed
pub open spec fn new_order(
    side: Side,
    t: Nanos,
    vol: Vol,
    price: Price,
    trader_id: TraderId,
    order_id: OrderId,
) -> Order {
    Order {
        side,
        status: Status::New,
        arr_time: t,
        end_time: MAX_NANOS,
        vol,
        start_vol: vol,
        price,
        trader_id,
        order_id,
    }
}

impl Order {
    /// Initialise a buy limit-order
    pub fn buy_limit(t: Nanos, vol: Vol, price: Price, trader_id: TraderId, order_id: OrderId) -> (r:
        Order)
        ensures
            r == new_order(Side::Bid, t, vol, price, trader_id, order_id),
    {
        Order {
            side: Side::Bid,
            status: Status::New,
            arr_time: t,
            end_time: MAX_NANOS,
            vol,
            start_vol: vol,
            price,
            trader_id,
            order_id,
        }
    }

    /// Initialise a buy market-order, priced at the largest price
    pub fn buy_market(t: Nanos, vol: Vol, trader_id: TraderId, order_id: OrderId) -> (r: Order)
        ensures
            r == new_order(Side::Bid, t, vol, MAX_PRICE, trader_id, order_id),
    {
        Order {
            side: Side::Bid,
            status: Status::New,
            arr_time: t,
            end_time: MAX_NANOS,
            vol,
            start_vol: vol,
            price: MAX_PRICE,
            trader_id,
            order_id,
        }
    }

    /// Initialise a sell limit-order
    pub fn sell_limit(t: Nanos, vol: Vol, price: Price, trader_id: TraderId, order_id: OrderId) -> (r:
        Order)
        ensures
            r == new_order(Side::Ask, t, vol, price, trader_id, order_id),
    {
        Order {
            side: Side::Ask,
            status: Status::New,
            arr_time: t,
            end_time: MAX_NANOS,
            vol,
            start_vol: vol,
            price,
            trader_id,
            order_id,
        }
    }

    /// Initialise a sell market-order, priced at zero
    pub fn sell_market(t: Nanos, vol: Vol, trader_id: TraderId, order_id: OrderId) -> (r: Order)
        ensures
            r == new_order(Side::Ask, t, vol, 0, trader_id, order_id),
    {
        Order {
            side: Side::Ask,
            status: Status::New,
            arr_time: t,
            end_time: MAX_NANOS,
            vol,
            start_vol: vol,
            price: 0,
            trader_id,
            order_id,
        }
    }
}

/// Order/transaction instruction
#[derive(Clone, Copy, Debug, PartialEq, Eq, Structural)]
pub enum Event {
    /// Place an order on the market
    New {
        /// Id of the order to place
        order_id: OrderId,
    },
    /// Cancel an order
    Cancellation {
        /// Id of the order to cancel
        order_id: OrderId,
    },
    /// Modify an order
    Modify {
        /// Id of the order to modify
        order_id: OrderId,
        /// New price of the order
        new_price: Option<Price>,
        /// New volume of the order
        new_vol: Option<Vol>,
    },
}

impl Event {
    /// Id of the order an instruction applies to
    pub open spec fn target(self) -> OrderId {
        match self {
            Event::New { order_id } => order_id,
            Event::Cancellation { order_id } => order_id,
            Event::Modify { order_id, .. } => order_id,
        }
    }
}

/// Order instruction for one asset of a multi-asset market
#[derive(Clone, Copy, Debug, PartialEq, Eq, Structural)]
pub struct MarketEvent {
    /// Index of the asset
    pub asset: AssetIdx,
    /// Order instruction
    pub event: Event,
}

/// Level 1 market data
#[derive(Clone, Copy, Debug, PartialEq, Eq, Structural)]
pub struct Level1Data {
    /// Bid touch price
    pub bid_price: Price,
    /// Ask touch price
    pub ask_price: Price,
    /// Bid total volume
    pub bid_vol: Vol,
    /// Ask total volume
    pub ask_vol: Vol,
    /// Bid touch volume
    pub bid_touch_vol: Vol,
    /// Ask touch volume
    pub ask_touch_vol: Vol,
    /// Number of bid orders at touch
    pub bid_touch_orders: OrderCount,
    /// Number of ask orders at touch
    pub ask_touch_orders: OrderCount,
}

/// Level 2 market data, with `N` price levels per side
#[derive(Clone, Debug)]
pub struct Level2Data<const N: usize> {
    /// Bid touch price
    pub bid_price: Price,
    /// Ask touch price
    pub ask_price: Price,
    /// Bid total volume
    pub bid_vol: Vol,
    /// Ask total volume
    pub ask_vol: Vol,
    /// Volume and number of bid orders at price-levels
    pub bid_price_levels: Vec<(Vol, OrderCount)>,
    /// Volume and number of ask orders at price-levels
    pub ask_price_levels: Vec<(Vol, OrderCount)>,
}

} // verus!
