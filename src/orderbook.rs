//! Order book: matching engine with order and trade history
//!
//! Orders are created in an append-only arena and identified by their
//! index in it. Placed orders are matched against the opposite side by
//! price-time priority; what is left of a limit order rests on its side.
use vstd::prelude::*;

use crate::side::{
    get_ask_key, get_bid_key, key_le, lemma_count_le_len, lemma_count_same_entries,
    price_key, AskSide, BidSide, OrderBookSide, QueueEntry, SideFunctionality,
};
use crate::types::{
    new_order, opposite, Event, Level1Data, Level2Data, MAX_NANOS, MAX_PRICE, Nanos, Order, OrderCount,
    OrderId, OrderKey, Price, Side, Status, Trade, TraderId, Vol,
};

verus! {

/// Order data combined with key
///
/// Orders are linked with a key used to find them in the
/// price-time priority queue of their side.
#[derive(Clone, Copy, Debug)]
pub struct OrderEntry {
    /// Order data
    pub order: Order,
    /// Key associated with order
    pub key: OrderKey,
}

/// Order rejection errors
#[derive(Clone, Copy, Debug, PartialEq, Eq, Structural)]
pub enum OrderError {
    /// Price not a positive multiple of market tick-size
    PriceError { price: Price, tick_size: Price },
}

/// Persisted state of an order book
///
/// The side indices are not part of it: they are rebuilt from the
/// orders that are active.
pub struct OrderBookState {
    /// Simulated time
    pub t: Nanos,
    /// Market tick size
    pub tick_size: Price,
    /// Cumulative trade volume
    pub trade_vol: Vol,
    /// Orders created, indexed by id
    pub orders: Vec<OrderEntry>,
    /// History of trades
    pub trades: Vec<Trade>,
    /// Flag if `true` placed orders will be matched
    pub trading: bool,
}

/// A tick size and a list of orders that a book can be rebuilt from
pub open spec fn snapshot_ok(tick_size: Price, orders: Seq<OrderEntry>) -> bool {
    &&& tick_size > 0
    &&& orders.len() <= OrderCount::MAX
    &&& forall|i: int| 0 <= i < orders.len() ==> entry_wf(#[trigger] orders[i], i)
    &&& resting_vol(orders, Side::Bid) <= Vol::MAX
    &&& resting_vol(orders, Side::Ask) <= Vol::MAX
}

/// Checks that an entry is consistent at index `i`
fn entry_ok(e: &OrderEntry, i: usize) -> (r: bool)
    ensures
        r == entry_wf(*e, i as int),
{
    let pk = match e.order.side {
        Side::Bid => MAX_PRICE - e.order.price,
        Side::Ask => e.order.price,
    };
    let active = e.order.status == Status::Active;
    let live = active || e.order.status == Status::New;
    e.order.order_id == i && e.key.0 == e.order.side && e.key.1 == pk && (!active || e.key.2
        == e.order.arr_time) && (!live || e.order.end_time == MAX_NANOS) && (e.order.status
        != Status::New || e.order.vol == e.order.start_vol)
}

/// Checks that every entry is consistent at its index
fn entries_ok(orders: &Vec<OrderEntry>) -> (r: bool)
    ensures
        r == forall|i: int| 0 <= i < orders@.len() ==> entry_wf(#[trigger] orders@[i], i),
{
    let mut i: usize = 0;
    while i < orders.len()
        invariant
            0 <= i <= orders@.len(),
            forall|k: int| 0 <= k < i ==> entry_wf(#[trigger] orders@[k], k),
        decreases orders@.len() - i,
    {
        if !entry_ok(&orders[i], i) {
            return false;
        }
        i = i + 1;
    }
    true
}

/// Rebuild the index of one side from the orders active on it
///
/// Fails when the volume resting on the side overflows a volume.
fn rebuild_side(orders: &Vec<OrderEntry>, side: Side) -> (r: Option<OrderBookSide>)
    requires
        orders@.len() <= OrderCount::MAX,
        forall|i: int| 0 <= i < orders@.len() ==> entry_wf(#[trigger] orders@[i], i),
    ensures
        r.is_some() <==> resting_vol(orders@, side) <= Vol::MAX,
        r.is_some() ==> side_wf(orders@, side, r.unwrap()),
{
    let ghost a = orders@;
    let mut sd = OrderBookSide::new();
    let mut i: usize = 0;
    proof {
        assert(a.take(0) =~= Seq::<OrderEntry>::empty());
        assert forall|pk: Price| #[trigger] sd.level_vol(pk) == resting_vol_at(a.take(0), side, pk) by {}
    }
    while i < orders.len()
        invariant
            0 <= i <= a.len(),
            a == orders@,
            a.len() <= OrderCount::MAX,
            side_wf(a.take(i as int), side, sd),
        decreases a.len() - i,
    {
        let ghost before = a.take(i as int);
        let ghost upto = a.take(i as int + 1);
        let e = orders[i];
        proof {
            assert(upto.drop_last() =~= before);
            assert(upto.last() == e);
            lemma_rest_push(before, e, side, None, false);
            assert(before.push(e) =~= upto);
        }
        if e.order.status == Status::Active && e.key.0 == side {
            let total = sd.vol();
            let level = sd.vol_and_orders_at_price(e.key.1);
            proof {
                lemma_rest_level_le_total(before, side, e.key.1);
                lemma_count_le_len(sd.queue(), e.key.1);
                lemma_rest_count_le_len(before, side);
            }
            if total as u64 + e.order.vol as u64 > Vol::MAX as u64 {
                proof {
                    lemma_rest_prefix_le(a, i as int + 1, side, None, false);
                }
                return None;
            }
            proof {
                assert(!sd.queue().contains((e.key.1, e.key.2, i))) by {
                    if sd.queue().contains((e.key.1, e.key.2, i)) {
                        assert(i < before.len());
                    }
                }
            }
            sd.insert_order(e.key, i, e.order.vol);
            proof {
                assert forall|q: QueueEntry| #[trigger] sd.queue().contains(q) implies q.2 < upto.len()
                    && resting(upto[q.2 as int], side) && upto[q.2 as int].key == (side, q.0, q.1) by {
                    if q != (e.key.1, e.key.2, i) {
                        assert(upto[q.2 as int] == before[q.2 as int]);
                    }
                }
                assert forall|j: int| 0 <= j < upto.len() && resting(#[trigger] upto[j], side) implies sd.queue().contains(
                    (upto[j].key.1, upto[j].key.2, j as usize),
                ) by {
                    if j < i {
                        assert(upto[j] == before[j]);
                    }
                }
                lemma_rest_push(before, e, side, None, true);
                assert forall|pk: Price| #[trigger] sd.level_vol(pk) == resting_vol_at(upto, side, pk) by {
                    lemma_rest_push(before, e, side, Some(pk), false);
                }
            }
        } else {
            proof {
                let s0 = sd;
                lemma_rest_push(before, e, side, None, true);
                assert forall|q: QueueEntry| #[trigger] sd.queue().contains(q) implies q.2 < upto.len()
                    && resting(upto[q.2 as int], side) && upto[q.2 as int].key == (side, q.0, q.1) by {
                    assert(upto[q.2 as int] == before[q.2 as int]);
                }
                assert forall|j: int| 0 <= j < upto.len() && resting(#[trigger] upto[j], side) implies sd.queue().contains(
                    (upto[j].key.1, upto[j].key.2, j as usize),
                ) by {
                    assert(upto[j] == before[j]);
                }
                assert forall|pk: Price| #[trigger] sd.level_vol(pk) == resting_vol_at(upto, side, pk) by {
                    lemma_rest_push(before, e, side, Some(pk), false);
                }
            }
        }
        i = i + 1;
    }
    proof {
        assert(a.take(a.len() as int) =~= a);
        sd.lemma_total_bound();
    }
    Some(sd)
}

/// An order resting on a side of the book
pub open spec fn resting(e: OrderEntry, side: Side) -> bool {
    e.order.status == Status::Active && e.key.0 == side
}

/// Contribution of an entry to a resting aggregate: its volume, or 1 when
/// counting, if it rests on the side (at price key `pk` when one is given)
pub open spec fn rest_term(e: OrderEntry, side: Side, pk: Option<Price>, counting: bool) -> int {
    if resting(e, side) && match pk {
        Some(p) => e.key.1 == p,
        None => true,
    } {
        if counting {
            1
        } else {
            e.order.vol as int
        }
    } else {
        0
    }
}

/// Aggregate over the orders of an arena resting on a side
pub open spec fn rest_sum(s: Seq<OrderEntry>, side: Side, pk: Option<Price>, counting: bool) -> int
    decreases s.len(),
{
    if s.len() == 0 {
        0
    } else {
        rest_sum(s.drop_last(), side, pk, counting) + rest_term(s.last(), side, pk, counting)
    }
}

/// Total volume of the orders resting on a side
pub open spec fn resting_vol(s: Seq<OrderEntry>, side: Side) -> int {
    rest_sum(s, side, None, false)
}

/// Volume of the orders resting on a side at a price key
pub open spec fn resting_vol_at(s: Seq<OrderEntry>, side: Side, pk: Price) -> int {
    rest_sum(s, side, Some(pk), false)
}

/// Number of orders resting on a side
pub open spec fn resting_count(s: Seq<OrderEntry>, side: Side) -> int {
    rest_sum(s, side, None, true)
}

/// Aggregates after replacing one entry
pub proof fn lemma_rest_update(
    s: Seq<OrderEntry>,
    i: int,
    x: OrderEntry,
    side: Side,
    pk: Option<Price>,
    counting: bool,
)
    requires
        0 <= i < s.len(),
    ensures
        rest_sum(s.update(i, x), side, pk, counting) == rest_sum(s, side, pk, counting) - rest_term(
            s[i],
            side,
            pk,
            counting,
        ) + rest_term(x, side, pk, counting),
    decreases s.len(),
{
    if i == s.len() - 1 {
        assert(s.update(i, x).drop_last() =~= s.drop_last());
    } else {
        assert(s.update(i, x).drop_last() =~= s.drop_last().update(i, x));
        lemma_rest_update(s.drop_last(), i, x, side, pk, counting);
    }
}

/// Aggregates after appending one entry
pub proof fn lemma_rest_push(s: Seq<OrderEntry>, x: OrderEntry, side: Side, pk: Option<Price>, counting: bool)
    ensures
        rest_sum(s.push(x), side, pk, counting) == rest_sum(s, side, pk, counting) + rest_term(
            x,
            side,
            pk,
            counting,
        ),
{
    assert(s.push(x).drop_last() =~= s);
}

/// An aggregate bounds each of its terms
pub proof fn lemma_rest_ge(s: Seq<OrderEntry>, i: int, side: Side, pk: Option<Price>, counting: bool)
    requires
        0 <= i < s.len(),
    ensures
        rest_sum(s, side, pk, counting) >= rest_term(s[i], side, pk, counting),
        rest_sum(s, side, pk, counting) >= 0,
    decreases s.len(),
{
    lemma_rest_nonneg(s.drop_last(), side, pk, counting);
    if i < s.len() - 1 {
        lemma_rest_ge(s.drop_last(), i, side, pk, counting);
    }
}

/// Aggregates are never negative
pub proof fn lemma_rest_nonneg(s: Seq<OrderEntry>, side: Side, pk: Option<Price>, counting: bool)
    ensures
        rest_sum(s, side, pk, counting) >= 0,
    decreases s.len(),
{
    if s.len() > 0 {
        lemma_rest_nonneg(s.drop_last(), side, pk, counting);
    }
}

/// The volume at one price key is at most the volume of the side
pub proof fn lemma_rest_level_le_total(s: Seq<OrderEntry>, side: Side, pk: Price)
    ensures
        resting_vol_at(s, side, pk) <= resting_vol(s, side),
    decreases s.len(),
{
    if s.len() > 0 {
        lemma_rest_level_le_total(s.drop_last(), side, pk);
    }
}

/// At most every order of the arena rests
pub proof fn lemma_rest_count_le_len(s: Seq<OrderEntry>, side: Side)
    ensures
        resting_count(s, side) <= s.len(),
    decreases s.len(),
{
    if s.len() > 0 {
        lemma_rest_count_le_len(s.drop_last(), side);
    }
}

/// An aggregate without contributing entries is zero
pub proof fn lemma_rest_zero(s: Seq<OrderEntry>, side: Side, pk: Option<Price>, counting: bool)
    requires
        forall|j: int| 0 <= j < s.len() ==> rest_term(#[trigger] s[j], side, pk, counting) == 0,
    ensures
        rest_sum(s, side, pk, counting) == 0,
    decreases s.len(),
{
    if s.len() > 0 {
        assert forall|j: int| 0 <= j < s.drop_last().len() implies rest_term(
            #[trigger] s.drop_last()[j],
            side,
            pk,
            counting,
        ) == 0 by {
            assert(s.drop_last()[j] == s[j]);
        }
        lemma_rest_zero(s.drop_last(), side, pk, counting);
        assert(rest_term(s[s.len() - 1], side, pk, counting) == 0);
    }
}

/// Consistency of an arena entry stored at index `i`
pub open spec fn entry_wf(e: OrderEntry, i: int) -> bool {
    &&& e.order.order_id == i
    &&& e.key.0 == e.order.side
    &&& e.key.1 == price_key(e.order.side, e.order.price)
    &&& e.order.status == Status::Active ==> e.key.2 == e.order.arr_time
    &&& (e.order.status == Status::New || e.order.status == Status::Active) ==> e.order.end_time
        == MAX_NANOS
    &&& e.order.status == Status::New ==> e.order.vol == e.order.start_vol
}

/// A side index agrees with the arena: its queue holds exactly the resting
/// orders under their keys, and its aggregates are those of the resting orders
pub open spec fn side_wf(arena: Seq<OrderEntry>, side: Side, sd: OrderBookSide) -> bool {
    &&& sd.wf()
    &&& forall|e: QueueEntry|
        #[trigger] sd.queue().contains(e) ==> e.2 < arena.len() && resting(arena[e.2 as int], side)
            && arena[e.2 as int].key == (side, e.0, e.1)
    &&& forall|i: int|
        0 <= i < arena.len() && resting(#[trigger] arena[i], side) ==> sd.queue().contains(
            (arena[i].key.1, arena[i].key.2, i as usize),
        )
    &&& sd.total() == resting_vol(arena, side)
    &&& sd.queue().len() == resting_count(arena, side)
    &&& forall|pk: Price|
        #![trigger sd.level_vol(pk)]
        #![trigger resting_vol_at(arena, side, pk)]
        sd.level_vol(pk) == resting_vol_at(arena, side, pk)
}

/// Replacing an entry that does not rest on a side by another one that
/// does not rest there keeps the side index in agreement with the arena
pub proof fn lemma_side_wf_update_quiet(a: Seq<OrderEntry>, i: int, x: OrderEntry, side: Side, sd: OrderBookSide)
    requires
        side_wf(a, side, sd),
        0 <= i < a.len(),
        !resting(a[i], side),
        !resting(x, side),
    ensures
        side_wf(a.update(i, x), side, sd),
{
    let a2 = a.update(i, x);
    lemma_rest_update(a, i, x, side, None, false);
    lemma_rest_update(a, i, x, side, None, true);
    assert forall|p: Price| #[trigger] resting_vol_at(a2, side, p) == resting_vol_at(a, side, p) by {
        lemma_rest_update(a, i, x, side, Some(p), false);
    }
    assert forall|e: QueueEntry| #[trigger] sd.queue().contains(e) implies e.2 < a2.len()
        && resting(a2[e.2 as int], side) && a2[e.2 as int].key == (side, e.0, e.1) by {
        assert(resting(a[e.2 as int], side));
    }
    assert forall|j: int| 0 <= j < a2.len() && resting(#[trigger] a2[j], side) implies sd.queue().contains(
        (a2[j].key.1, a2[j].key.2, j as usize),
    ) by {
        assert(a2[j] == a[j]);
    }
    assert forall|p: Price| #[trigger] sd.level_vol(p) == resting_vol_at(a2, side, p) by {
        assert(sd.level_vol(p) == resting_vol_at(a, side, p));
    }
}

/// Taking a resting order off a side (as the side index does on removal of
/// its entry) keeps the side index in agreement with the arena
pub proof fn lemma_side_wf_remove(
    a: Seq<OrderEntry>,
    i: int,
    x: OrderEntry,
    side: Side,
    sd1: OrderBookSide,
    sd2: OrderBookSide,
)
    requires
        side_wf(a, side, sd1),
        0 <= i < a.len() <= usize::MAX,
        resting(a[i], side),
        !resting(x, side),
        sd2.wf(),
        forall|e: QueueEntry|
            sd2.queue().contains(e) <==> (sd1.queue().contains(e) && e != (a[i].key.1, a[i].key.2, i as usize)),
        sd2.queue().len() == sd1.queue().len() - 1,
        sd2.total() == sd1.total() - a[i].order.vol,
        sd2.has_level(a[i].key.1) == (sd1.level_count(a[i].key.1) > 1),
        sd2.has_level(a[i].key.1) ==> sd2.level_vol(a[i].key.1) == sd1.level_vol(a[i].key.1) - a[i].order.vol,
        forall|p: Price| p != a[i].key.1 ==> sd2.level_vol(p) == sd1.level_vol(p),
        forall|p: Price|
            #[trigger] sd2.level_count(p) == sd1.level_count(p) - (if p == a[i].key.1 {
                1int
            } else {
                0int
            }),
    ensures
        side_wf(a.update(i, x), side, sd2),
{
    let a2 = a.update(i, x);
    let pk = a[i].key.1;
    lemma_rest_update(a, i, x, side, None, false);
    lemma_rest_update(a, i, x, side, None, true);
    assert forall|p: Price| p != pk implies #[trigger] resting_vol_at(a2, side, p) == resting_vol_at(a, side, p) by {
        lemma_rest_update(a, i, x, side, Some(p), false);
    }
    lemma_rest_update(a, i, x, side, Some(pk), false);
    assert forall|e: QueueEntry| #[trigger] sd2.queue().contains(e) implies e.2 < a2.len()
        && resting(a2[e.2 as int], side) && a2[e.2 as int].key == (side, e.0, e.1) by {
        assert(sd1.queue().contains(e));
        if e.2 == i {
            assert(a[i].key == (side, e.0, e.1));
        }
    }
    assert forall|j: int| 0 <= j < a2.len() && resting(#[trigger] a2[j], side) implies sd2.queue().contains(
        (a2[j].key.1, a2[j].key.2, j as usize),
    ) by {
        assert(j != i);
        assert(a2[j] == a[j]);
        assert(sd1.queue().contains((a[j].key.1, a[j].key.2, j as usize)));
        assert((a[j].key.1, a[j].key.2, j as usize) != (a[i].key.1, a[i].key.2, i as usize));
    }
    if !sd2.has_level(pk) {
        assert forall|j: int| 0 <= j < a2.len() implies rest_term(#[trigger] a2[j], side, Some(pk), false) == 0 by {
            if rest_term(a2[j], side, Some(pk), false) != 0 {
                let e = (a2[j].key.1, a2[j].key.2, j as usize);
                assert(sd2.queue().contains(e));
                let k = choose|k: int| 0 <= k < sd2.queue().len() && sd2.queue()[k] == e;
                crate::side::lemma_count_positive(sd2.queue(), k);
                assert(sd2.level_count(pk) > 0);
            }
        }
        lemma_rest_zero(a2, side, Some(pk), false);
    }
    assert forall|p: Price| #[trigger] sd2.level_vol(p) == resting_vol_at(a2, side, p) by {
        if p != pk {
            assert(sd1.level_vol(p) == resting_vol_at(a, side, p));
        }
    }
}

/// Lowering the volume of a resting order in place (as the side index does
/// when volume is removed at its level) keeps the side index in agreement
pub proof fn lemma_side_wf_reduce(
    a: Seq<OrderEntry>,
    i: int,
    x: OrderEntry,
    side: Side,
    sd1: OrderBookSide,
    sd2: OrderBookSide,
)
    requires
        side_wf(a, side, sd1),
        0 <= i < a.len(),
        resting(a[i], side),
        resting(x, side),
        x.key == a[i].key,
        x.order.vol <= a[i].order.vol,
        sd2.wf(),
        sd2.queue() == sd1.queue(),
        sd2.total() == sd1.total() - (a[i].order.vol - x.order.vol),
        sd2.level_vol(a[i].key.1) == sd1.level_vol(a[i].key.1) - (a[i].order.vol - x.order.vol),
        forall|p: Price| p != a[i].key.1 ==> sd2.level_vol(p) == sd1.level_vol(p),
    ensures
        side_wf(a.update(i, x), side, sd2),
{
    let a2 = a.update(i, x);
    let pk = a[i].key.1;
    lemma_rest_update(a, i, x, side, None, false);
    lemma_rest_update(a, i, x, side, None, true);
    assert forall|p: Price| p != pk implies #[trigger] resting_vol_at(a2, side, p) == resting_vol_at(a, side, p) by {
        lemma_rest_update(a, i, x, side, Some(p), false);
    }
    lemma_rest_update(a, i, x, side, Some(pk), false);
    assert forall|e: QueueEntry| #[trigger] sd2.queue().contains(e) implies e.2 < a2.len()
        && resting(a2[e.2 as int], side) && a2[e.2 as int].key == (side, e.0, e.1) by {
        assert(sd1.queue().contains(e));
    }
    assert forall|j: int| 0 <= j < a2.len() && resting(#[trigger] a2[j], side) implies sd2.queue().contains(
        (a2[j].key.1, a2[j].key.2, j as usize),
    ) by {
        assert(resting(a[j], side));
    }
    assert forall|p: Price| #[trigger] sd2.level_vol(p) == resting_vol_at(a2, side, p) by {
        assert(sd1.level_vol(p) == resting_vol_at(a, side, p));
    }
}

/// No two orders resting on a side share a price key and an arrival time
pub open spec fn distinct_keys(a: Seq<OrderEntry>, side: Side) -> bool {
    forall|i: int, j: int|
        0 <= i < a.len() && 0 <= j < a.len() && i != j && resting(#[trigger] a[i], side) && resting(
            #[trigger] a[j],
            side,
        ) ==> a[i].key.1 != a[j].key.1 || a[i].key.2 != a[j].key.2
}

/// Two side indices that agree with one arena have the same best price key,
/// total volume, and volume and order count at every price key; without
/// ties in price key and arrival time they have the same best order
pub proof fn lemma_side_determined(a: Seq<OrderEntry>, side: Side, s1: OrderBookSide, s2: OrderBookSide)
    requires
        side_wf(a, side, s1),
        side_wf(a, side, s2),
    ensures
        s1.best_key() == s2.best_key(),
        s1.total() == s2.total(),
        s1.queue().len() == s2.queue().len(),
        forall|pk: Price| #[trigger] s1.level_vol(pk) == s2.level_vol(pk),
        forall|pk: Price| #[trigger] s1.level_count(pk) == s2.level_count(pk),
        distinct_keys(a, side) ==> s1.queue().len() == 0 || s1.queue()[0] == s2.queue()[0],
{
    let q1 = s1.queue();
    let q2 = s2.queue();
    assert forall|e: QueueEntry| q1.contains(e) <==> q2.contains(e) by {
        if q1.contains(e) {
            assert(resting(a[e.2 as int], side));
            assert(q2.contains((a[e.2 as int].key.1, a[e.2 as int].key.2, e.2)));
        }
        if q2.contains(e) {
            assert(resting(a[e.2 as int], side));
            assert(q1.contains((a[e.2 as int].key.1, a[e.2 as int].key.2, e.2)));
        }
    }
    if q1.len() > 0 {
        assert(q1.contains(q1[0]));
        assert(q2.contains(q2[0]));
        let k2 = choose|k: int| 0 <= k < q2.len() && q2[k] == q1[0];
        let k1 = choose|k: int| 0 <= k < q1.len() && q1[k] == q2[0];
        if k2 > 0 {
            assert(key_le(q2[0].0, q2[0].1, q2[k2].0, q2[k2].1));
        }
        if k1 > 0 {
            assert(key_le(q1[0].0, q1[0].1, q1[k1].0, q1[k1].1));
        }
        if distinct_keys(a, side) {
            let i1 = q1[0].2 as int;
            let i2 = q2[0].2 as int;
            assert(resting(a[i1], side) && resting(a[i2], side));
            assert(a[i1].key == (side, q1[0].0, q1[0].1));
            assert(a[i2].key == (side, q2[0].0, q2[0].1));
            if i1 != i2 {
                assert(a[i1].key.1 != a[i2].key.1 || a[i1].key.2 != a[i2].key.2);
            }
        }
    }
    s1.lemma_queue_distinct();
    s2.lemma_queue_distinct();
    assert forall|pk: Price| #[trigger] s1.level_count(pk) == s2.level_count(pk) by {
        lemma_count_same_entries(q1, q2, pk);
    }
    assert forall|pk: Price| #[trigger] s1.level_vol(pk) == s2.level_vol(pk) by {
        assert(s1.level_vol(pk) == resting_vol_at(a, side, pk));
        assert(s2.level_vol(pk) == resting_vol_at(a, side, pk));
    }
}

/// Prefix aggregates are bounded by the whole aggregate
pub proof fn lemma_rest_prefix_le(s: Seq<OrderEntry>, i: int, side: Side, pk: Option<Price>, counting: bool)
    requires
        0 <= i <= s.len(),
    ensures
        rest_sum(s.take(i), side, pk, counting) <= rest_sum(s, side, pk, counting),
    decreases s.len() - i,
{
    if i < s.len() {
        lemma_rest_prefix_le(s, i + 1, side, pk, counting);
        assert(s.take(i + 1).drop_last() =~= s.take(i));
        lemma_rest_nonneg(s.take(i), side, pk, counting);
    } else {
        assert(s.take(i) =~= s);
    }
}

/// No bid of `bids` rests at or above the best ask of `asks`
pub open spec fn sides_uncrossed(bids: OrderBookSide, asks: OrderBookSide) -> bool {
    bids.queue().len() == 0 || asks.queue().len() == 0 || MAX_PRICE - bids.best_key() < asks.best_key()
}

/// Matching only takes orders off the opposite side, and what is left of
/// an order that rests no longer crosses it, so an uncrossed book stays
/// uncrossed
proof fn lemma_submit_uncrossed(
    side: Side,
    price: Price,
    x: QueueEntry,
    so: OrderBookSide,
    sw: OrderBookSide,
    fo: OrderBookSide,
    fw: OrderBookSide,
)
    requires
        so.wf(),
        sw.wf(),
        fo.wf(),
        fw.wf(),
        x.0 == price_key(side, price),
        side == Side::Bid ==> sides_uncrossed(sw, so),
        side == Side::Ask ==> sides_uncrossed(so, sw),
        forall|e: QueueEntry| #[trigger] fo.queue().contains(e) ==> so.queue().contains(e),
        forall|e: QueueEntry| #[trigger] fw.queue().contains(e) ==> sw.queue().contains(e) || e == x,
        fw.queue().contains(x) ==> fo.queue().len() == 0 || !crosses(side, price, fo.best_key()),
    ensures
        side == Side::Bid ==> sides_uncrossed(fw, fo),
        side == Side::Ask ==> sides_uncrossed(fo, fw),
{
    if fo.queue().len() > 0 && fw.queue().len() > 0 {
        assert(fo.queue().contains(fo.queue()[0]));
        assert(fw.queue().contains(fw.queue()[0]));
        so.lemma_best_key_le(fo.queue()[0]);
        if fw.queue()[0] != x {
            sw.lemma_best_key_le(fw.queue()[0]);
        } else {
            fw.lemma_best_key_le(x);
        }
    }
}

/// Price `i` ticks away from a touch price, walking one tick at a time and wrapping
/// around the 32-bit price range (downwards for bids, upwards for asks)
pub open spec fn tick_walk(start: Price, tick: Price, i: nat, up: bool) -> Price
    decreases i,
{
    if i == 0 {
        start
    } else {
        let p = tick_walk(start, tick, (i - 1) as nat, up);
        if up {
            if p + tick > MAX_PRICE {
                (p + tick - 0x1_0000_0000) as u32
            } else {
                (p + tick) as u32
            }
        } else {
            if p - tick < 0 {
                (p - tick + 0x1_0000_0000) as u32
            } else {
                (p - tick) as u32
            }
        }
    }
}

/// Whether an order priced at `price` on `side` can trade against the
/// opposite side's best price key
pub open spec fn crosses(side: Side, price: Price, opposite_best_key: Price) -> bool {
    match side {
        Side::Bid => price >= opposite_best_key,
        Side::Ask => price <= MAX_PRICE - opposite_best_key,
    }
}

/// Order book with order and trade history
///
/// `N` is the number of price levels reported by level 2 data.
pub struct OrderBook<const N: usize> {
    /// Simulated time
    t: Nanos,
    /// Market tick size
    tick_size: Price,
    /// Cumulative trade volume
    trade_vol: Vol,
    /// Ask side of the book data structure
    ask_side: AskSide,
    /// Bid side of the book data structure
    bid_side: BidSide,
    /// Orders created on the market, once created orders
    /// persist in this vector with their state updated in-place
    orders: Vec<OrderEntry>,
    /// History of trades
    trades: Vec<Trade>,
    /// Flag if `true` placed orders will be matched
    trading: bool,
}

impl<const N: usize> OrderBook<N> {
    /// Simulated time
    pub closed spec fn time(self) -> Nanos {
        self.t
    }

    /// Tick size
    pub closed spec fn tick(self) -> Price {
        self.tick_size
    }

    /// Cumulative trade volume since the last reset
    pub closed spec fn traded(self) -> Vol {
        self.trade_vol
    }

    /// Whether placed orders are matched
    pub closed spec fn is_trading(self) -> bool {
        self.trading
    }

    /// Every order created, indexed by id
    pub closed spec fn arena(self) -> Seq<OrderEntry> {
        self.orders@
    }

    /// Every trade executed, oldest first
    pub closed spec fn trade_log(self) -> Seq<Trade> {
        self.trades@
    }

    /// Bid side index
    pub closed spec fn bids(self) -> OrderBookSide {
        self.bid_side.inner()
    }

    /// Ask side index
    pub closed spec fn asks(self) -> OrderBookSide {
        self.ask_side.inner()
    }

    /// Side index of a side
    pub open spec fn side_index(self, side: Side) -> OrderBookSide {
        match side {
            Side::Bid => self.bids(),
            Side::Ask => self.asks(),
        }
    }

    /// Order data stored at an id
    pub open spec fn order_at(self, id: int) -> Order {
        self.arena()[id].order
    }

    /// Best bid price, 0 when there are no bids
    pub open spec fn best_bid(self) -> Price {
        (MAX_PRICE - self.bids().best_key()) as u32
    }

    /// Best ask price, the largest price when there are no asks
    pub open spec fn best_ask(self) -> Price {
        self.asks().best_key()
    }

    /// No bid rests at or above the best ask
    pub open spec fn uncrossed(self) -> bool {
        sides_uncrossed(self.bids(), self.asks())
    }

    /// Total volume resting on a side
    pub open spec fn side_vol(self, side: Side) -> int {
        self.side_index(side).total()
    }

    /// Same trades, side indices, tick size, time, trade volume and trading flag
    pub open spec fn same_book_but_orders(self, o: Self) -> bool {
        &&& self.trade_log() == o.trade_log()
        &&& self.bids() == o.bids()
        &&& self.asks() == o.asks()
        &&& self.tick() == o.tick()
        &&& self.time() == o.time()
        &&& self.traded() == o.traded()
        &&& self.is_trading() == o.is_trading()
    }

    /// Same orders, trades, side indices and tick size
    pub open spec fn same_book(self, o: Self) -> bool {
        &&& self.arena() == o.arena()
        &&& self.trade_log() == o.trade_log()
        &&& self.bids() == o.bids()
        &&& self.asks() == o.asks()
        &&& self.tick() == o.tick()
    }

    /// Book invariant
    pub open spec fn wf(self) -> bool {
        &&& self.tick() > 0
        &&& self.arena().len() <= usize::MAX
        &&& forall|i: int| 0 <= i < self.arena().len() ==> entry_wf(#[trigger] self.arena()[i], i)
        &&& side_wf(self.arena(), Side::Bid, self.bids())
        &&& side_wf(self.arena(), Side::Ask, self.asks())
    }

    /// Initialise a new empty order book
    ///
    /// - `start_time` - Simulated time to assign to the order book
    /// - `tick_size` - Tick size
    /// - `trading` - Flag to indicate if trades will be executed
    pub fn new(start_time: Nanos, tick_size: Price, trading: bool) -> (r: Self)
        requires
            tick_size >= 1,
        ensures
            r.wf(),
            r.time() == start_time,
            r.tick() == tick_size,
            r.is_trading() == trading,
            r.traded() == 0,
            r.arena().len() == 0,
            r.trade_log().len() == 0,
            r.bids().queue().len() == 0,
            r.asks().queue().len() == 0,
    {
        let r = OrderBook {
            t: start_time,
            tick_size,
            trade_vol: 0,
            ask_side: AskSide::new(),
            bid_side: BidSide::new(),
            orders: Vec::new(),
            trades: Vec::new(),
            trading,
        };
        proof {
            assert forall|pk: Price| r.bids().level_vol(pk) == 0 by {}
            assert forall|pk: Price| r.asks().level_vol(pk) == 0 by {}
        }
        r
    }

    /// Get the order book time
    pub fn get_time(&self) -> (r: Nanos)
        ensures
            r == self.time(),
    {
        self.t
    }

    /// Manually set the time of the order book
    pub fn set_time(&mut self, t: Nanos)
        ensures
            final(self).same_book(*old(self)),
            final(self).time() == t,
            final(self).traded() == old(self).traded(),
            final(self).is_trading() == old(self).is_trading(),
    {
        self.t = t;
    }

    /// Enable trade execution
    pub fn enable_trading(&mut self)
        ensures
            final(self).same_book(*old(self)),
            final(self).time() == old(self).time(),
            final(self).traded() == old(self).traded(),
            final(self).is_trading(),
    {
        self.trading = true;
    }

    /// Disable trade execution (no un-crossing takes place)
    pub fn disable_trading(&mut self)
        ensures
            final(self).same_book(*old(self)),
            final(self).time() == old(self).time(),
            final(self).traded() == old(self).traded(),
            !final(self).is_trading(),
    {
        self.trading = false;
    }

    /// Get the current cumulative trade volume
    pub fn get_trade_vol(&self) -> (r: Vol)
        ensures
            r == self.traded(),
    {
        self.trade_vol
    }

    /// Reset cumulative trade volume to 0
    pub fn reset_trade_vol(&mut self)
        ensures
            final(self).same_book(*old(self)),
            final(self).time() == old(self).time(),
            final(self).traded() == 0,
            final(self).is_trading() == old(self).is_trading(),
    {
        self.trade_vol = 0;
    }

    /// Get the current total ask volume
    pub fn ask_vol(&self) -> (r: Vol)
        requires
            self.wf(),
        ensures
            r == self.asks().total(),
            r == resting_vol(self.arena(), Side::Ask),
    {
        self.ask_side.vol()
    }

    /// Get the current touch ask volume
    pub fn ask_best_vol(&self) -> (r: Vol)
        requires
            self.wf(),
        ensures
            r == self.asks().level_vol(self.asks().best_key()),
    {
        self.ask_side.best_vol()
    }

    /// Get the current touch ask volume and order count
    pub fn ask_best_vol_and_orders(&self) -> (r: (Vol, OrderCount))
        requires
            self.wf(),
        ensures
            r.0 == self.asks().level_vol(self.asks().best_key()),
            r.1 == self.asks().level_count(self.asks().best_key()),
    {
        self.ask_side.best_vol_and_orders()
    }

    /// Get the current total bid volume
    pub fn bid_vol(&self) -> (r: Vol)
        requires
            self.wf(),
        ensures
            r == self.bids().total(),
            r == resting_vol(self.arena(), Side::Bid),
    {
        self.bid_side.vol()
    }

    /// Get the current touch bid volume
    pub fn bid_best_vol(&self) -> (r: Vol)
        requires
            self.wf(),
        ensures
            r == self.bids().level_vol(self.bids().best_key()),
    {
        self.bid_side.best_vol()
    }

    /// Get the current touch bid volume and order count
    pub fn bid_best_vol_and_orders(&self) -> (r: (Vol, OrderCount))
        requires
            self.wf(),
        ensures
            r.0 == self.bids().level_vol(self.bids().best_key()),
            r.1 == self.bids().level_count(self.bids().best_key()),
    {
        self.bid_side.best_vol_and_orders()
    }

    /// Get current bid-ask prices
    pub fn bid_ask(&self) -> (r: (Price, Price))
        ensures
            r == (self.best_bid(), self.best_ask()),
    {
        (self.bid_side.best_price(), self.ask_side.best_price())
    }

    /// Volumes and numbers of orders at `N` price levels from the ask touch
    ///
    /// Level `i` is `i` ticks above the touch; prices wrap around, so an
    /// empty side gives zeros.
    pub fn ask_levels(&self) -> (r: Vec<(Vol, OrderCount)>)
        requires
            self.wf(),
        ensures
            r.len() == N,
            forall|i: int|
                0 <= i < N ==> #[trigger] r@[i] == (
                    self.asks().level_vol(tick_walk(self.best_ask(), self.tick(), i as nat, true)) as Vol,
                    self.asks().level_count(tick_walk(self.best_ask(), self.tick(), i as nat, true)) as OrderCount,
                ),
    {
        let start = self.ask_side.best_price();
        let mut r: Vec<(Vol, OrderCount)> = Vec::new();
        let mut p: Price = start;
        let mut i: usize = 0;
        while i < N
            invariant
                self.wf(),
                start == self.best_ask(),
                0 <= i <= N,
                r.len() == i,
                p == tick_walk(start, self.tick(), i as nat, true),
                forall|k: int|
                    0 <= k < i ==> #[trigger] r@[k] == (
                        self.asks().level_vol(tick_walk(start, self.tick(), k as nat, true)) as Vol,
                        self.asks().level_count(tick_walk(start, self.tick(), k as nat, true)) as OrderCount,
                    ),
            decreases N - i,
        {
            let lv = self.ask_side.vol_and_orders_at_price(p);
            r.push(lv);
            p = p.wrapping_add(self.tick_size);
            i = i + 1;
        }
        r
    }

    /// Volumes and numbers of orders at `N` price levels from the bid touch
    ///
    /// Level `i` is `i` ticks below the touch; prices wrap around, so an
    /// empty side gives zeros.
    pub fn bid_levels(&self) -> (r: Vec<(Vol, OrderCount)>)
        requires
            self.wf(),
        ensures
            r.len() == N,
            forall|i: int|
                0 <= i < N ==> #[trigger] r@[i] == (
                    self.bids().level_vol(price_key(Side::Bid, tick_walk(self.best_bid(), self.tick(), i as nat, false))) as Vol,
                    self.bids().level_count(price_key(Side::Bid, tick_walk(self.best_bid(), self.tick(), i as nat, false))) as OrderCount,
                ),
    {
        let start = self.bid_side.best_price();
        let mut r: Vec<(Vol, OrderCount)> = Vec::new();
        let mut p: Price = start;
        let mut i: usize = 0;
        while i < N
            invariant
                self.wf(),
                start == self.best_bid(),
                0 <= i <= N,
                r.len() == i,
                p == tick_walk(start, self.tick(), i as nat, false),
                forall|k: int|
                    0 <= k < i ==> #[trigger] r@[k] == (
                        self.bids().level_vol(price_key(Side::Bid, tick_walk(start, self.tick(), k as nat, false))) as Vol,
                        self.bids().level_count(price_key(Side::Bid, tick_walk(start, self.tick(), k as nat, false))) as OrderCount,
                    ),
            decreases N - i,
        {
            let lv = self.bid_side.vol_and_orders_at_price(p);
            r.push(lv);
            p = p.wrapping_sub(self.tick_size);
            i = i + 1;
        }
        r
    }

    /// Get current level 1 market data
    pub fn level_1_data(&self) -> (r: Level1Data)
        requires
            self.wf(),
        ensures
            r.bid_price == self.best_bid(),
            r.ask_price == self.best_ask(),
            r.bid_vol == self.bids().total(),
            r.ask_vol == self.asks().total(),
            r.bid_touch_vol == self.bids().level_vol(self.bids().best_key()),
            r.ask_touch_vol == self.asks().level_vol(self.asks().best_key()),
            r.bid_touch_orders == self.bids().level_count(self.bids().best_key()),
            r.ask_touch_orders == self.asks().level_count(self.asks().best_key()),
    {
        let (bid_price, ask_price) = self.bid_ask();
        let (bid_touch_vol, bid_touch_orders) = self.bid_best_vol_and_orders();
        let (ask_touch_vol, ask_touch_orders) = self.ask_best_vol_and_orders();
        Level1Data {
            bid_price,
            ask_price,
            bid_vol: self.bid_vol(),
            ask_vol: self.ask_vol(),
            bid_touch_vol,
            ask_touch_vol,
            bid_touch_orders,
            ask_touch_orders,
        }
    }

    /// Get current level 2 market data
    pub fn level_2_data(&self) -> (r: Level2Data<N>)
        requires
            self.wf(),
        ensures
            r.bid_price == self.best_bid(),
            r.ask_price == self.best_ask(),
            r.bid_vol == self.bids().total(),
            r.ask_vol == self.asks().total(),
            r.bid_price_levels.len() == N,
            r.ask_price_levels.len() == N,
            forall|i: int|
                0 <= i < N ==> #[trigger] r.bid_price_levels@[i] == (
                    self.bids().level_vol(price_key(Side::Bid, tick_walk(self.best_bid(), self.tick(), i as nat, false))) as Vol,
                    self.bids().level_count(price_key(Side::Bid, tick_walk(self.best_bid(), self.tick(), i as nat, false))) as OrderCount,
                ),
            forall|i: int|
                0 <= i < N ==> #[trigger] r.ask_price_levels@[i] == (
                    self.asks().level_vol(tick_walk(self.best_ask(), self.tick(), i as nat, true)) as Vol,
                    self.asks().level_count(tick_walk(self.best_ask(), self.tick(), i as nat, true)) as OrderCount,
                ),
    {
        let (bid_price, ask_price) = self.bid_ask();
        Level2Data {
            bid_price,
            ask_price,
            bid_vol: self.bid_vol(),
            ask_vol: self.ask_vol(),
            bid_price_levels: self.bid_levels(),
            ask_price_levels: self.ask_levels(),
        }
    }

    /// The bid side index
    pub fn get_bid_side(&self) -> (r: &BidSide)
        ensures
            r.inner() == self.bids(),
    {
        &self.bid_side
    }

    /// The ask side index
    pub fn get_ask_side(&self) -> (r: &AskSide)
        ensures
            r.inner() == self.asks(),
    {
        &self.ask_side
    }

    /// Get the next order-id in the sequence
    fn current_order_id(&self) -> (r: OrderId)
        ensures
            r == self.arena().len(),
    {
        self.orders.len()
    }

    /// Number of orders created so far
    pub fn n_orders(&self) -> (r: usize)
        ensures
            r == self.arena().len(),
    {
        self.orders.len()
    }

    /// Get a reference to the order data stored at the id
    pub fn order(&self, order_id: OrderId) -> (r: &Order)
        requires
            order_id < self.arena().len(),
        ensures
            *r == self.order_at(order_id as int),
    {
        &self.orders[order_id].order
    }

    /// Copies of the orders created, indexed by id
    pub fn get_orders(&self) -> (r: Vec<Order>)
        ensures
            r@.len() == self.arena().len(),
            forall|i: int| 0 <= i < r@.len() ==> #[trigger] r@[i] == self.order_at(i),
    {
        let mut r: Vec<Order> = Vec::new();
        let mut i: usize = 0;
        while i < self.orders.len()
            invariant
                0 <= i <= self.arena().len(),
                r@.len() == i,
                forall|k: int| 0 <= k < i ==> #[trigger] r@[k] == self.order_at(k),
            decreases self.arena().len() - i,
        {
            r.push(self.orders[i].order);
            i = i + 1;
        }
        r
    }

    /// Reference to trade records
    pub fn get_trades(&self) -> (r: &Vec<Trade>)
        ensures
            r@ == self.trade_log(),
    {
        &self.trades
    }

    /// Everything but the index of `side` is the same
    pub open spec fn same_but_side(self, o: Self, side: Side) -> bool {
        &&& self.arena() == o.arena()
        &&& self.trade_log() == o.trade_log()
        &&& self.side_index(opposite(side)) == o.side_index(opposite(side))
        &&& self.tick() == o.tick()
        &&& self.time() == o.time()
        &&& self.traded() == o.traded()
        &&& self.is_trading() == o.is_trading()
    }

    /// Id of the highest priority order of a side
    fn side_best_order(&self, side: Side) -> (r: Option<OrderId>)
        ensures
            r == (if self.side_index(side).queue().len() == 0 {
                None
            } else {
                Some(self.side_index(side).queue()[0].2)
            }),
    {
        match side {
            Side::Bid => self.bid_side.0.best_order_idx(),
            Side::Ask => self.ask_side.0.best_order_idx(),
        }
    }

    /// Best price key of a side
    fn side_best_key(&self, side: Side) -> (r: Price)
        ensures
            r == self.side_index(side).best_key(),
    {
        match side {
            Side::Bid => self.bid_side.0.best_price(),
            Side::Ask => self.ask_side.0.best_price(),
        }
    }

    /// Insert an order into the index of a side
    fn side_insert(&mut self, side: Side, key: OrderKey, idx: OrderId, vol: Vol)
        requires
            old(self).side_index(side).wf(),
            !old(self).side_index(side).queue().contains((key.1, key.2, idx)),
            old(self).side_index(side).total() + vol <= Vol::MAX,
            old(self).side_index(side).level_vol(key.1) + vol <= Vol::MAX,
            old(self).side_index(side).level_count(key.1) < OrderCount::MAX,
        ensures
            final(self).same_but_side(*old(self), side),
            final(self).side_index(side).wf(),
            forall|e: QueueEntry|
                final(self).side_index(side).queue().contains(e) <==> (old(self).side_index(side).queue().contains(e)
                    || e == (key.1, key.2, idx)),
            forall|k: int|
                0 <= k < old(self).side_index(side).queue().len() && key_le(
                    #[trigger] old(self).side_index(side).queue()[k].0,
                    old(self).side_index(side).queue()[k].1,
                    key.1,
                    key.2,
                ) ==> final(self).side_index(side).queue()[k] == old(self).side_index(side).queue()[k],
            final(self).side_index(side).queue().len() == old(self).side_index(side).queue().len() + 1,
            final(self).side_index(side).total() == old(self).side_index(side).total() + vol,
            final(self).side_index(side).level_vol(key.1) == old(self).side_index(side).level_vol(key.1) + vol,
            forall|pk: Price|
                pk != key.1 ==> final(self).side_index(side).level_vol(pk) == old(self).side_index(side).level_vol(pk),
    {
        match side {
            Side::Bid => self.bid_side.0.insert_order(key, idx, vol),
            Side::Ask => self.ask_side.0.insert_order(key, idx, vol),
        }
    }

    /// Remove the entry of an order from the index of a side
    fn side_remove_entry(&mut self, side: Side, key: OrderKey, idx: OrderId, vol: Vol)
        requires
            old(self).side_index(side).wf(),
            old(self).side_index(side).queue().contains((key.1, key.2, idx)),
            old(self).side_index(side).level_vol(key.1) >= vol,
            old(self).side_index(side).total() >= vol,
        ensures
            final(self).same_but_side(*old(self), side),
            final(self).side_index(side).wf(),
            forall|e: QueueEntry|
                final(self).side_index(side).queue().contains(e) <==> (old(self).side_index(side).queue().contains(e)
                    && e != (key.1, key.2, idx)),
            final(self).side_index(side).queue().len() == old(self).side_index(side).queue().len() - 1,
            final(self).side_index(side).total() == old(self).side_index(side).total() - vol,
            final(self).side_index(side).has_level(key.1) == (old(self).side_index(side).level_count(key.1) > 1),
            final(self).side_index(side).has_level(key.1) ==> final(self).side_index(side).level_vol(key.1)
                == old(self).side_index(side).level_vol(key.1) - vol,
            forall|pk: Price|
                pk != key.1 ==> final(self).side_index(side).level_vol(pk) == old(self).side_index(side).level_vol(pk),
            forall|pk: Price|
                #[trigger] final(self).side_index(side).level_count(pk) == old(self).side_index(side).level_count(pk) - (if pk
                    == key.1 {
                    1int
                } else {
                    0int
                }),
            old(self).side_index(side).queue()[0] == (key.1, key.2, idx) ==> final(self).side_index(side).queue()
                == old(self).side_index(side).queue().skip(1),
    {
        match side {
            Side::Bid => self.bid_side.0.remove_entry(key, idx, vol),
            Side::Ask => self.ask_side.0.remove_entry(key, idx, vol),
        }
    }

    /// Remove volume at a price level of a side
    fn side_remove_vol(&mut self, side: Side, pk: Price, vol: Vol)
        requires
            old(self).side_index(side).wf(),
            old(self).side_index(side).has_level(pk),
            old(self).side_index(side).level_vol(pk) >= vol,
            old(self).side_index(side).total() >= vol,
        ensures
            final(self).same_but_side(*old(self), side),
            final(self).side_index(side).wf(),
            final(self).side_index(side).queue() == old(self).side_index(side).queue(),
            final(self).side_index(side).total() == old(self).side_index(side).total() - vol,
            final(self).side_index(side).level_vol(pk) == old(self).side_index(side).level_vol(pk) - vol,
            forall|p: Price|
                p != pk ==> final(self).side_index(side).level_vol(p) == old(self).side_index(side).level_vol(p),
    {
        match side {
            Side::Bid => self.bid_side.0.remove_vol(pk, vol),
            Side::Ask => self.ask_side.0.remove_vol(pk, vol),
        }
    }

    /// Match an aggressive order against the opposite side
    ///
    /// The aggressor is not on the book while it is matched: trades are
    /// executed at the passive orders' prices, best first, until it is
    /// filled or no longer crosses the opposite touch.
    #[verifier::spinoff_prover]
    #[verifier::rlimit(80)]
    fn match_aggressor(&mut self, agg: &mut Order)
        requires
            old(self).wf(),
            old(agg).order_id < old(self).arena().len(),
            old(self).arena()[old(agg).order_id as int].order.status != Status::Active,
            old(self).traded() + old(agg).vol <= Vol::MAX,
        ensures
            final(self).wf(),
            final(self).time() == old(self).time(),
            final(self).tick() == old(self).tick(),
            final(self).is_trading() == old(self).is_trading(),
            final(self).side_index(old(agg).side) == old(self).side_index(old(agg).side),
            final(self).arena().len() == old(self).arena().len(),
            final(self).arena()[old(agg).order_id as int] == old(self).arena()[old(agg).order_id as int],
            forall|i: int|
                0 <= i < old(self).arena().len() ==> same_terms(
                    #[trigger] final(self).arena()[i].order,
                    old(self).arena()[i].order,
                ),
            same_terms(*final(agg), *old(agg)),
            final(agg).vol <= old(agg).vol,
            final(self).traded() == old(self).traded() + (old(agg).vol - final(agg).vol),
            final(agg).status == (if final(agg).vol == 0 && old(agg).vol > 0 {
                Status::Filled
            } else {
                old(agg).status
            }),
            final(agg).end_time == (if final(agg).vol == 0 && old(agg).vol > 0 {
                old(self).time()
            } else {
                old(agg).end_time
            }),
            final(agg).vol > 0 ==> final(self).side_index(opposite(old(agg).side)).queue().len() == 0
                || !crosses(old(agg).side, old(agg).price, final(self).side_index(opposite(old(agg).side)).best_key()),
            forall|e: QueueEntry|
                #[trigger] final(self).side_index(opposite(old(agg).side)).queue().contains(e) ==> old(
                    self).side_index(opposite(old(agg).side)).queue().contains(e),
            old(self).trade_log().len() <= final(self).trade_log().len(),
            final(self).trade_log().subrange(0, old(self).trade_log().len() as int) == old(self).trade_log(),
            trade_sum(final(self).trade_log().subrange(old(self).trade_log().len() as int, final(self).trade_log().len() as int))
                == old(agg).vol - final(agg).vol,
            forall|k: int|
                old(self).trade_log().len() <= k < final(self).trade_log().len() ==> trade_from(
                    #[trigger] final(self).trade_log()[k],
                    old(self).time(),
                    *old(agg),
                    old(agg).vol,
                    old(self).arena(),
                ),
            matched(
                old(self).arena(),
                old(self).side_index(opposite(old(agg).side)).queue(),
                final(self).arena(),
                final(self).trade_log(),
                old(self).trade_log().len() as int,
                old(agg).order_id as int,
                old(agg).vol,
                old(self).time(),
            ),
            final(self).side_index(opposite(old(agg).side)).total() == old(self).side_index(
                opposite(old(agg).side),
            ).total() - (old(agg).vol - final(agg).vol),
            final(agg).vol > 0 ==> final(self).side_index(opposite(old(agg).side)).queue() == old(
                self).side_index(opposite(old(agg).side)).queue().skip(
                final(self).trade_log().len() - old(self).trade_log().len(),
            ),
    {
        let side = agg.side;
        let opp = side.opposite();
        let ghost a0 = self.orders@;
        let ghost s0 = *self;
        let ghost agg0 = *agg;
        let ghost n0 = self.trades@.len();
        let ghost q0 = self.side_index(opp).queue();
        proof {
            assert(q0.skip(0) =~= q0);
            assert(self.trades@.subrange(n0 as int, n0 as int) =~= Seq::<Trade>::empty());
        }
        loop
            invariant_except_break
                self.wf(),
                self.time() == s0.time(),
                self.tick() == s0.tick(),
                self.is_trading() == s0.is_trading(),
                self.side_index(side) == s0.side_index(side),
                side == agg0.side,
                opp == opposite(side),
                forall|e: QueueEntry|
                    #[trigger] self.side_index(opp).queue().contains(e) ==> s0.side_index(opp).queue().contains(e),
                agg0.order_id < a0.len(),
                matched(a0, q0, self.arena(), self.trade_log(), n0 as int, agg0.order_id as int, agg0.vol, s0.time()),
                self.trade_log().len() - n0 <= q0.len(),
                agg.vol > 0 ==> self.side_index(opp).queue() == q0.skip(self.trade_log().len() - n0),
                forall|j: int|
                    0 <= j < a0.len() && j != agg0.order_id && #[trigger] self.arena()[j] != a0[j] && resting(
                        self.arena()[j],
                        opp,
                    ) ==> agg.vol == 0,
                self.side_index(opp).total() == s0.side_index(opp).total() - (agg0.vol - agg.vol),
                a0[agg0.order_id as int].order.status != Status::Active,
                s0.traded() + agg0.vol <= Vol::MAX,
                self.arena().len() == a0.len(),
                self.arena()[agg0.order_id as int] == a0[agg0.order_id as int],
                forall|i: int|
                    0 <= i < a0.len() ==> same_terms(#[trigger] self.arena()[i].order, a0[i].order)
                        && self.arena()[i].key == a0[i].key
                        && self.arena()[i].order.vol <= a0[i].order.vol
                        && (resting(self.arena()[i], opp) ==> resting(a0[i], opp)),
                same_terms(*agg, agg0),
                agg.vol <= agg0.vol,
                self.traded() == s0.traded() + (agg0.vol - agg.vol),
                agg.status == (if agg.vol == 0 && agg0.vol > 0 {
                    Status::Filled
                } else {
                    agg0.status
                }),
                agg.end_time == (if agg.vol == 0 && agg0.vol > 0 {
                    s0.time()
                } else {
                    agg0.end_time
                }),
                n0 <= self.trade_log().len(),
                self.trade_log().subrange(0, n0 as int) == s0.trade_log(),
                trade_sum(self.trade_log().subrange(n0 as int, self.trade_log().len() as int)) == agg0.vol - agg.vol,
                forall|k: int|
                    n0 <= k < self.trade_log().len() ==> trade_from(
                        #[trigger] self.trade_log()[k],
                        s0.time(),
                        agg0,
                        agg0.vol,
                        a0,
                    ),
            ensures
                self.wf(),
                self.time() == s0.time(),
                self.tick() == s0.tick(),
                self.is_trading() == s0.is_trading(),
                self.side_index(side) == s0.side_index(side),
                forall|e: QueueEntry|
                    #[trigger] self.side_index(opp).queue().contains(e) ==> s0.side_index(opp).queue().contains(e),
                matched(a0, q0, self.arena(), self.trade_log(), n0 as int, agg0.order_id as int, agg0.vol, s0.time()),
                self.side_index(opp).total() == s0.side_index(opp).total() - (agg0.vol - agg.vol),
                agg.vol > 0 ==> self.side_index(opp).queue() == q0.skip(self.trade_log().len() - n0),
                self.arena().len() == a0.len(),
                forall|i: int| 0 <= i < a0.len() ==> same_terms(#[trigger] self.arena()[i].order, a0[i].order),
                self.arena()[agg0.order_id as int] == a0[agg0.order_id as int],
                same_terms(*agg, agg0),
                agg.vol <= agg0.vol,
                self.traded() == s0.traded() + (agg0.vol - agg.vol),
                agg.status == (if agg.vol == 0 && agg0.vol > 0 {
                    Status::Filled
                } else {
                    agg0.status
                }),
                agg.end_time == (if agg.vol == 0 && agg0.vol > 0 {
                    s0.time()
                } else {
                    agg0.end_time
                }),
                agg.vol > 0 ==> self.side_index(opp).queue().len() == 0 || !crosses(
                    side,
                    agg.price,
                    self.side_index(opp).best_key(),
                ),
                n0 <= self.trade_log().len(),
                self.trade_log().subrange(0, n0 as int) == s0.trade_log(),
                trade_sum(self.trade_log().subrange(n0 as int, self.trade_log().len() as int)) == agg0.vol - agg.vol,
                forall|k: int|
                    n0 <= k < self.trade_log().len() ==> trade_from(
                        #[trigger] self.trade_log()[k],
                        s0.time(),
                        agg0,
                        agg0.vol,
                        a0,
                    ),
            decreases agg.vol, self.side_index(opp).queue().len(),
        {
            let best = self.side_best_key(opp);
            let crossing = match side {
                Side::Bid => agg.price >= best,
                Side::Ask => agg.price <= MAX_PRICE - best,
            };
            if !(agg.vol > 0 && crossing) {
                break;
            }
            let next = self.side_best_order(opp);
            let id = match next {
                Some(id) => id,
                None => {
                    break;
                },
            };
            let ghost a1 = self.orders@;
            let ghost s1 = *self;
            let ghost sd1 = self.side_index(opp);
            let ghost q_first = sd1.queue()[0];
            proof {
                assert(sd1.queue().contains(q_first));
            }
            let mut entry = self.orders[id];
            let key = entry.key;
            let pk = key.1;
            let trade_vol = if agg.vol < entry.order.vol {
                agg.vol
            } else {
                entry.order.vol
            };
            proof {
                assert(key == (opp, q_first.0, q_first.1));
                lemma_rest_ge(a1, id as int, opp, Some(pk), false);
                lemma_rest_ge(a1, id as int, opp, None, false);
                assert(sd1.level_vol(pk) == resting_vol_at(a1, opp, pk));
                assert(id != agg0.order_id);
                assert(q_first == q0[self.trades@.len() - n0]);
                assert(resting(a1[id as int], opp));
                if a1[id as int] != a0[id as int] {
                    assert(agg.vol == 0);
                }
                assert(entry_wf(a1[id as int], id as int));
            }
            let ghost av = agg.vol;
            agg.vol = agg.vol - trade_vol;
            entry.order.vol = entry.order.vol - trade_vol;
            let ghost tlog = self.trades@;
            self.trades.push(
                Trade {
                    t: self.t,
                    side: entry.order.side,
                    price: entry.order.price,
                    vol: trade_vol,
                    active_order_id: agg.order_id,
                    passive_order_id: entry.order.order_id,
                },
            );
            self.trade_vol = self.trade_vol + trade_vol;
            if agg.vol == 0 {
                agg.end_time = self.t;
                agg.status = Status::Filled;
            }
            proof {
                let tl = self.trades@;
                assert(tl.subrange(0, n0 as int) == tlog.subrange(0, n0 as int));
                assert(tl.subrange(n0 as int, tl.len() as int).drop_last() == tlog.subrange(n0 as int, tlog.len() as int));
                assert forall|k: int| n0 <= k < tl.len() implies trade_from(
                    #[trigger] tl[k],
                    s0.time(),
                    agg0,
                    agg0.vol,
                    a0,
                ) by {
                    if k == tl.len() - 1 {
                        assert(resting(a1[id as int], opp));
                    } else {
                        assert(tl[k] == tlog[k]);
                    }
                }
            }
            if entry.order.vol == 0 {
                entry.order.end_time = self.t;
                entry.order.status = Status::Filled;
                self.orders.set(id, entry);
                let ghost a2 = self.orders@;
                proof {
                    assert(a2 == a1.update(id as int, entry));
                    lemma_rest_update(a1, id as int, entry, opp, None, false);
                    lemma_rest_update(a1, id as int, entry, opp, None, true);
                    lemma_rest_update(a1, id as int, entry, side, None, false);
                    lemma_rest_update(a1, id as int, entry, side, None, true);
                    assert forall|p: Price| #[trigger] resting_vol_at(a2, side, p) == resting_vol_at(a1, side, p) by {
                        lemma_rest_update(a1, id as int, entry, side, Some(p), false);
                    }
                    assert forall|p: Price| p != pk implies #[trigger] resting_vol_at(a2, opp, p) == resting_vol_at(a1, opp, p) by {
                        lemma_rest_update(a1, id as int, entry, opp, Some(p), false);
                    }
                    lemma_rest_update(a1, id as int, entry, opp, Some(pk), false);
                }
                self.side_remove_entry(opp, key, id, trade_vol);
                proof {
                    let tr = self.trades@[self.trades@.len() - 1];
                    assert(self.trades@ == tlog.push(tr));
                    assert(tlog.subrange(n0 as int, tlog.len() as int) =~= tlog.subrange(n0 as int, tlog.len() as int));
                    lemma_matched_step(a0, q0, a1, tlog, tr, entry, n0 as int, agg0.order_id as int, agg0.vol, s0.time());
                    assert(self.arena() == a1.update(id as int, entry));
                    assert(q0.skip(tlog.len() - n0).skip(1) =~= q0.skip(tlog.len() + 1 - n0));
                    assert forall|j: int|
                        0 <= j < a0.len() && j != agg0.order_id && #[trigger] self.arena()[j] != a0[j] && resting(
                            self.arena()[j],
                            opp,
                        ) implies agg.vol == 0 by {
                        if j != id {
                            assert(self.arena()[j] == a1[j]);
                        }
                    }
                    let sd2 = self.side_index(opp);
                    let a2 = self.arena();
                    assert forall|e: QueueEntry| #[trigger] sd2.queue().contains(e) implies e.2 < a2.len()
                        && resting(a2[e.2 as int], opp) && a2[e.2 as int].key == (opp, e.0, e.1) by {
                        assert(sd1.queue().contains(e));
                        if e.2 == id {
                            assert(a1[id as int].key == (opp, e.0, e.1));
                        }
                    }
                    assert forall|i: int| 0 <= i < a2.len() && resting(#[trigger] a2[i], opp) implies sd2.queue().contains(
                        (a2[i].key.1, a2[i].key.2, i as usize),
                    ) by {
                        assert(a2[i] == a1[i]);
                        assert(sd1.queue().contains((a1[i].key.1, a1[i].key.2, i as usize)));
                    }
                    if !sd2.has_level(pk) {
                        assert forall|j: int| 0 <= j < a2.len() implies rest_term(#[trigger] a2[j], opp, Some(pk), false) == 0 by {
                            if rest_term(a2[j], opp, Some(pk), false) != 0 {
                                let e = (a2[j].key.1, a2[j].key.2, j as usize);
                                assert(sd2.queue().contains(e));
                                let k = choose|k: int| 0 <= k < sd2.queue().len() && sd2.queue()[k] == e;
                                crate::side::lemma_count_positive(sd2.queue(), k);
                                assert(sd2.level_count(pk) > 0);
                            }
                        }
                        lemma_rest_zero(a2, opp, Some(pk), false);
                    }
                    assert forall|p: Price| #[trigger] sd2.level_vol(p) == resting_vol_at(a2, opp, p) by {
                        if p != pk {
                            assert(sd1.level_vol(p) == resting_vol_at(a1, opp, p));
                        }
                    }
                    assert forall|i: int| 0 <= i < a2.len() implies entry_wf(#[trigger] a2[i], i) by {
                        assert(entry_wf(a1[i], i));
                    }
                    let sd_own = self.side_index(side);
                    assert forall|e: QueueEntry| #[trigger] sd_own.queue().contains(e) implies e.2 < a2.len()
                        && resting(a2[e.2 as int], side) && a2[e.2 as int].key == (side, e.0, e.1) by {
                        assert(resting(a1[e.2 as int], side));
                    }
                    assert forall|i: int| 0 <= i < a2.len() && resting(#[trigger] a2[i], side) implies sd_own.queue().contains(
                        (a2[i].key.1, a2[i].key.2, i as usize),
                    ) by {
                        assert(a2[i] == a1[i]);
                    }
                    assert(self.side_index(side) == s1.side_index(side));
                }
            } else {
                self.orders.set(id, entry);
                let ghost a2 = self.orders@;
                proof {
                    assert(a2 == a1.update(id as int, entry));
                    lemma_rest_update(a1, id as int, entry, opp, None, false);
                    lemma_rest_update(a1, id as int, entry, opp, None, true);
                    lemma_rest_update(a1, id as int, entry, side, None, false);
                    lemma_rest_update(a1, id as int, entry, side, None, true);
                    assert forall|p: Price| #[trigger] resting_vol_at(a2, side, p) == resting_vol_at(a1, side, p) by {
                        lemma_rest_update(a1, id as int, entry, side, Some(p), false);
                    }
                    assert forall|p: Price| p != pk implies #[trigger] resting_vol_at(a2, opp, p) == resting_vol_at(a1, opp, p) by {
                        lemma_rest_update(a1, id as int, entry, opp, Some(p), false);
                    }
                    lemma_rest_update(a1, id as int, entry, opp, Some(pk), false);
                    assert(sd1.has_level(q_first.0));
                }
                self.side_remove_vol(opp, pk, trade_vol);
                proof {
                    let tr = self.trades@[self.trades@.len() - 1];
                    assert(self.trades@ == tlog.push(tr));
                    assert(tlog.subrange(n0 as int, tlog.len() as int) =~= tlog.subrange(n0 as int, tlog.len() as int));
                    lemma_matched_step(a0, q0, a1, tlog, tr, entry, n0 as int, agg0.order_id as int, agg0.vol, s0.time());
                    assert(self.arena() == a1.update(id as int, entry));
                    assert(agg.vol == 0);
                    let sd2 = self.side_index(opp);
                    let a2 = self.arena();
                    assert forall|e: QueueEntry| #[trigger] sd2.queue().contains(e) implies e.2 < a2.len()
                        && resting(a2[e.2 as int], opp) && a2[e.2 as int].key == (opp, e.0, e.1) by {
                        assert(sd1.queue().contains(e));
                    }
                    assert forall|i: int| 0 <= i < a2.len() && resting(#[trigger] a2[i], opp) implies sd2.queue().contains(
                        (a2[i].key.1, a2[i].key.2, i as usize),
                    ) by {
                        assert(resting(a1[i], opp));
                    }
                    assert forall|p: Price| #[trigger] sd2.level_vol(p) == resting_vol_at(a2, opp, p) by {
                        if p != pk {
                            assert(sd1.level_vol(p) == resting_vol_at(a1, opp, p));
                        }
                    }
                    assert forall|i: int| 0 <= i < a2.len() implies entry_wf(#[trigger] a2[i], i) by {
                        assert(entry_wf(a1[i], i));
                    }
                    let sd_own = self.side_index(side);
                    assert forall|e: QueueEntry| #[trigger] sd_own.queue().contains(e) implies e.2 < a2.len()
                        && resting(a2[e.2 as int], side) && a2[e.2 as int].key == (side, e.0, e.1) by {
                        assert(resting(a1[e.2 as int], side));
                    }
                    assert forall|i: int| 0 <= i < a2.len() && resting(#[trigger] a2[i], side) implies sd_own.queue().contains(
                        (a2[i].key.1, a2[i].key.2, i as usize),
                    ) by {
                        assert(a2[i] == a1[i]);
                    }
                }
            }
        }
    }

    /// Place an order on the market
    ///
    /// Place an order that has been created; an order that is not new is
    /// left as it is. A limit order is matched (when trading is enabled)
    /// and what is left of it rests on the book. A market order is matched
    /// and what is left of it is cancelled; it is rejected when trading is
    /// disabled.
    ///
    /// - `order_id` - Id of the order to place
    pub fn place_order(&mut self, order_id: OrderId)
        requires
            old(self).wf(),
            order_id < old(self).arena().len(),
            old(self).arena().len() <= OrderCount::MAX,
            old(self).order_at(order_id as int).status == Status::New ==> old(self).side_vol(
                old(self).order_at(order_id as int).side,
            ) + old(self).order_at(order_id as int).vol <= Vol::MAX && old(self).traded() + old(
                self).order_at(order_id as int).vol <= Vol::MAX,
        ensures
            final(self).wf(),
            old(self).order_at(order_id as int).status != Status::New ==> *final(self) == *old(self),
            old(self).order_at(order_id as int).status == Status::New ==> placed(
                *old(self),
                *final(self),
                order_id as int,
            ),
            old(self).is_trading() && old(self).uncrossed() && old(self).order_at(order_id as int).vol > 0
                ==> final(self).uncrossed(),
    {
        let mut entry = self.orders[order_id];
        if entry.order.status != Status::New {
            return;
        }
        let ghost s0 = *self;
        let ghost e0 = entry;
        proof {
            assert(entry_wf(e0, order_id as int));
        }
        entry.order.status = Status::Active;
        entry.order.arr_time = self.t;
        let side = entry.order.side;
        let market = match side {
            Side::Bid => entry.order.price == MAX_PRICE,
            Side::Ask => entry.order.price == 0,
        };
        if market {
            let ghost so = self.side_index(opposite(side));
            if self.trading {
                self.match_aggressor(&mut entry.order);
                proof {
                    if s0.uncrossed() {
                        let sw = self.side_index(side);
                        let x = (price_key(side, e0.order.price), 0u64, order_id);
                        assert(!sw.queue().contains(x)) by {
                            if sw.queue().contains(x) {
                                assert(resting(s0.arena()[order_id as int], side));
                            }
                        }
                        lemma_submit_uncrossed(side, e0.order.price, x, so, sw, self.side_index(opposite(side)), sw);
                    }
                }
                if entry.order.status != Status::Filled {
                    entry.order.status = Status::Cancelled;
                    entry.order.end_time = self.t;
                }
            } else {
                entry.order.status = Status::Rejected;
                entry.order.end_time = self.t;
            }
            let ghost a1 = self.orders@;
            self.orders.set(order_id, entry);
            proof {
                assert(self.orders@ == a1.update(order_id as int, entry));
                lemma_side_wf_update_quiet(a1, order_id as int, entry, Side::Bid, self.bids());
                lemma_side_wf_update_quiet(a1, order_id as int, entry, Side::Ask, self.asks());
                assert forall|i: int| 0 <= i < self.arena().len() implies entry_wf(#[trigger] self.arena()[i], i) by {
                    assert(entry_wf(a1[i], i));
                }
            }
        } else {
            proof {
                assert(entry.order == Order { status: Status::Active, arr_time: s0.time(), ..e0.order });
            }
            self.submit_limit(order_id, entry);
        }
        proof {
            let b0 = s0;
            let b1 = *self;
            let id = order_id as int;
            assert(b0.side_index(opposite(side)).queue().skip(0) =~= b0.side_index(opposite(side)).queue());
            let o0 = b0.order_at(id);
            let o1 = b1.order_at(id);
            let n0 = b0.trade_log().len();
            let n1 = b1.trade_log().len();
            assert(o0 == e0.order);
            if is_market(o0) {
                assert(same_terms(o1, Order { arr_time: b0.time(), ..o0 }));
                assert(o1.vol <= o0.vol);
                assert(b1.traded() == b0.traded() + (o0.vol - o1.vol));
                assert(b1.trade_log().subrange(0, n0 as int) == b0.trade_log());
                assert(trade_sum(b1.trade_log().subrange(n0 as int, n1 as int)) == o0.vol - o1.vol);
                assert(!b0.is_trading() ==> n1 == n0 && o1.vol == o0.vol);
                assert(forall|k: int|
                    n0 <= k < n1 ==> trade_from(#[trigger] b1.trade_log()[k], b0.time(), o1, o0.vol, b0.arena()));
            }
        }
    }

    /// Submit a limit order that is not on the book
    ///
    /// The order is matched when trading is enabled; what is left of it
    /// rests on its side at its price key and the current time.
    fn submit_limit(&mut self, order_id: OrderId, entry: OrderEntry)
        requires
            old(self).wf(),
            order_id < old(self).arena().len(),
            old(self).arena().len() <= OrderCount::MAX,
            old(self).arena()[order_id as int].order.status != Status::Active,
            entry.order.status == Status::Active,
            entry.order.order_id == order_id,
            entry.order.arr_time == old(self).time(),
            entry.order.end_time == MAX_NANOS,
            entry.key.0 == entry.order.side,
            entry.key.1 == price_key(entry.order.side, entry.order.price),
            old(self).side_vol(entry.order.side) + entry.order.vol <= Vol::MAX,
            old(self).traded() + entry.order.vol <= Vol::MAX,
        ensures
            final(self).wf(),
            submitted(*old(self), *final(self), order_id as int, entry.order),
            old(self).is_trading() && old(self).uncrossed() && entry.order.vol > 0 ==> final(self).uncrossed(),
    {
        let mut entry = entry;
        let side = entry.order.side;
        let opp = side.opposite();
        let ghost e0 = entry;
        let ghost s0 = *self;
        if self.trading {
            self.match_aggressor(&mut entry.order);
        }
        let ghost a1 = self.orders@;
        let ghost sd1 = self.side_index(side);
        let ghost fo = self.side_index(opp);
        let ghost rests = entry.order.vol > 0;
        let ghost left = entry.order;
        if entry.order.vol > 0 {
            let key: OrderKey = (side, entry.key.1, self.t);
            entry.key = key;
            proof {
                assert(!resting(a1[order_id as int], side));
                assert(!sd1.queue().contains((key.1, key.2, order_id))) by {
                    if sd1.queue().contains((key.1, key.2, order_id)) {
                        assert(resting(a1[order_id as int], side));
                    }
                }
                lemma_rest_level_le_total(a1, side, key.1);
                assert(sd1.level_vol(key.1) == resting_vol_at(a1, side, key.1));
                lemma_count_le_len(sd1.queue(), key.1);
                lemma_rest_update(a1, order_id as int, entry, side, None, true);
                lemma_rest_count_le_len(a1.update(order_id as int, entry), side);
            }
            self.orders.set(order_id, entry);
            let ghost a2 = self.orders@;
            self.side_insert(side, key, order_id, entry.order.vol);
            proof {
                assert(a2 == a1.update(order_id as int, entry));
                lemma_side_wf_update_quiet(a1, order_id as int, entry, opp, self.side_index(opp));
                let sd2 = self.side_index(side);
                lemma_rest_update(a1, order_id as int, entry, side, None, false);
                assert forall|p: Price| #[trigger] resting_vol_at(a2, side, p) == resting_vol_at(a1, side, p)
                    + (if p == key.1 { entry.order.vol as int } else { 0 }) by {
                    lemma_rest_update(a1, order_id as int, entry, side, Some(p), false);
                }
                assert forall|p: Price| #[trigger] sd2.level_vol(p) == resting_vol_at(a2, side, p) by {
                    assert(sd1.level_vol(p) == resting_vol_at(a1, side, p));
                }
                assert forall|e: QueueEntry| #[trigger] sd2.queue().contains(e) implies e.2 < a2.len()
                    && resting(a2[e.2 as int], side) && a2[e.2 as int].key == (side, e.0, e.1) by {
                    if e != (key.1, key.2, order_id) {
                        assert(sd1.queue().contains(e));
                        assert(resting(a1[e.2 as int], side));
                    }
                }
                assert forall|i: int| 0 <= i < a2.len() && resting(#[trigger] a2[i], side) implies sd2.queue().contains(
                    (a2[i].key.1, a2[i].key.2, i as usize),
                ) by {
                    if i != order_id {
                        assert(a2[i] == a1[i]);
                        assert(sd1.queue().contains((a1[i].key.1, a1[i].key.2, i as usize)));
                    }
                }
                assert forall|i: int| 0 <= i < a2.len() implies entry_wf(#[trigger] a2[i], i) by {
                    assert(entry_wf(a1[i], i));
                }
            }
        } else {
            // an order without volume never rests on the book
            if entry.order.status != Status::Filled {
                entry.order.status = Status::Cancelled;
                entry.order.end_time = self.t;
            }
            self.orders.set(order_id, entry);
            proof {
                assert(self.orders@ == a1.update(order_id as int, entry));
                lemma_side_wf_update_quiet(a1, order_id as int, entry, Side::Bid, self.bids());
                lemma_side_wf_update_quiet(a1, order_id as int, entry, Side::Ask, self.asks());
                assert forall|i: int| 0 <= i < self.arena().len() implies entry_wf(#[trigger] self.arena()[i], i) by {
                    assert(entry_wf(a1[i], i));
                }
            }
        }
            proof {
            if s0.is_trading() && s0.uncrossed() && e0.order.vol > 0 {
                let x = (price_key(side, e0.order.price), s0.time(), order_id);
                let fw = self.side_index(side);
                assert(fo == self.side_index(opp));
                assert(sd1 == s0.side_index(side));
                assert forall|e: QueueEntry| #[trigger] fw.queue().contains(e) implies sd1.queue().contains(e) || e == x by {
                }
                if fw.queue().contains(x) && !rests {
                    assert(sd1.queue().contains(x));
                    assert(resting(a1[order_id as int], side));
                }
                lemma_submit_uncrossed(side, e0.order.price, x, s0.side_index(opp), sd1, fo, fw);
            }
        }
        proof {
            let b0 = s0;
            let b1 = *self;
            let id = order_id as int;
            assert(b0.side_index(opposite(side)).queue().skip(0) =~= b0.side_index(opposite(side)).queue());
            let o = e0.order;
            let o1 = b1.order_at(id);
            let n0 = b0.trade_log().len();
            let n1 = b1.trade_log().len();
            assert(same_terms(o1, o));
            assert(o1.vol <= o.vol);
            assert(b1.traded() == b0.traded() + (o.vol - o1.vol));
            assert(b1.trade_log().subrange(0, n0 as int) == b0.trade_log());
            assert(trade_sum(b1.trade_log().subrange(n0 as int, n1 as int)) == o.vol - o1.vol);
            assert(forall|k: int|
                n0 <= k < n1 ==> trade_from(#[trigger] b1.trade_log()[k], b0.time(), o1, o.vol, b0.arena()));
            assert(!b0.is_trading() ==> n1 == n0 && o1.vol == o.vol);
            assert forall|e: QueueEntry|
                #[trigger] b1.side_index(o.side).queue().contains(e) <==> (b0.side_index(o.side).queue().contains(e)
                    && e.2 != id || (o1.status == Status::Active && e == (price_key(o.side, o.price), b0.time(), id as usize))) by {
                if b0.side_index(o.side).queue().contains(e) {
                    assert(resting(b0.arena()[e.2 as int], side));
                }
            }
        }
    }

    /// Cancel an order
    ///
    /// Cancels an active order and takes it off the book; an order in
    /// any other state is left as it is.
    ///
    /// - `order_id` - Id of the order to cancel
    pub fn cancel_order(&mut self, order_id: OrderId)
        requires
            old(self).wf(),
            order_id < old(self).arena().len(),
        ensures
            final(self).wf(),
            old(self).order_at(order_id as int).status != Status::Active ==> *final(self) == *old(self),
            old(self).order_at(order_id as int).status == Status::Active ==> cancelled(
                *old(self),
                *final(self),
                order_id as int,
            ),
            old(self).uncrossed() ==> final(self).uncrossed(),
    {
        let mut entry = self.orders[order_id];
        if entry.order.status != Status::Active {
            return;
        }
        let ghost s0 = *self;
        let ghost a0 = self.orders@;
        let side = entry.order.side;
        let key = entry.key;
        let vol = entry.order.vol;
        proof {
            assert(entry_wf(entry, order_id as int));
            assert(resting(a0[order_id as int], side));
            let sd = self.side_index(side);
            assert(sd.queue().contains((key.1, key.2, order_id)));
            lemma_rest_ge(a0, order_id as int, side, Some(key.1), false);
            lemma_rest_ge(a0, order_id as int, side, None, false);
            assert(sd.level_vol(key.1) == resting_vol_at(a0, side, key.1));
        }
        entry.order.status = Status::Cancelled;
        entry.order.end_time = self.t;
        self.orders.set(order_id, entry);
        let ghost sd1 = self.side_index(side);
        self.side_remove_entry(side, key, order_id, vol);
        proof {
            let a2 = self.orders@;
            assert(a2 == a0.update(order_id as int, entry));
            lemma_side_wf_remove(a0, order_id as int, entry, side, sd1, self.side_index(side));
            lemma_side_wf_update_quiet(a0, order_id as int, entry, opposite(side), self.side_index(opposite(side)));
            assert forall|i: int| 0 <= i < a2.len() implies entry_wf(#[trigger] a2[i], i) by {
                assert(entry_wf(a0[i], i));
            }
            if s0.uncrossed() {
                let so = self.side_index(opposite(side));
                lemma_submit_uncrossed(side, entry.order.price, (key.1, key.2, order_id), so, sd1, so, self.side_index(side));
            }
        }
    }

    /// Modify the price and/or volume of an order
    ///
    /// If only the volume is *reduced*, then the order keeps its
    /// price-time priority. Otherwise the order is taken off the book and
    /// submitted again at the current time, which may match it. The
    /// modified order keeps its id. A `None` keeps the price/volume.
    ///
    /// - `order_id` - Id of the order to modify
    /// - `new_price` - New price of the order
    /// - `new_vol` - New volume of the order
    pub fn modify_order(&mut self, order_id: OrderId, new_price: Option<Price>, new_vol: Option<Vol>)
        requires
            old(self).wf(),
            order_id < old(self).arena().len(),
            old(self).arena().len() <= OrderCount::MAX,
            old(self).order_at(order_id as int).status == Status::Active && is_replace(
                old(self).order_at(order_id as int),
                new_price,
                new_vol,
            ) ==> old(self).side_vol(old(self).order_at(order_id as int).side) - old(self).order_at(
                order_id as int,
            ).vol + replace_vol(old(self).order_at(order_id as int), new_vol) <= Vol::MAX
                && old(self).traded() + replace_vol(old(self).order_at(order_id as int), new_vol)
                <= Vol::MAX,
        ensures
            final(self).wf(),
            modified(*old(self), *final(self), order_id as int, new_price, new_vol),
            old(self).is_trading() && old(self).uncrossed() && keeps_volume(
                old(self).order_at(order_id as int),
                new_price,
                new_vol,
            ) ==> final(self).uncrossed(),
    {
        let entry = self.orders[order_id];
        if entry.order.status != Status::Active {
            return;
        }
        if new_price.is_none() && new_vol.is_none() {
            return;
        }
        if new_price.is_none() && new_vol.unwrap() < entry.order.vol {
            let v = new_vol.unwrap();
            self.reduce_order_vol(order_id, entry, entry.order.vol - v);
        } else {
            let p = match new_price {
                Some(p) => p,
                None => entry.order.price,
            };
            let v = match new_vol {
                Some(v) => v,
                None => entry.order.vol,
            };
            self.replace_order(order_id, entry, p, v);
        }
    }

    /// Reduce the volume of an active order in-place, keeping its priority
    fn reduce_order_vol(&mut self, order_id: OrderId, entry: OrderEntry, reduce_vol: Vol)
        requires
            old(self).wf(),
            order_id < old(self).arena().len(),
            entry == old(self).arena()[order_id as int],
            entry.order.status == Status::Active,
            reduce_vol <= entry.order.vol,
        ensures
            final(self).wf(),
            final(self).arena() == old(self).arena().update(
                order_id as int,
                OrderEntry { order: Order { vol: (entry.order.vol - reduce_vol) as u32, ..entry.order }, key: entry.key },
            ),
            final(self).trade_log() == old(self).trade_log(),
            final(self).time() == old(self).time(),
            final(self).traded() == old(self).traded(),
            final(self).is_trading() == old(self).is_trading(),
            final(self).tick() == old(self).tick(),
            final(self).bids().queue() == old(self).bids().queue(),
            final(self).asks().queue() == old(self).asks().queue(),
    {
        let ghost a0 = self.orders@;
        let mut entry = entry;
        let side = entry.order.side;
        let key = entry.key;
        proof {
            assert(entry_wf(entry, order_id as int));
            assert(resting(a0[order_id as int], side));
            let sd = self.side_index(side);
            assert(sd.queue().contains((key.1, key.2, order_id)));
            assert(sd.has_level(key.1)) by {
                let k = choose|k: int| 0 <= k < sd.queue().len() && sd.queue()[k] == (key.1, key.2, order_id);
                assert(sd.has_level(sd.queue()[k].0));
            }
            lemma_rest_ge(a0, order_id as int, side, Some(key.1), false);
            lemma_rest_ge(a0, order_id as int, side, None, false);
            assert(sd.level_vol(key.1) == resting_vol_at(a0, side, key.1));
        }
        entry.order.vol = entry.order.vol - reduce_vol;
        self.orders.set(order_id, entry);
        let ghost sd1 = self.side_index(side);
        self.side_remove_vol(side, key.1, reduce_vol);
        proof {
            let a2 = self.orders@;
            assert(a2 == a0.update(order_id as int, entry));
            lemma_side_wf_reduce(a0, order_id as int, entry, side, sd1, self.side_index(side));
            lemma_side_wf_update_quiet(a0, order_id as int, entry, opposite(side), self.side_index(opposite(side)));
            assert forall|i: int| 0 <= i < a2.len() implies entry_wf(#[trigger] a2[i], i) by {
                assert(entry_wf(a0[i], i));
            }
        }
    }

    /// Replace an active order with a new price and volume
    ///
    /// The order is taken off the book and submitted again as a limit
    /// order at the current time, so it loses its priority.
    fn replace_order(&mut self, order_id: OrderId, entry: OrderEntry, new_price: Price, new_vol: Vol)
        requires
            old(self).wf(),
            order_id < old(self).arena().len(),
            old(self).arena().len() <= OrderCount::MAX,
            entry == old(self).arena()[order_id as int],
            entry.order.status == Status::Active,
            old(self).side_vol(entry.order.side) - entry.order.vol + new_vol <= Vol::MAX,
            old(self).traded() + new_vol <= Vol::MAX,
        ensures
            final(self).wf(),
            submitted(
                *old(self),
                *final(self),
                order_id as int,
                Order { price: new_price, vol: new_vol, arr_time: old(self).time(), ..entry.order },
            ),
            old(self).is_trading() && old(self).uncrossed() && new_vol > 0 ==> final(self).uncrossed(),
    {
        let ghost s0 = *self;
        let ghost a0 = self.orders@;
        let side = entry.order.side;
        let key = entry.key;
        let vol = entry.order.vol;
        proof {
            assert(entry_wf(entry, order_id as int));
            assert(resting(a0[order_id as int], side));
            let sd = self.side_index(side);
            assert(sd.queue().contains((key.1, key.2, order_id)));
            lemma_rest_ge(a0, order_id as int, side, Some(key.1), false);
            lemma_rest_ge(a0, order_id as int, side, None, false);
            assert(sd.level_vol(key.1) == resting_vol_at(a0, side, key.1));
        }
        // off the book (as if cancelled) until it is submitted again
        let mut off = entry;
        off.order.status = Status::Cancelled;
        self.orders.set(order_id, off);
        let ghost sd1 = self.side_index(side);
        self.side_remove_entry(side, key, order_id, vol);
        proof {
            let a2 = self.orders@;
            assert(a2 == a0.update(order_id as int, off));
            lemma_side_wf_remove(a0, order_id as int, off, side, sd1, self.side_index(side));
            lemma_side_wf_update_quiet(a0, order_id as int, off, opposite(side), self.side_index(opposite(side)));
            assert forall|i: int| 0 <= i < a2.len() implies entry_wf(#[trigger] a2[i], i) by {
                assert(entry_wf(a0[i], i));
            }
            if s0.uncrossed() {
                let so = self.side_index(opposite(side));
                lemma_submit_uncrossed(side, entry.order.price, (key.1, key.2, order_id), so, sd1, so, self.side_index(side));
            }
        }
        let ghost s1 = *self;
        let mut resubmitted = entry;
        resubmitted.order.price = new_price;
        resubmitted.order.vol = new_vol;
        resubmitted.order.arr_time = self.t;
        resubmitted.key = match side {
            Side::Bid => get_bid_key(self.t, new_price),
            Side::Ask => get_ask_key(self.t, new_price),
        };
        self.submit_limit(order_id, resubmitted);
        proof {
            let o = resubmitted.order;
            let b1 = *self;
            let n0 = s0.trade_log().len();
            assert forall|k: int|
                n0 <= k < b1.trade_log().len() implies trade_from(#[trigger] b1.trade_log()[k], s0.time(), b1.order_at(order_id as int), o.vol, s0.arena()) by {
                let tr = b1.trade_log()[k];
                assert(trade_from(tr, s1.time(), b1.order_at(order_id as int), o.vol, s1.arena()));
                assert(tr.passive_order_id != order_id);
                assert(s1.arena()[tr.passive_order_id as int] == s0.arena()[tr.passive_order_id as int]);
            }
        }
    }

    /// Process an order instruction: place, cancel or modify an order
    pub fn process_event(&mut self, event: Event)
        requires
            old(self).wf(),
            old(self).can_process(event),
        ensures
            final(self).wf(),
            processed(*old(self), *final(self), event),
            forall|j: int|
                0 <= j < old(self).arena().len() && j != event.target() ==> #[trigger] final(self).order_at(j).arr_time
                    == old(self).order_at(j).arr_time,
            final(self).order_at(event.target() as int).arr_time == old(self).order_at(event.target() as int).arr_time
                || final(self).order_at(event.target() as int).arr_time == old(self).time(),
            old(self).is_trading() && old(self).uncrossed() && match event {
                Event::New { order_id } => old(self).order_at(order_id as int).vol > 0,
                Event::Cancellation { .. } => true,
                Event::Modify { order_id, new_price, new_vol } => keeps_volume(
                    old(self).order_at(order_id as int),
                    new_price,
                    new_vol,
                ),
            } ==> final(self).uncrossed(),
    {
        let ghost n0 = self.trades@.len();
        match event {
            Event::New { order_id } => self.place_order(order_id),
            Event::Cancellation { order_id } => self.cancel_order(order_id),
            Event::Modify { order_id, new_price, new_vol } => self.modify_order(order_id, new_price, new_vol),
        }
        proof {
            if self.trades@.len() == n0 {
                assert(self.trades@.subrange(n0 as int, n0 as int) =~= Seq::<Trade>::empty());
                assert(trade_sum(Seq::<Trade>::empty()) == 0);
                assert(old(self).trades@.subrange(0, n0 as int) =~= old(self).trades@);
            }
        }
    }

    /// Whether an instruction can be processed: it names an existing order
    /// and the volumes it would add fit the 32-bit volume counters
    pub open spec fn can_process(self, event: Event) -> bool {
        let id = event.target();
        let o = self.order_at(id as int);
        &&& id < self.arena().len()
        &&& self.arena().len() <= OrderCount::MAX
        &&& match event {
            Event::New { .. } => o.status == Status::New ==> self.side_vol(o.side) + o.vol <= Vol::MAX
                && self.traded() + o.vol <= Vol::MAX,
            Event::Cancellation { .. } => true,
            Event::Modify { new_price, new_vol, .. } => o.status == Status::Active && is_replace(o, new_price, new_vol)
                ==> self.side_vol(o.side) - o.vol + replace_vol(o, new_vol) <= Vol::MAX
                && self.traded() + replace_vol(o, new_vol) <= Vol::MAX,
        }
    }

    /// Checks whether an instruction can be processed
    pub fn check_event(&self, event: Event) -> (r: bool)
        requires
            self.wf(),
        ensures
            r == self.can_process(event),
    {
        let id = match event {
            Event::New { order_id } => order_id,
            Event::Cancellation { order_id } => order_id,
            Event::Modify { order_id, .. } => order_id,
        };
        if id >= self.orders.len() || self.orders.len() > OrderCount::MAX as usize {
            return false;
        }
        let o = self.orders[id].order;
        proof {
            assert(entry_wf(self.arena()[id as int], id as int));
        }
        let side_vol = match o.side {
            Side::Bid => self.bid_side.0.vol(),
            Side::Ask => self.ask_side.0.vol(),
        };
        match event {
            Event::New { .. } => o.status != Status::New || ((side_vol as u64) + (o.vol as u64)
                <= Vol::MAX as u64 && (self.trade_vol as u64) + (o.vol as u64) <= Vol::MAX as u64),
            Event::Cancellation { .. } => true,
            Event::Modify { new_price, new_vol, .. } => {
                let replace = !(new_price.is_none() && new_vol.is_none()) && !(new_price.is_none()
                    && new_vol.unwrap() < o.vol);
                let v = match new_vol {
                    Some(v) => v,
                    None => o.vol,
                };
                if o.status != Status::Active || !replace {
                    true
                } else {
                    proof {
                        let sd = self.side_index(o.side);
                        lemma_rest_ge(self.arena(), id as int, o.side, None, false);
                        assert(resting(self.arena()[id as int], o.side));
                    }
                    (side_vol as u64) - (o.vol as u64) + (v as u64) <= Vol::MAX as u64
                        && (self.trade_vol as u64) + (v as u64) <= Vol::MAX as u64
                }
            },
        }
    }

    /// Snapshot of the persisted state of the book
    pub fn to_snapshot(&self) -> (r: OrderBookState)
        ensures
            r.t == self.time(),
            r.tick_size == self.tick(),
            r.trade_vol == self.traded(),
            r.orders@ == self.arena(),
            r.trades@ == self.trade_log(),
            r.trading == self.is_trading(),
    {
        let mut orders: Vec<OrderEntry> = Vec::new();
        let mut i: usize = 0;
        while i < self.orders.len()
            invariant
                0 <= i <= self.arena().len(),
                orders@ == self.arena().take(i as int),
            decreases self.arena().len() - i,
        {
            orders.push(self.orders[i]);
            i = i + 1;
            proof {
                assert(orders@ =~= self.arena().take(i as int));
            }
        }
        let mut trades: Vec<Trade> = Vec::new();
        let mut k: usize = 0;
        while k < self.trades.len()
            invariant
                0 <= k <= self.trade_log().len(),
                orders@ == self.arena(),
                trades@ == self.trade_log().take(k as int),
            decreases self.trade_log().len() - k,
        {
            trades.push(self.trades[k]);
            k = k + 1;
            proof {
                assert(trades@ =~= self.trade_log().take(k as int));
            }
        }
        proof {
            assert(orders@ =~= self.arena());
            assert(trades@ =~= self.trade_log());
        }
        OrderBookState {
            t: self.t,
            tick_size: self.tick_size,
            trade_vol: self.trade_vol,
            orders,
            trades,
            trading: self.trading,
        }
    }

    /// Rebuild a book from a persisted state
    ///
    /// The side indices are rebuilt from the active orders, at their
    /// stored keys. Fails on a state that no book could have.
    pub fn from_snapshot(state: OrderBookState) -> (r: Option<Self>)
        ensures
            r.is_some() <==> snapshot_ok(state.tick_size, state.orders@),
            r.is_some() ==> {
                let b = r.unwrap();
                &&& b.wf()
                &&& b.time() == state.t
                &&& b.tick() == state.tick_size
                &&& b.traded() == state.trade_vol
                &&& b.arena() == state.orders@
                &&& b.trade_log() == state.trades@
                &&& b.is_trading() == state.trading
            },
    {
        if state.tick_size == 0 || state.orders.len() > OrderCount::MAX as usize || !entries_ok(
            &state.orders,
        ) {
            return None;
        }
        let bids = match rebuild_side(&state.orders, Side::Bid) {
            Some(sd) => sd,
            None => {
                return None;
            },
        };
        let asks = match rebuild_side(&state.orders, Side::Ask) {
            Some(sd) => sd,
            None => {
                return None;
            },
        };
        Some(
            OrderBook {
                t: state.t,
                tick_size: state.tick_size,
                trade_vol: state.trade_vol,
                ask_side: AskSide(asks),
                bid_side: BidSide(bids),
                orders: state.orders,
                trades: state.trades,
                trading: state.trading,
            },
        )
    }

    /// Create a new order
    ///
    /// Create a new order in the order list, but this order is not
    /// placed on the market. Returns the id of the newly created order.
    ///
    /// - `side` - Order side
    /// - `vol` - Order volume
    /// - `trader_id` - Id of the trader placing the order
    /// - `price` -  Price of the order, if `None` the order is
    ///   treated as a market order
    pub fn create_order(&mut self, side: Side, vol: Vol, trader_id: TraderId, price: Option<Price>) -> (r:
        Result<OrderId, OrderError>)
        requires
            old(self).wf(),
            old(self).arena().len() < usize::MAX,
        ensures
            final(self).wf(),
            final(self).time() == old(self).time(),
            final(self).traded() == old(self).traded(),
            final(self).is_trading() == old(self).is_trading(),
            final(self).tick() == old(self).tick(),
            final(self).trade_log() == old(self).trade_log(),
            final(self).bids() == old(self).bids(),
            final(self).asks() == old(self).asks(),
            match price {
                Some(p) => !valid_price(p, old(self).tick()),
                None => false,
            } ==> r == Err::<OrderId, OrderError>(
                OrderError::PriceError { price: price.unwrap(), tick_size: old(self).tick() },
            ) && *final(self) == *old(self),
            r.is_ok() <==> match price {
                Some(p) => valid_price(p, old(self).tick()),
                None => true,
            },
            r.is_ok() ==> r == Ok::<OrderId, OrderError>(old(self).arena().len() as usize) && final(self).arena() == old(self).arena().push(created_entry(side, vol, trader_id, price, old(self).time(), old(self).arena().len() as usize)),
    {
        let order_id = self.current_order_id();
        let order = match price {
            Some(p) => {
                if p == 0 || p % self.tick_size != 0 {
                    return Err(OrderError::PriceError { price: p, tick_size: self.tick_size });
                }
                match side {
                    Side::Bid => Order::buy_limit(self.t, vol, p, trader_id, order_id),
                    Side::Ask => Order::sell_limit(self.t, vol, p, trader_id, order_id),
                }
            },
            None => match side {
                Side::Bid => Order::buy_market(self.t, vol, trader_id, order_id),
                Side::Ask => Order::sell_market(self.t, vol, trader_id, order_id),
            },
        };
        let key = match side {
            Side::Bid => get_bid_key(0, order.price),
            Side::Ask => get_ask_key(0, order.price),
        };
        let entry = OrderEntry { order, key };
        let ghost a0 = self.orders@;
        self.orders.push(entry);
        proof {
            assert(entry == created_entry(side, vol, trader_id, price, self.t, order_id));
            lemma_push_not_resting(a0, entry, Side::Bid);
            lemma_push_not_resting(a0, entry, Side::Ask);
            let a1 = self.orders@;
            assert forall|i: int| 0 <= i < a1.len() implies entry_wf(#[trigger] a1[i], i) by {
                if i < a0.len() {
                    assert(a1[i] == a0[i]);
                }
            }
        }
        Ok(order_id)
    }

    /// Convenience function to create and immediately place an order
    pub fn create_and_place_order(&mut self, side: Side, vol: Vol, trader_id: TraderId, price: Option<
        Price,
    >) -> (r: Result<OrderId, OrderError>)
        requires
            old(self).wf(),
            old(self).arena().len() < OrderCount::MAX,
            old(self).side_vol(side) + vol <= Vol::MAX,
            old(self).traded() + vol <= Vol::MAX,
        ensures
            final(self).wf(),
            r.is_ok() <==> match price {
                Some(p) => valid_price(p, old(self).tick()),
                None => true,
            },
            r.is_err() ==> r == Err::<OrderId, OrderError>(
                OrderError::PriceError { price: price.unwrap(), tick_size: old(self).tick() },
            ) && *final(self) == *old(self),
            r.is_ok() ==> r == Ok::<OrderId, OrderError>(old(self).arena().len() as usize) && final(self).arena().len() == old(self).arena().len() + 1,
            r.is_ok() ==> exists|b: Self|
                b.arena() == old(self).arena().push(
                    created_entry(side, vol, trader_id, price, old(self).time(), old(self).arena().len() as usize),
                ) && b.same_book_but_orders(*old(self)) && placed(b, *final(self), old(self).arena().len() as int),
            final(self).time() == old(self).time(),
            final(self).tick() == old(self).tick(),
            final(self).is_trading() == old(self).is_trading(),
    {
        match self.create_order(side, vol, trader_id, price) {
            Ok(order_id) => {
                let ghost b = *self;
                self.place_order(order_id);
                proof {
                    assert(b.same_book_but_orders(*old(self)));
                }
                Ok(order_id)
            },
            Err(e) => Err(e),
        }
    }
}

/// A limit price is a positive multiple of the tick size
pub open spec fn valid_price(p: Price, tick: Price) -> bool {
    p > 0 && p % tick == 0
}

/// Price of a new order: its limit price, or the market-order
/// sentinel of its side (the largest price to buy, 0 to sell)
pub open spec fn order_price(side: Side, price: Option<Price>) -> Price {
    match price {
        Some(p) => p,
        None => match side {
            Side::Bid => MAX_PRICE,
            Side::Ask => 0,
        },
    }
}

/// Arena entry of a newly created order
pub open spec fn created_entry(
    side: Side,
    vol: Vol,
    trader_id: TraderId,
    price: Option<Price>,
    t: Nanos,
    id: OrderId,
) -> OrderEntry {
    OrderEntry {
        order: new_order(side, t, vol, order_price(side, price), trader_id, id),
        key: (side, price_key(side, order_price(side, price)), 0),
    }
}

/// Whether an order is a market order (priced at its side's sentinel)
pub open spec fn is_market(o: Order) -> bool {
    match o.side {
        Side::Bid => o.price == MAX_PRICE,
        Side::Ask => o.price == 0,
    }
}

/// What placing the new order `id` of book `b0` leads to in book `b1`
pub open spec fn placed<const N: usize>(b0: OrderBook<N>, b1: OrderBook<N>, id: int) -> bool {
    let o0 = b0.order_at(id);
    let o1 = b1.order_at(id);
    let n0 = b0.trade_log().len();
    let n1 = b1.trade_log().len();
    &&& b1.time() == b0.time()
    &&& b1.tick() == b0.tick()
    &&& b1.is_trading() == b0.is_trading()
    &&& b1.arena().len() == b0.arena().len()
    &&& forall|j: int|
        0 <= j < b0.arena().len() && j != id ==> same_terms(#[trigger] b1.order_at(j), b0.order_at(j))
    &&& same_terms(o1, Order { arr_time: b0.time(), ..o0 })
    &&& o1.vol <= o0.vol
    &&& b1.traded() == b0.traded() + (o0.vol - o1.vol)
    &&& n0 <= n1
    &&& b1.trade_log().subrange(0, n0 as int) == b0.trade_log()
    &&& trade_sum(b1.trade_log().subrange(n0 as int, n1 as int)) == o0.vol - o1.vol
    &&& forall|k: int|
        n0 <= k < n1 ==> trade_from(#[trigger] b1.trade_log()[k], b0.time(), o1, o0.vol, b0.arena())
    &&& !b0.is_trading() ==> n1 == n0 && o1.vol == o0.vol
    &&& if is_market(o0) {
        &&& !b0.is_trading() ==> o1.status == Status::Rejected
        &&& b0.is_trading() ==> o1.status == (if o1.vol == 0 && o0.vol > 0 {
            Status::Filled
        } else {
            Status::Cancelled
        })
        &&& o1.end_time == b0.time()
        &&& b0.is_trading() && o1.vol > 0 ==> b1.side_index(opposite(o0.side)).queue().len() == 0
        &&& b1.side_index(o0.side) == b0.side_index(o0.side)
        &&& matched(
            b0.arena(),
            b0.side_index(opposite(o0.side)).queue(),
            b1.arena(),
            b1.trade_log(),
            n0 as int,
            id,
            o0.vol,
            b0.time(),
        )
        &&& b1.side_index(opposite(o0.side)).total() == b0.side_index(opposite(o0.side)).total() - (
        o0.vol - o1.vol)
        &&& o1.vol > 0 ==> b1.side_index(opposite(o0.side)).queue() == b0.side_index(
            opposite(o0.side),
        ).queue().skip(n1 - n0)
    } else {
        submitted(b0, b1, id, Order { status: Status::Active, arr_time: b0.time(), ..o0 })
    }
}

/// What submitting the limit order `o` with id `id` to book `b0`, where
/// it does not rest, leads to in book `b1`
pub open spec fn submitted<const N: usize>(b0: OrderBook<N>, b1: OrderBook<N>, id: int, o: Order) -> bool {
    let o1 = b1.order_at(id);
    let n0 = b0.trade_log().len();
    let n1 = b1.trade_log().len();
    &&& b1.time() == b0.time()
    &&& b1.tick() == b0.tick()
    &&& b1.is_trading() == b0.is_trading()
    &&& b1.arena().len() == b0.arena().len()
    &&& forall|j: int|
        0 <= j < b0.arena().len() && j != id ==> same_terms(#[trigger] b1.order_at(j), b0.order_at(j))
    &&& same_terms(o1, o)
    &&& o1.vol <= o.vol
    &&& b1.traded() == b0.traded() + (o.vol - o1.vol)
    &&& n0 <= n1
    &&& b1.trade_log().subrange(0, n0 as int) == b0.trade_log()
    &&& trade_sum(b1.trade_log().subrange(n0 as int, n1 as int)) == o.vol - o1.vol
    &&& forall|k: int|
        n0 <= k < n1 ==> trade_from(#[trigger] b1.trade_log()[k], b0.time(), o1, o.vol, b0.arena())
    &&& !b0.is_trading() ==> n1 == n0 && o1.vol == o.vol
    &&& o1.status == (if o1.vol > 0 {
        Status::Active
    } else if o.vol > 0 {
        Status::Filled
    } else {
        Status::Cancelled
    })
    &&& o1.end_time == (if o1.status == Status::Active {
        MAX_NANOS
    } else {
        b0.time()
    })
    &&& o1.status == Status::Active ==> b1.arena()[id].key == (o.side, price_key(o.side, o.price), b0.time())
        && (b0.is_trading() ==> b1.side_index(opposite(o.side)).queue().len() == 0
            || !crosses(o.side, o.price, b1.side_index(opposite(o.side)).best_key()))
    &&& forall|e: QueueEntry|
        #[trigger] b1.side_index(o.side).queue().contains(e) <==> (b0.side_index(o.side).queue().contains(e)
            && e.2 != id || (o1.status == Status::Active && e == (price_key(o.side, o.price), b0.time(), id as usize)))
    &&& matched(
        b0.arena(),
        b0.side_index(opposite(o.side)).queue(),
        b1.arena(),
        b1.trade_log(),
        n0 as int,
        id,
        o.vol,
        b0.time(),
    )
    &&& b1.side_index(opposite(o.side)).total() == b0.side_index(opposite(o.side)).total() - (o.vol
        - o1.vol)
    &&& o1.vol > 0 ==> b1.side_index(opposite(o.side)).queue() == b0.side_index(opposite(o.side)).queue().skip(
        n1 - n0,
    )
}

/// What cancelling the active order `id` of book `b0` leads to in book `b1`
pub open spec fn cancelled<const N: usize>(b0: OrderBook<N>, b1: OrderBook<N>, id: int) -> bool {
    let e = b0.arena()[id];
    &&& b1.arena() == b0.arena().update(
        id,
        OrderEntry { order: Order { status: Status::Cancelled, end_time: b0.time(), ..e.order }, key: e.key },
    )
    &&& b1.trade_log() == b0.trade_log()
    &&& b1.tick() == b0.tick()
    &&& b1.time() == b0.time()
    &&& b1.traded() == b0.traded()
    &&& b1.is_trading() == b0.is_trading()
    &&& b1.side_index(opposite(e.order.side)) == b0.side_index(opposite(e.order.side))
    &&& forall|q: QueueEntry|
        b1.side_index(e.order.side).queue().contains(q) <==> (b0.side_index(e.order.side).queue().contains(q)
            && q != (e.key.1, e.key.2, id as usize))
}

/// What processing an instruction on book `b0` leads to in book `b1`:
/// placing a new order, cancelling an active one or modifying an active
/// one; an instruction on an order in any other state changes nothing.
/// The trade volume grows by the volume of the new trades.
pub open spec fn processed<const N: usize>(b0: OrderBook<N>, b1: OrderBook<N>, event: Event) -> bool {
    let id = event.target() as int;
    let n0 = b0.trade_log().len();
    let n1 = b1.trade_log().len();
    &&& b1.arena().len() == b0.arena().len()
    &&& b1.tick() == b0.tick()
    &&& b1.time() == b0.time()
    &&& b1.is_trading() == b0.is_trading()
    &&& n0 <= n1
    &&& b1.trade_log().subrange(0, n0 as int) == b0.trade_log()
    &&& b1.traded() == b0.traded() + trade_sum(b1.trade_log().subrange(n0 as int, n1 as int))
    &&& match event {
        Event::New { .. } => if b0.order_at(id).status == Status::New {
            placed(b0, b1, id)
        } else {
            b1 == b0
        },
        Event::Cancellation { .. } => if b0.order_at(id).status == Status::Active {
            cancelled(b0, b1, id)
        } else {
            b1 == b0
        },
        Event::Modify { new_price, new_vol, .. } => modified(b0, b1, id, new_price, new_vol),
    }
}

/// Book `b1` is book `b0` with its clock set to `t`
pub open spec fn clock_set<const N: usize>(b0: OrderBook<N>, b1: OrderBook<N>, t: Nanos) -> bool {
    &&& b1.same_book(b0)
    &&& b1.time() == t
    &&& b1.traded() == b0.traded()
    &&& b1.is_trading() == b0.is_trading()
}

/// Applying instruction `e` at time `t` to book `b0` gives book `b1`: the
/// clock is set to `t`, then the instruction is processed where it can be
/// and skipped where it cannot
pub open spec fn applied_at<const N: usize>(b0: OrderBook<N>, b1: OrderBook<N>, e: Event, t: Nanos) -> bool {
    exists|mid: OrderBook<N>|
        #[trigger] clock_set(b0, mid, t) && if mid.can_process(e) {
            processed(mid, b1, e)
        } else {
            b1 == mid
        }
}

/// Book `b1` is what applying `events` in order to book `b0` gives, the
/// instruction at index `i` being applied at time `start + i`
pub open spec fn applied_in_order<const N: usize>(
    b0: OrderBook<N>,
    b1: OrderBook<N>,
    events: Seq<Event>,
    start: Nanos,
) -> bool {
    exists|bs: Seq<OrderBook<N>>|
        #![trigger bs.len()]
        bs.len() == events.len() + 1 && bs[0] == b0 && bs[events.len() as int] == b1 && forall|i: int|
            0 <= i < events.len() ==> applied_at(#[trigger] bs[i], bs[i + 1], events[i], (start + i) as Nanos)
}

/// Volume of the trades `s[a..c]` splits at any `b` in between
pub proof fn lemma_trade_sum_split(s: Seq<Trade>, a: int, b: int, c: int)
    requires
        0 <= a <= b <= c <= s.len(),
    ensures
        trade_sum(s.subrange(a, c)) == trade_sum(s.subrange(a, b)) + trade_sum(s.subrange(b, c)),
    decreases c - b,
{
    if c == b {
        assert(s.subrange(b, c) =~= Seq::<Trade>::empty());
        assert(s.subrange(a, b) =~= s.subrange(a, c));
    } else {
        lemma_trade_sum_split(s, a, b, c - 1);
        assert(s.subrange(a, c).drop_last() =~= s.subrange(a, c - 1));
        assert(s.subrange(b, c).drop_last() =~= s.subrange(b, c - 1));
    }
}

/// Whether a modification replaces the order rather than
/// reducing its volume in place (or doing nothing)
pub open spec fn is_replace(o: Order, new_price: Option<Price>, new_vol: Option<Vol>) -> bool {
    match (new_price, new_vol) {
        (None, None) => false,
        (None, Some(v)) => v >= o.vol,
        _ => true,
    }
}

/// A modification that leaves the order with some volume when it
/// replaces it
pub open spec fn keeps_volume(o: Order, new_price: Option<Price>, new_vol: Option<Vol>) -> bool {
    is_replace(o, new_price, new_vol) ==> replace_vol(o, new_vol) > 0
}

/// Volume of a replaced order
pub open spec fn replace_vol(o: Order, new_vol: Option<Vol>) -> Vol {
    match new_vol {
        Some(v) => v,
        None => o.vol,
    }
}

/// What modifying order `id` of book `b0` leads to in book `b1`
pub open spec fn modified<const N: usize>(
    b0: OrderBook<N>,
    b1: OrderBook<N>,
    id: int,
    new_price: Option<Price>,
    new_vol: Option<Vol>,
) -> bool {
    let e = b0.arena()[id];
    let o = e.order;
    if o.status != Status::Active || (new_price is None && new_vol is None) {
        b1 == b0
    } else if !is_replace(o, new_price, new_vol) {
        &&& b1.arena() == b0.arena().update(
            id,
            OrderEntry { order: Order { vol: new_vol->Some_0, ..o }, key: e.key },
        )
        &&& b1.trade_log() == b0.trade_log()
        &&& b1.tick() == b0.tick()
        &&& b1.time() == b0.time()
        &&& b1.traded() == b0.traded()
        &&& b1.is_trading() == b0.is_trading()
    } else {
        submitted(
            b0,
            b1,
            id,
            Order {
                price: match new_price {
                    Some(p) => p,
                    None => o.price,
                },
                vol: replace_vol(o, new_vol),
                arr_time: b0.time(),
                ..o
            },
        )
    }
}

/// Total volume of a sequence of trades
pub open spec fn trade_sum(s: Seq<Trade>) -> int
    decreases s.len(),
{
    if s.len() == 0 {
        0
    } else {
        trade_sum(s.drop_last()) + s.last().vol
    }
}

/// A trade executed at time `t` by the aggressive order `agg`, which
/// had volume `agg_vol` when it was submitted, against an order resting
/// on the opposite side of the book `arena` the aggressor was submitted to
pub open spec fn trade_from(tr: Trade, t: Nanos, agg: Order, agg_vol: Vol, arena: Seq<OrderEntry>) -> bool {
    &&& tr.t == t
    &&& tr.active_order_id == agg.order_id
    &&& tr.side == opposite(agg.side)
    &&& tr.passive_order_id < arena.len()
    &&& resting(arena[tr.passive_order_id as int], opposite(agg.side))
    &&& tr.price == arena[tr.passive_order_id as int].order.price
    &&& tr.vol <= agg_vol
    &&& tr.vol <= arena[tr.passive_order_id as int].order.vol
    &&& match agg.side {
        Side::Bid => tr.price <= agg.price,
        Side::Ask => tr.price >= agg.price,
    }
}

/// `e1` is the resting order `e0` after `v` of its volume traded at time `t`
pub open spec fn traded_entry(e0: OrderEntry, e1: OrderEntry, v: Vol, t: Nanos) -> bool {
    &&& v <= e0.order.vol
    &&& e1.key == e0.key
    &&& e1.order == (if e0.order.vol == v {
        Order { vol: 0, status: Status::Filled, end_time: t, ..e0.order }
    } else {
        Order { vol: (e0.order.vol - v) as u32, ..e0.order }
    })
}

/// The smaller of two volumes
pub open spec fn min_vol(a: int, b: int) -> int {
    if a < b {
        a
    } else {
        b
    }
}

/// The trades `log[n0..]` and the orders `a1` are what matching an
/// aggressor (id `agg_id`, volume `vol`) at time `t` against the orders
/// `a0` does when the opposite queue is `q0`: the trades take the queue's
/// orders best first, each for the smaller of the aggressor's remaining
/// volume and the passive order's volume; every other order is unchanged
/// and every passive order loses what it traded
pub open spec fn matched(
    a0: Seq<OrderEntry>,
    q0: Seq<QueueEntry>,
    a1: Seq<OrderEntry>,
    log: Seq<Trade>,
    n0: int,
    agg_id: int,
    vol: Vol,
    t: Nanos,
) -> bool {
    &&& forall|k: int|
        n0 <= k < log.len() ==> k - n0 < q0.len() && (#[trigger] log[k]).passive_order_id == q0[k - n0].2
            && log[k].vol == min_vol(
            vol - trade_sum(log.subrange(n0, k)),
            a0[log[k].passive_order_id as int].order.vol as int,
        )
    &&& forall|j: int|
        0 <= j < a0.len() && j != agg_id ==> #[trigger] a1[j] == a0[j] || exists|k: int|
            n0 <= k < log.len() && log[k].passive_order_id == j && traded_entry(a0[j], a1[j], log[k].vol, t)
}

/// One more trade, against the next order of the opposite queue, keeps
/// the matching relation
proof fn lemma_matched_step(
    a0: Seq<OrderEntry>,
    q0: Seq<QueueEntry>,
    a1: Seq<OrderEntry>,
    log1: Seq<Trade>,
    tr: Trade,
    x: OrderEntry,
    n0: int,
    agg_id: int,
    vol: Vol,
    t: Nanos,
)
    requires
        matched(a0, q0, a1, log1, n0, agg_id, vol, t),
        0 <= n0 <= log1.len(),
        a1.len() == a0.len(),
        log1.len() - n0 < q0.len(),
        tr.passive_order_id == q0[log1.len() - n0].2,
        0 <= tr.passive_order_id < a0.len(),
        tr.passive_order_id != agg_id,
        a1[tr.passive_order_id as int] == a0[tr.passive_order_id as int],
        tr.vol == min_vol(vol - trade_sum(log1.subrange(n0, log1.len() as int)), a0[tr.passive_order_id as int].order.vol as int),
        traded_entry(a0[tr.passive_order_id as int], x, tr.vol, t),
    ensures
        matched(a0, q0, a1.update(tr.passive_order_id as int, x), log1.push(tr), n0, agg_id, vol, t),
{
    let log2 = log1.push(tr);
    let a2 = a1.update(tr.passive_order_id as int, x);
    let id = tr.passive_order_id as int;
    assert forall|k: int| n0 <= k < log2.len() implies k - n0 < q0.len() && (#[trigger] log2[k]).passive_order_id
        == q0[k - n0].2 && log2[k].vol == min_vol(
        vol - trade_sum(log2.subrange(n0, k)),
        a0[log2[k].passive_order_id as int].order.vol as int,
    ) by {
        assert(log2.subrange(n0, k) == log1.subrange(n0, k));
        if k < log1.len() {
            assert(log2[k] == log1[k]);
        }
    }
    assert forall|j: int| 0 <= j < a0.len() && j != agg_id implies #[trigger] a2[j] == a0[j] || exists|k: int|
        n0 <= k < log2.len() && log2[k].passive_order_id == j && traded_entry(a0[j], a2[j], log2[k].vol, t) by {
        if j == id {
            assert(log2[log1.len() as int] == tr);
        } else {
            assert(a2[j] == a1[j]);
            if a1[j] != a0[j] {
                let k = choose|k: int|
                    n0 <= k < log1.len() && log1[k].passive_order_id == j && traded_entry(a0[j], a1[j], log1[k].vol, t);
                assert(log2[k] == log1[k]);
            }
        }
    }
}

/// Fields of an order that matching leaves alone
pub open spec fn same_terms(a: Order, b: Order) -> bool {
    &&& a.side == b.side
    &&& a.price == b.price
    &&& a.arr_time == b.arr_time
    &&& a.start_vol == b.start_vol
    &&& a.trader_id == b.trader_id
    &&& a.order_id == b.order_id
}

/// Appending an order that does not rest changes no resting aggregate
pub proof fn lemma_push_not_resting(s: Seq<OrderEntry>, x: OrderEntry, side: Side)
    requires
        x.order.status != Status::Active,
    ensures
        resting_vol(s.push(x), side) == resting_vol(s, side),
        resting_count(s.push(x), side) == resting_count(s, side),
        forall|pk: Price| #[trigger] resting_vol_at(s.push(x), side, pk) == resting_vol_at(s, side, pk),
{
    lemma_rest_push(s, x, side, None, false);
    lemma_rest_push(s, x, side, None, true);
    assert forall|pk: Price| #[trigger] resting_vol_at(s.push(x), side, pk) == resting_vol_at(s, side, pk) by {
        lemma_rest_push(s, x, side, Some(pk), false);
    }
}

/// A well-formed book can be rebuilt from its snapshot
pub proof fn lemma_snapshot_ok<const N: usize>(b: OrderBook<N>)
    requires
        b.wf(),
        b.arena().len() <= OrderCount::MAX,
    ensures
        snapshot_ok(b.tick(), b.arena()),
{
    b.bids().lemma_total_bound();
    b.asks().lemma_total_bound();
}

/// A book rebuilt from the orders of another shows the same market:
/// touch prices, side volumes, and touch volumes and order counts; where
/// no two orders resting on a side arrived at one time at one price, the
/// same order has priority on that side
pub proof fn lemma_snapshot_round_trip<const N: usize>(b: OrderBook<N>, r: OrderBook<N>)
    requires
        b.wf(),
        r.wf(),
        r.arena() == b.arena(),
    ensures
        r.best_bid() == b.best_bid(),
        r.best_ask() == b.best_ask(),
        r.bids().total() == b.bids().total(),
        r.asks().total() == b.asks().total(),
        r.bids().level_vol(r.bids().best_key()) == b.bids().level_vol(b.bids().best_key()),
        r.asks().level_vol(r.asks().best_key()) == b.asks().level_vol(b.asks().best_key()),
        r.bids().level_count(r.bids().best_key()) == b.bids().level_count(b.bids().best_key()),
        r.asks().level_count(r.asks().best_key()) == b.asks().level_count(b.asks().best_key()),
        distinct_keys(b.arena(), Side::Bid) ==> r.bids().queue().len() == 0 || r.bids().queue()[0]
            == b.bids().queue()[0],
        distinct_keys(b.arena(), Side::Ask) ==> r.asks().queue().len() == 0 || r.asks().queue()[0]
            == b.asks().queue()[0],
{
    lemma_side_determined(b.arena(), Side::Bid, b.bids(), r.bids());
    lemma_side_determined(b.arena(), Side::Ask, b.asks(), r.asks());
}

} // verus!
