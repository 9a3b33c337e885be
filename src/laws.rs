//! Properties that hold of every well-formed book and of every placement
use vstd::prelude::*;

use crate::orderbook::{
    entry_wf, placed, rest_sum, resting, resting_vol, trade_from, trade_sum, OrderBook,
    OrderEntry, lemma_rest_push,
};
use crate::side::{count_at, key_le, lemma_count_remove, QueueEntry};
use crate::types::{Price, Side, Status};

verus! {

/// Total volume of the active orders of an arena
pub open spec fn active_vol(s: Seq<OrderEntry>) -> int
    decreases s.len(),
{
    if s.len() == 0 {
        0
    } else {
        active_vol(s.drop_last()) + (if s.last().order.status == Status::Active {
            s.last().order.vol as int
        } else {
            0
        })
    }
}

/// The active volume splits into the volume resting on each side
pub proof fn lemma_active_vol_split(s: Seq<OrderEntry>)
    ensures
        active_vol(s) == resting_vol(s, Side::Bid) + resting_vol(s, Side::Ask),
    decreases s.len(),
{
    if s.len() > 0 {
        lemma_active_vol_split(s.drop_last());
    }
}

/// The volume of the active orders of a book is the sum of its bid and
/// ask side totals.
pub proof fn lemma_active_volume<const N: usize>(b: OrderBook<N>)
    requires
        b.wf(),
    ensures
        active_vol(b.arena()) == b.bids().total() + b.asks().total(),
{
    lemma_active_vol_split(b.arena());
}

/// Number of orders of an arena resting on a side at a price key
pub open spec fn resting_count_at(s: Seq<OrderEntry>, side: Side, pk: Price) -> int {
    rest_sum(s, side, Some(pk), true)
}

/// A duplicate-free queue holding exactly the resting orders of an arena
/// counts, at each price key, the orders resting there
proof fn lemma_queue_counts(q: Seq<QueueEntry>, a: Seq<OrderEntry>, side: Side, pk: Price)
    requires
        q.no_duplicates(),
        a.len() <= usize::MAX,
        forall|e: QueueEntry|
            #[trigger] q.contains(e) <==> (e.2 < a.len() && resting(a[e.2 as int], side) && a[e.2 as int].key
                == (side, e.0, e.1)),
    ensures
        count_at(q, pk) == resting_count_at(a, side, pk),
    decreases a.len(),
{
    if a.len() == 0 {
        if q.len() > 0 {
            assert(q.contains(q[0]));
        }
    } else {
        let n = (a.len() - 1) as int;
        let ap = a.drop_last();
        let x = a[n];
        if resting(x, side) {
            let e = (x.key.1, x.key.2, n as usize);
            assert(q.contains(e));
            let m = choose|m: int| 0 <= m < q.len() && q[m] == e;
            let qp = q.remove(m);
            assert forall|f: QueueEntry| #[trigger] qp.contains(f) <==> (f.2 < ap.len() && resting(
                ap[f.2 as int],
                side,
            ) && ap[f.2 as int].key == (side, f.0, f.1)) by {
                if qp.contains(f) {
                    let k = choose|k: int| 0 <= k < qp.len() && qp[k] == f;
                    let k2 = if k < m { k } else { k + 1 };
                    assert(q[k2] == f && k2 != m);
                    assert(q.contains(f));
                    if f.2 == n {
                        assert(f == e);
                    }
                }
                if f.2 < ap.len() && resting(ap[f.2 as int], side) && ap[f.2 as int].key == (side, f.0, f.1) {
                    assert(ap[f.2 as int] == a[f.2 as int]);
                    assert(q.contains(f));
                    let k = choose|k: int| 0 <= k < q.len() && q[k] == f;
                    assert(k != m);
                    if k < m {
                        assert(qp[k] == f);
                    } else {
                        assert(qp[k - 1] == f);
                    }
                }
            }
            assert(qp.no_duplicates()) by {
                assert forall|i: int, j: int| 0 <= i < qp.len() && 0 <= j < qp.len() && i != j implies qp[i]
                    != qp[j] by {
                    let i2 = if i < m { i } else { i + 1 };
                    let j2 = if j < m { j } else { j + 1 };
                    assert(qp[i] == q[i2] && qp[j] == q[j2]);
                }
            }
            lemma_queue_counts(qp, ap, side, pk);
            lemma_count_remove(q, m, pk);
            assert(a.drop_last().push(x) =~= a);
            lemma_rest_push(ap, x, side, Some(pk), true);
        } else {
            assert forall|f: QueueEntry| #[trigger] q.contains(f) <==> (f.2 < ap.len() && resting(
                ap[f.2 as int],
                side,
            ) && ap[f.2 as int].key == (side, f.0, f.1)) by {
                if q.contains(f) {
                    assert(f.2 != n);
                    assert(ap[f.2 as int] == a[f.2 as int]);
                }
                if f.2 < ap.len() {
                    assert(ap[f.2 as int] == a[f.2 as int]);
                }
            }
            lemma_queue_counts(q, ap, side, pk);
            assert(a.drop_last().push(x) =~= a);
            lemma_rest_push(ap, x, side, Some(pk), true);
        }
    }
}

/// At every price level of either side, the level's volume and order count
/// are the total volume and the number of the orders resting there.
pub proof fn lemma_level_aggregates<const N: usize>(b: OrderBook<N>, side: Side, pk: Price)
    requires
        b.wf(),
    ensures
        b.side_index(side).level_vol(pk) == rest_sum(b.arena(), side, Some(pk), false),
        b.side_index(side).level_count(pk) == resting_count_at(b.arena(), side, pk),
{
    let sd = b.side_index(side);
    sd.lemma_queue_distinct();
    assert forall|e: QueueEntry|
        #[trigger] sd.queue().contains(e) <==> (e.2 < b.arena().len() && resting(b.arena()[e.2 as int], side)
            && b.arena()[e.2 as int].key == (side, e.0, e.1)) by {
        if e.2 < b.arena().len() && resting(b.arena()[e.2 as int], side) && b.arena()[e.2 as int].key == (
        side,
        e.0,
        e.1,
        ) {
            let j = e.2 as int;
            assert(resting(b.arena()[j], side));
            assert(sd.queue().contains((b.arena()[j].key.1, b.arena()[j].key.2, j as usize)));
        }
    }
    lemma_queue_counts(sd.queue(), b.arena(), side, pk);
}

/// Every trade of a placement is executed at the price of its passive
/// order, which rested on the opposite side when the order was placed,
/// at a price no worse than the placed order's limit, for at most the
/// volumes of both orders and the placed order's start volume; the
/// book's trade volume grows by the volume of the new trades.
pub proof fn lemma_placement_trades<const N: usize>(b0: OrderBook<N>, b1: OrderBook<N>, id: int)
    requires
        b0.wf(),
        0 <= id < b0.arena().len(),
        b0.order_at(id).status == Status::New,
        placed(b0, b1, id),
    ensures
        b1.traded() - b0.traded() == trade_sum(
            b1.trade_log().subrange(b0.trade_log().len() as int, b1.trade_log().len() as int),
        ),
        forall|k: int|
            b0.trade_log().len() <= k < b1.trade_log().len() ==> {
                let tr = #[trigger] b1.trade_log()[k];
                let p = b0.arena()[tr.passive_order_id as int].order;
                &&& tr.active_order_id == id
                &&& tr.price == p.price
                &&& p.status == Status::Active
                &&& p.side != b0.order_at(id).side
                &&& tr.vol <= p.vol
                &&& tr.vol <= b0.order_at(id).vol
                &&& tr.vol <= b0.order_at(id).start_vol
                &&& match b0.order_at(id).side {
                    Side::Bid => tr.price <= b0.order_at(id).price,
                    Side::Ask => tr.price >= b0.order_at(id).price,
                }
            },
{
    assert forall|k: int| b0.trade_log().len() <= k < b1.trade_log().len() implies {
        let tr = #[trigger] b1.trade_log()[k];
        let p = b0.arena()[tr.passive_order_id as int].order;
        &&& tr.active_order_id == id
        &&& tr.price == p.price
        &&& p.status == Status::Active
        &&& p.side != b0.order_at(id).side
        &&& tr.vol <= p.vol
        &&& tr.vol <= b0.order_at(id).vol
        &&& tr.vol <= b0.order_at(id).start_vol
        &&& match b0.order_at(id).side {
            Side::Bid => tr.price <= b0.order_at(id).price,
            Side::Ask => tr.price >= b0.order_at(id).price,
        }
    } by {
        let tr = b1.trade_log()[k];
        assert(trade_from(tr, b0.time(), b1.order_at(id), b0.order_at(id).vol, b0.arena()));
        let j = tr.passive_order_id as int;
        assert(crate::orderbook::entry_wf(b0.arena()[j], j));
        assert(entry_wf(b0.arena()[id], id));
    }
}

/// Among orders resting on one side at one price, an order placed (or
/// last replaced) earlier has priority: the queue lists resting orders
/// by price key, then by arrival time.
pub proof fn lemma_time_priority<const N: usize>(b: OrderBook<N>, side: Side, i: int, j: int)
    requires
        b.wf(),
        0 <= i < j < b.side_index(side).queue().len(),
        b.side_index(side).queue()[i].0 == b.side_index(side).queue()[j].0,
    ensures
        b.order_at(b.side_index(side).queue()[i].2 as int).arr_time <= b.order_at(
            b.side_index(side).queue()[j].2 as int,
        ).arr_time,
        b.order_at(b.side_index(side).queue()[i].2 as int).status == Status::Active,
        b.order_at(b.side_index(side).queue()[j].2 as int).status == Status::Active,
{
    let q = b.side_index(side).queue();
    assert(q.contains(q[i]));
    assert(q.contains(q[j]));
    assert(key_le(q[i].0, q[i].1, q[j].0, q[j].1));
    assert(entry_wf(b.arena()[q[i].2 as int], q[i].2 as int));
    assert(entry_wf(b.arena()[q[j].2 as int], q[j].2 as int));
}

} // verus!
