//! Data structure tracking the orders on one side of the book
//!
//! Tracks the price-time priority of orders, but also
//! volume at price levels, and total volume on the side.
//! Prices here are side-normalised price keys: the best
//! price level is always the one with the lowest key.
use vstd::prelude::*;

use crate::types::{MAX_PRICE, Nanos, OrderCount, OrderId, OrderKey, Price, Side, Vol};

verus! {

/// An entry of the priority queue: price key, arrival time, order id
pub type QueueEntry = (Price, Nanos, OrderId);

/// An aggregate price level: price key, volume, number of orders
pub type Level = (Price, Vol, OrderCount);

/// Price-time order of two (price key, time) pairs
pub open spec fn key_le(pa: Price, ta: Nanos, pb: Price, tb: Nanos) -> bool {
    pa < pb || (pa == pb && ta <= tb)
}

/// Number of queue entries at a price key
pub open spec fn count_at(s: Seq<QueueEntry>, pk: Price) -> int
    decreases s.len(),
{
    if s.len() == 0 {
        0
    } else {
        count_at(s.drop_last(), pk) + (if s.last().0 == pk { 1int } else { 0int })
    }
}

proof fn lemma_count_concat(a: Seq<QueueEntry>, b: Seq<QueueEntry>, pk: Price)
    ensures
        count_at(a + b, pk) == count_at(a, pk) + count_at(b, pk),
    decreases b.len(),
{
    if b.len() == 0 {
        assert(a + b =~= a);
    } else {
        assert((a + b).drop_last() =~= a + b.drop_last());
        lemma_count_concat(a, b.drop_last(), pk);
    }
}

proof fn lemma_count_single(x: QueueEntry, pk: Price)
    ensures
        count_at(seq![x], pk) == (if x.0 == pk { 1int } else { 0int }),
{
    let s = seq![x];
    assert(s.drop_last() =~= Seq::<QueueEntry>::empty());
    assert(s.last() == x);
    assert(count_at(s.drop_last(), pk) == 0);
}

/// Counting after an insertion at any position
pub proof fn lemma_count_insert(s: Seq<QueueEntry>, i: int, x: QueueEntry, pk: Price)
    requires
        0 <= i <= s.len(),
    ensures
        count_at(s.insert(i, x), pk) == count_at(s, pk) + (if x.0 == pk { 1int } else { 0int }),
{
    assert(s.insert(i, x) =~= s.subrange(0, i) + seq![x] + s.subrange(i, s.len() as int));
    assert(s =~= s.subrange(0, i) + s.subrange(i, s.len() as int));
    lemma_count_concat(s.subrange(0, i) + seq![x], s.subrange(i, s.len() as int), pk);
    lemma_count_concat(s.subrange(0, i), seq![x], pk);
    lemma_count_concat(s.subrange(0, i), s.subrange(i, s.len() as int), pk);
    lemma_count_single(x, pk);
}

/// Counting after a removal at any position
pub proof fn lemma_count_remove(s: Seq<QueueEntry>, i: int, pk: Price)
    requires
        0 <= i < s.len(),
    ensures
        count_at(s.remove(i), pk) == count_at(s, pk) - (if s[i].0 == pk { 1int } else { 0int }),
{
    let r = s.remove(i);
    assert(s =~= r.insert(i, s[i]));
    lemma_count_insert(r, i, s[i], pk);
}

/// A positive count is witnessed by an entry
pub proof fn lemma_count_witness(s: Seq<QueueEntry>, pk: Price)
    requires
        count_at(s, pk) > 0,
    ensures
        exists|i: int| 0 <= i < s.len() && s[i].0 == pk,
    decreases s.len(),
{
    if s.last().0 != pk {
        lemma_count_witness(s.drop_last(), pk);
        let i = choose|i: int| 0 <= i < s.drop_last().len() && s.drop_last()[i].0 == pk;
        assert(s[i].0 == pk);
    } else {
        assert(s[s.len() - 1].0 == pk);
    }
}

/// An entry is counted
pub proof fn lemma_count_positive(s: Seq<QueueEntry>, i: int)
    requires
        0 <= i < s.len(),
    ensures
        count_at(s, s[i].0) > 0,
    decreases s.len(),
{
    lemma_count_nonneg(s.drop_last(), s[i].0);
    if i < s.len() - 1 {
        lemma_count_positive(s.drop_last(), i);
    }
}

/// Counts are never negative
pub proof fn lemma_count_nonneg(s: Seq<QueueEntry>, pk: Price)
    ensures
        count_at(s, pk) >= 0,
    decreases s.len(),
{
    if s.len() > 0 {
        lemma_count_nonneg(s.drop_last(), pk);
    }
}

/// A count is bounded by the number of entries
pub proof fn lemma_count_le_len(s: Seq<QueueEntry>, pk: Price)
    ensures
        count_at(s, pk) <= s.len(),
    decreases s.len(),
{
    if s.len() > 0 {
        lemma_count_le_len(s.drop_last(), pk);
    }
}

/// Two duplicate-free queues with the same entries count alike at every price key
pub proof fn lemma_count_same_entries(q1: Seq<QueueEntry>, q2: Seq<QueueEntry>, pk: Price)
    requires
        q1.no_duplicates(),
        q2.no_duplicates(),
        forall|e: QueueEntry| q1.contains(e) <==> q2.contains(e),
    ensures
        count_at(q1, pk) == count_at(q2, pk),
    decreases q1.len(),
{
    if q1.len() == 0 {
        if q2.len() > 0 {
            assert(q2.contains(q2[0]));
        }
    } else {
        let x = q1.last();
        assert(q1.contains(x));
        let j = choose|j: int| 0 <= j < q2.len() && q2[j] == x;
        let q1p = q1.drop_last();
        let q2p = q2.remove(j);
        assert forall|e: QueueEntry| q1p.contains(e) <==> q2p.contains(e) by {
            if q1p.contains(e) {
                let k = choose|k: int| 0 <= k < q1p.len() && q1p[k] == e;
                assert(q1[k] == e && k != q1.len() - 1);
                assert(q2.contains(e));
                let m = choose|m: int| 0 <= m < q2.len() && q2[m] == e;
                assert(m != j);
                if m < j {
                    assert(q2p[m] == e);
                } else {
                    assert(q2p[m - 1] == e);
                }
            }
            if q2p.contains(e) {
                let k = choose|k: int| 0 <= k < q2p.len() && q2p[k] == e;
                if k < j {
                    assert(q2[k] == e && k != j);
                } else {
                    assert(q2[k + 1] == e && k + 1 != j);
                }
                assert(q1.contains(e));
                let m = choose|m: int| 0 <= m < q1.len() && q1[m] == e;
                assert(m != q1.len() - 1);
                assert(q1p[m] == e);
            }
        }
        assert(q1p.no_duplicates());
        assert(q2p.no_duplicates()) by {
            assert forall|a: int, b: int| 0 <= a < q2p.len() && 0 <= b < q2p.len() && a != b implies q2p[a]
                != q2p[b] by {
                let a2 = if a < j { a } else { a + 1 };
                let b2 = if b < j { b } else { b + 1 };
                assert(q2p[a] == q2[a2] && q2p[b] == q2[b2]);
            }
        }
        lemma_count_same_entries(q1p, q2p, pk);
        lemma_count_remove(q2, j, pk);
    }
}

/// Order book side data structure
pub struct OrderBookSide {
    /// Total volume
    vol: Vol,
    /// Volume and order count at price levels, ordered by price key
    volumes: Vec<Level>,
    /// Price-time priority queue of order ids, ordered by (price key, time)
    orders: Vec<QueueEntry>,
}

impl OrderBookSide {
    /// Priority queue entries, best first
    pub closed spec fn queue(self) -> Seq<QueueEntry> {
        self.orders@
    }

    /// Price levels, best first
    pub closed spec fn levels(self) -> Seq<Level> {
        self.volumes@
    }

    /// Total volume on the side
    pub closed spec fn total(self) -> int {
        self.vol as int
    }

    /// The queue holds an entry with this price key and time
    pub open spec fn has_key(self, pk: Price, t: Nanos) -> bool {
        exists|id: OrderId| self.queue().contains((pk, t, id))
    }

    /// There is a price level at this price key
    pub open spec fn has_level(self, pk: Price) -> bool {
        exists|j: int| 0 <= j < self.levels().len() && self.levels()[j].0 == pk
    }

    /// Index of the level at a price key
    pub open spec fn level_index(self, pk: Price) -> int {
        choose|j: int| 0 <= j < self.levels().len() && self.levels()[j].0 == pk
    }

    /// Aggregate volume at a price key, 0 where there is no level
    pub open spec fn level_vol(self, pk: Price) -> int {
        if self.has_level(pk) {
            self.levels()[self.level_index(pk)].1 as int
        } else {
            0
        }
    }

    /// Number of orders at a price key
    pub open spec fn level_count(self, pk: Price) -> int {
        count_at(self.queue(), pk)
    }

    /// Price key of the best level, the largest price if the side is empty
    pub open spec fn best_key(self) -> Price {
        if self.queue().len() == 0 {
            MAX_PRICE
        } else {
            self.queue()[0].0
        }
    }

    /// The best price key is at most the key of any queued entry
    pub proof fn lemma_best_key_le(self, e: QueueEntry)
        requires
            self.wf(),
            self.queue().contains(e),
        ensures
            self.queue().len() > 0,
            self.best_key() <= e.0,
    {
        let k = choose|k: int| 0 <= k < self.queue().len() && self.queue()[k] == e;
        if k > 0 {
            assert(key_le(self.queue()[0].0, self.queue()[0].1, self.queue()[k].0, self.queue()[k].1));
        }
    }

    /// The total volume fits a volume
    pub proof fn lemma_total_bound(self)
        ensures
            0 <= self.total() <= Vol::MAX,
    {
    }

    /// The queue of a well-formed side holds no entry twice
    pub proof fn lemma_queue_distinct(self)
        requires
            self.wf(),
        ensures
            self.queue().no_duplicates(),
    {
        assert forall|a: int, b: int|
            0 <= a < self.queue().len() && 0 <= b < self.queue().len() && a != b implies self.queue()[a]
            != self.queue()[b] by {
            if a < b {
                assert(self.queue()[a] != self.queue()[b]);
            } else {
                assert(self.queue()[b] != self.queue()[a]);
            }
        }
    }

    /// Well-formedness: both sequences sorted, levels match the queue
    pub open spec fn wf(self) -> bool {
        &&& forall|i: int, j: int|
            0 <= i < j < self.queue().len() ==> key_le(
                (#[trigger] self.queue()[i]).0,
                self.queue()[i].1,
                (#[trigger] self.queue()[j]).0,
                self.queue()[j].1,
            ) && self.queue()[i] != self.queue()[j]
        &&& forall|i: int, j: int|
            0 <= i < j < self.levels().len() ==> (#[trigger] self.levels()[i]).0 < (
            #[trigger] self.levels()[j]).0
        &&& forall|j: int|
            0 <= j < self.levels().len() ==> (#[trigger] self.levels()[j]).2 as int == count_at(
                self.queue(),
                self.levels()[j].0,
            ) && self.levels()[j].2 > 0
        &&& forall|i: int|
            0 <= i < self.queue().len() ==> self.has_level((#[trigger] self.queue()[i]).0)
    }

    /// A level found at an index is the level of its price key
    proof fn lemma_level_at(self, j: int)
        requires
            self.wf(),
            0 <= j < self.levels().len(),
        ensures
            self.has_level(self.levels()[j].0),
            self.level_index(self.levels()[j].0) == j,
            self.level_vol(self.levels()[j].0) == self.levels()[j].1 as int,
    {
        let pk = self.levels()[j].0;
        assert(self.has_level(pk));
        let m = self.level_index(pk);
        if m < j {
            assert(self.levels()[m].0 < self.levels()[j].0);
        } else if m > j {
            assert(self.levels()[j].0 < self.levels()[m].0);
        }
    }

    /// Every counted price key has a level
    proof fn lemma_counted_has_level(self, pk: Price)
        requires
            self.wf(),
            self.level_count(pk) > 0,
        ensures
            self.has_level(pk),
    {
        lemma_count_witness(self.queue(), pk);
        let i = choose|i: int| 0 <= i < self.queue().len() && self.queue()[i].0 == pk;
        assert(self.has_level(self.queue()[i].0));
    }

    /// Initialise an empty side
    pub fn new() -> (r: Self)
        ensures
            r.wf(),
            r.queue().len() == 0,
            r.levels().len() == 0,
            r.total() == 0,
    {
        OrderBookSide { vol: 0, volumes: Vec::new(), orders: Vec::new() }
    }

    /// Insert an order and update volume tracking
    ///
    /// - `key` - Key of the order
    /// - `idx` - Id of the order
    /// - `vol` - Volume of the order
    #[verifier::spinoff_prover]
    #[verifier::rlimit(60)]
    pub fn insert_order(&mut self, key: OrderKey, idx: OrderId, vol: Vol)
        requires
            old(self).wf(),
            !old(self).queue().contains((key.1, key.2, idx)),
            old(self).total() + vol <= Vol::MAX,
            old(self).level_vol(key.1) + vol <= Vol::MAX,
            old(self).level_count(key.1) < OrderCount::MAX,
        ensures
            final(self).wf(),
            forall|k: int|
                0 <= k < old(self).queue().len() && key_le(
                    #[trigger] old(self).queue()[k].0,
                    old(self).queue()[k].1,
                    key.1,
                    key.2,
                ) ==> final(self).queue()[k] == old(self).queue()[k],
            forall|e: QueueEntry|
                final(self).queue().contains(e) <==> (old(self).queue().contains(e) || e == (
                key.1,
                key.2,
                idx,
            )),
            final(self).queue().len() == old(self).queue().len() + 1,
            final(self).total() == old(self).total() + vol,
            final(self).has_level(key.1),
            final(self).level_vol(key.1) == old(self).level_vol(key.1) + vol,
            forall|pk: Price|
                pk != key.1 ==> final(self).has_level(pk) == old(self).has_level(pk)
                    && final(self).level_vol(pk) == old(self).level_vol(pk),
            forall|pk: Price|
                #[trigger] final(self).level_count(pk) == old(self).level_count(pk) + (if pk
                    == key.1 {
                    1int
                } else {
                    0int
                }),
    {
        let pk = key.1;
        let t = key.2;
        let ghost q0 = self.orders@;
        let ghost l0 = self.volumes@;
        let ghost s0 = *self;
        let mut i: usize = 0;
        while i < self.orders.len() && (self.orders[i].0 < pk || (self.orders[i].0 == pk
            && self.orders[i].1 <= t))
            invariant
                self.orders@ == q0,
                0 <= i <= q0.len(),
                forall|k: int| 0 <= k < i ==> key_le(#[trigger] q0[k].0, q0[k].1, pk, t),
            decreases q0.len() - i,
        {
            i = i + 1;
        }
        proof {
            assert forall|k: int| i <= k < q0.len() implies key_le(pk, t, #[trigger] q0[k].0, q0[k].1)
                && !key_le(q0[k].0, q0[k].1, pk, t) by {
                if k > i {
                    assert(key_le(q0[i as int].0, q0[i as int].1, q0[k].0, q0[k].1));
                }
            }
            assert forall|k: int| 0 <= k < q0.len() implies #[trigger] q0[k] != (pk, t, idx) by {
                if q0[k] == (pk, t, idx) {
                    assert(q0.contains((pk, t, idx)));
                }
            }
        }
        self.orders.insert(i, (pk, t, idx));
        let ghost q1 = self.orders@;
        proof {
            assert(q1 == q0.insert(i as int, (pk, t, idx)));
            assert forall|a: int, b: int| 0 <= a < b < q1.len() implies key_le(
                (#[trigger] q1[a]).0,
                q1[a].1,
                (#[trigger] q1[b]).0,
                q1[b].1,
            ) && q1[a] != q1[b] by {
                if b < i {
                } else if b == i {
                    assert(q1[a] == q0[a]);
                } else if a < i {
                    assert(q1[b] == q0[b - 1]);
                } else if a == i {
                    assert(q1[b] == q0[b - 1]);
                } else {
                    assert(q1[a] == q0[a - 1]);
                    assert(q1[b] == q0[b - 1]);
                }
            }
            assert forall|k: int|
                0 <= k < q0.len() && key_le(#[trigger] q0[k].0, q0[k].1, pk, t) implies q1[k]
                == q0[k] by {}
            assert forall|e: QueueEntry| q1.contains(e) <==> (q0.contains(e) || e == (pk, t, idx)) by {
                if q0.contains(e) {
                    let k = choose|k: int| 0 <= k < q0.len() && q0[k] == e;
                    if k < i {
                        assert(q1[k] == e);
                    } else {
                        assert(q1[k + 1] == e);
                    }
                }
                if q1.contains(e) {
                    let k = choose|k: int| 0 <= k < q1.len() && q1[k] == e;
                    if k < i {
                        assert(q0[k] == e);
                    } else if k > i {
                        assert(q0[k - 1] == e);
                    }
                }
                if e == (pk, t, idx) {
                    assert(q1[i as int] == e);
                }
            }
            assert forall|p: Price| #[trigger] count_at(q1, p) == count_at(q0, p) + (if p == pk {
                1int
            } else {
                0int
            }) by {
                lemma_count_insert(q0, i as int, (pk, t, idx), p);
            }
        }
        let mut j: usize = 0;
        while j < self.volumes.len() && self.volumes[j].0 < pk
            invariant
                self.volumes@ == l0,
                0 <= j <= l0.len(),
                forall|m: int| 0 <= m < j ==> (#[trigger] l0[m]).0 < pk,
            decreases l0.len() - j,
        {
            j = j + 1;
        }
        if j < self.volumes.len() && self.volumes[j].0 == pk {
            let lv = self.volumes[j];
            proof {
                s0.lemma_level_at(j as int);
            }
            self.volumes.set(j, (pk, lv.1 + vol, lv.2 + 1));
            let ghost l1 = self.volumes@;
            self.vol = self.vol + vol;
            proof {
                assert(l1 == l0.update(j as int, (pk, (lv.1 + vol) as u32, (lv.2 + 1) as u32)));
                assert forall|m: int| 0 <= m < l1.len() implies (#[trigger] l1[m]).0 == l0[m].0 by {}
                assert forall|p: Price| s0.has_level(p) implies self.has_level(p) by {
                    let m = choose|m: int| 0 <= m < l0.len() && l0[m].0 == p;
                    assert(l1[m].0 == l0[m].0);
                    assert(self.levels()[m].0 == p);
                }
                assert forall|m: int| 0 <= m < l1.len() implies (#[trigger] l1[m]).2 as int
                    == count_at(q1, l1[m].0) && l1[m].2 > 0 by {
                    if m != j {
                        assert(l1[m] == l0[m]);
                    }
                }
                assert forall|a: int, b: int| 0 <= a < b < l1.len() implies (#[trigger] l1[a]).0 < (
                #[trigger] l1[b]).0 by {
                    assert(l0[a].0 < l0[b].0);
                }
                self.lemma_level_at(j as int);
                assert forall|p: Price| p != pk implies self.has_level(p) == s0.has_level(p)
                    && self.level_vol(p) == s0.level_vol(p) by {
                    if s0.has_level(p) {
                        let m = s0.level_index(p);
                        s0.lemma_level_at(m);
                        assert(l1[m] == l0[m]);
                        self.lemma_level_at(m);
                    }
                    if self.has_level(p) {
                        let m = self.level_index(p);
                        assert(l1[m] == l0[m]);
                    }
                }
                assert forall|a: int| 0 <= a < q1.len() implies self.has_level(
                    (#[trigger] q1[a]).0,
                ) by {
                    if q1[a].0 != pk {
                        let e = q1[a];
                        assert(q1.contains(e));
                        let k = choose|k: int| 0 <= k < q0.len() && q0[k] == e;
                        assert(s0.has_level(q0[k].0));
                    } else {
                        assert(l1[j as int].0 == pk);
                        assert(self.levels()[j as int].0 == pk);
                    }
                }
            }
        } else {
            proof {
                assert forall|m: int| j <= m < l0.len() implies pk < (#[trigger] l0[m]).0 by {
                    if m > j {
                        assert(l0[j as int].0 < l0[m].0);
                    }
                }
                assert(!s0.has_level(pk));
            }
            self.volumes.insert(j, (pk, vol, 1));
            let ghost l1 = self.volumes@;
            self.vol = self.vol + vol;
            proof {
                assert(l1 == l0.insert(j as int, (pk, vol, 1u32)));
                assert forall|p: Price| s0.has_level(p) implies self.has_level(p) by {
                    let m = choose|m: int| 0 <= m < l0.len() && l0[m].0 == p;
                    if m < j {
                        assert(l1[m] == l0[m]);
                        assert(self.levels()[m].0 == p);
                    } else {
                        assert(l1[m + 1] == l0[m]);
                        assert(self.levels()[m + 1].0 == p);
                    }
                }
                assert forall|a: int, b: int| 0 <= a < b < l1.len() implies (#[trigger] l1[a]).0 < (
                #[trigger] l1[b]).0 by {
                    if b < j {
                    } else if b == j {
                    } else if a < j {
                        assert(l1[b] == l0[b - 1]);
                    } else if a == j {
                        assert(l1[b] == l0[b - 1]);
                    } else {
                        assert(l1[a] == l0[a - 1]);
                        assert(l1[b] == l0[b - 1]);
                    }
                }
                lemma_count_nonneg(q0, pk);
                assert(count_at(q0, pk) == 0) by {
                    if count_at(q0, pk) > 0 {
                        s0.lemma_counted_has_level(pk);
                    }
                }
                assert forall|m: int| 0 <= m < l1.len() implies (#[trigger] l1[m]).2 as int
                    == count_at(q1, l1[m].0) && l1[m].2 > 0 by {
                    if m < j {
                        assert(l1[m] == l0[m]);
                    } else if m > j {
                        assert(l1[m] == l0[m - 1]);
                    }
                }
                assert forall|a: int| 0 <= a < q1.len() implies self.has_level(
                    (#[trigger] q1[a]).0,
                ) by {
                    if q1[a].0 != pk {
                        let e = q1[a];
                        assert(q1.contains(e));
                        let k = choose|k: int| 0 <= k < q0.len() && q0[k] == e;
                        assert(s0.has_level(q0[k].0));
                    } else {
                        assert(l1[j as int].0 == pk);
                        assert(self.levels()[j as int].0 == pk);
                    }
                }
                self.lemma_level_at(j as int);
                assert forall|p: Price| p != pk implies self.has_level(p) == s0.has_level(p)
                    && self.level_vol(p) == s0.level_vol(p) by {
                    if s0.has_level(p) {
                        let m = s0.level_index(p);
                        s0.lemma_level_at(m);
                        if m < j {
                            assert(l1[m] == l0[m]);
                            self.lemma_level_at(m);
                        } else {
                            assert(l1[m + 1] == l0[m]);
                            self.lemma_level_at(m + 1);
                        }
                    }
                    if self.has_level(p) {
                        let m = self.level_index(p);
                        if m < j {
                            assert(l1[m] == l0[m]);
                        } else {
                            assert(l1[m] == l0[m - 1]);
                        }
                    }
                }
            }
        }
    }

    /// Remove the entry of an order and update volume tracking
    ///
    /// - `key` - Key of the order
    /// - `idx` - Id of the order
    /// - `vol` - Remaining volume of the order to remove
    #[verifier::spinoff_prover]
    #[verifier::rlimit(60)]
    pub fn remove_entry(&mut self, key: OrderKey, idx: OrderId, vol: Vol)
        requires
            old(self).wf(),
            old(self).queue().contains((key.1, key.2, idx)),
            old(self).level_vol(key.1) >= vol,
            old(self).total() >= vol,
        ensures
            final(self).wf(),
            forall|e: QueueEntry|
                final(self).queue().contains(e) <==> (old(self).queue().contains(e) && e != (
                key.1,
                key.2,
                idx,
            )),
            final(self).queue().len() == old(self).queue().len() - 1,
            final(self).total() == old(self).total() - vol,
            final(self).has_level(key.1) == (old(self).level_count(key.1) > 1),
            final(self).has_level(key.1) ==> final(self).level_vol(key.1) == old(self).level_vol(
                key.1,
            ) - vol,
            forall|pk: Price|
                pk != key.1 ==> final(self).has_level(pk) == old(self).has_level(pk)
                    && final(self).level_vol(pk) == old(self).level_vol(pk),
            forall|pk: Price|
                #[trigger] final(self).level_count(pk) == old(self).level_count(pk) - (if pk
                    == key.1 {
                    1int
                } else {
                    0int
                }),
            old(self).queue()[0] == (key.1, key.2, idx) ==> final(self).queue() == old(self).queue().skip(1),
    {
        let pk = key.1;
        let t = key.2;
        let ghost q0 = self.orders@;
        let ghost l0 = self.volumes@;
        let ghost s0 = *self;
        let mut i: usize = 0;
        while i < self.orders.len() && !(self.orders[i].0 == pk && self.orders[i].1 == t
            && self.orders[i].2 == idx)
            invariant
                self.orders@ == q0,
                0 <= i <= q0.len(),
                forall|k: int| 0 <= k < i ==> (#[trigger] q0[k]) != (pk, t, idx),
            decreases q0.len() - i,
        {
            i = i + 1;
        }
        proof {
            let k = choose|k: int| 0 <= k < q0.len() && q0[k] == (pk, t, idx);
            assert(k >= i);
            assert(i < q0.len());
        }
        let ghost removed = q0[i as int];
        self.orders.remove(i);
        let ghost q1 = self.orders@;
        proof {
            assert(q1 == q0.remove(i as int));
            if q0[0] == (pk, t, idx) {
                assert(i == 0);
                assert(q1 =~= q0.skip(1));
            }
            assert forall|a: int, b: int| 0 <= a < b < q1.len() implies key_le(
                (#[trigger] q1[a]).0,
                q1[a].1,
                (#[trigger] q1[b]).0,
                q1[b].1,
            ) && q1[a] != q1[b] by {
                if b < i {
                } else if a < i {
                    assert(q1[b] == q0[b + 1]);
                } else {
                    assert(q1[a] == q0[a + 1]);
                    assert(q1[b] == q0[b + 1]);
                }
            }
            assert forall|e: QueueEntry| q1.contains(e) <==> (q0.contains(e) && e != (pk, t, idx)) by {
                if q0.contains(e) && e != (pk, t, idx) {
                    let k = choose|k: int| 0 <= k < q0.len() && q0[k] == e;
                    if k < i {
                        assert(q1[k] == e);
                    } else {
                        assert(k != i);
                        assert(q1[k - 1] == e);
                    }
                }
                if q1.contains(e) {
                    let k = choose|k: int| 0 <= k < q1.len() && q1[k] == e;
                    if k < i {
                        assert(q0[k] == e);
                        assert(q0[k] != q0[i as int]);
                    } else {
                        assert(q0[k + 1] == e);
                        assert(q0[k + 1] != q0[i as int]);
                    }
                }
            }
            assert forall|p: Price| #[trigger] count_at(q1, p) == count_at(q0, p) - (if p == pk {
                1int
            } else {
                0int
            }) by {
                lemma_count_remove(q0, i as int, p);
            }
            lemma_count_positive(q0, i as int);
            assert(s0.has_level(pk));
        }
        let mut j: usize = 0;
        while j < self.volumes.len() && self.volumes[j].0 < pk
            invariant
                self.volumes@ == l0,
                0 <= j <= l0.len(),
                forall|m: int| 0 <= m < j ==> (#[trigger] l0[m]).0 < pk,
            decreases l0.len() - j,
        {
            j = j + 1;
        }
        proof {
            let m = s0.level_index(pk);
            if m < j {
                assert(l0[m].0 < pk);
            } else if m > j {
                assert(l0[j as int].0 < l0[m].0);
            }
            assert(m == j);
            s0.lemma_level_at(j as int);
        }
        let lv = self.volumes[j];
        self.vol = self.vol - vol;
        if lv.2 == 1 {
            self.volumes.remove(j);
            let ghost l1 = self.volumes@;
            proof {
                assert(l1 == l0.remove(j as int));
                assert forall|a: int, b: int| 0 <= a < b < l1.len() implies (#[trigger] l1[a]).0 < (
                #[trigger] l1[b]).0 by {
                    if b < j {
                    } else if a < j {
                        assert(l1[b] == l0[b + 1]);
                    } else {
                        assert(l1[a] == l0[a + 1]);
                        assert(l1[b] == l0[b + 1]);
                    }
                }
                assert forall|m: int| 0 <= m < l1.len() implies (#[trigger] l1[m]).2 as int
                    == count_at(q1, l1[m].0) && l1[m].2 > 0 by {
                    if m < j {
                        assert(l1[m] == l0[m]);
                        assert(l0[m].0 < l0[j as int].0);
                    } else {
                        assert(l1[m] == l0[m + 1]);
                        assert(l0[j as int].0 < l0[m + 1].0);
                    }
                }
                assert forall|p: Price| p != pk && s0.has_level(p) implies self.has_level(p) by {
                    let m = choose|m: int| 0 <= m < l0.len() && l0[m].0 == p;
                    if m < j {
                        assert(l1[m] == l0[m]);
                        assert(self.levels()[m].0 == p);
                    } else {
                        assert(m != j);
                        assert(l1[m - 1] == l0[m]);
                        assert(self.levels()[m - 1].0 == p);
                    }
                }
                assert(count_at(q1, pk) == 0);
                assert forall|a: int| 0 <= a < q1.len() implies self.has_level(
                    (#[trigger] q1[a]).0,
                ) by {
                    lemma_count_positive(q1, a);
                    let e = q1[a];
                    assert(q1.contains(e));
                    let k = choose|k: int| 0 <= k < q0.len() && q0[k] == e;
                    assert(s0.has_level(q0[k].0));
                }
                assert(!self.has_level(pk)) by {
                    if self.has_level(pk) {
                        let m = self.level_index(pk);
                        if m < j {
                            assert(l1[m] == l0[m]);
                            assert(l0[m].0 < l0[j as int].0);
                        } else {
                            assert(l1[m] == l0[m + 1]);
                            assert(l0[j as int].0 < l0[m + 1].0);
                        }
                    }
                }
                assert forall|p: Price| p != pk implies self.has_level(p) == s0.has_level(p)
                    && self.level_vol(p) == s0.level_vol(p) by {
                    if s0.has_level(p) {
                        let m = s0.level_index(p);
                        s0.lemma_level_at(m);
                        if m < j {
                            self.lemma_level_at(m);
                        } else {
                            self.lemma_level_at(m - 1);
                        }
                    }
                    if self.has_level(p) {
                        let m = self.level_index(p);
                        if m < j {
                            assert(l1[m] == l0[m]);
                        } else {
                            assert(l1[m] == l0[m + 1]);
                        }
                    }
                }
            }
        } else {
            self.volumes.set(j, (pk, lv.1 - vol, lv.2 - 1));
            let ghost l1 = self.volumes@;
            proof {
                assert(l1 == l0.update(j as int, (pk, (lv.1 - vol) as u32, (lv.2 - 1) as u32)));
                assert forall|m: int| 0 <= m < l1.len() implies (#[trigger] l1[m]).0 == l0[m].0 by {}
                assert forall|p: Price| s0.has_level(p) implies self.has_level(p) by {
                    let m = choose|m: int| 0 <= m < l0.len() && l0[m].0 == p;
                    assert(l1[m].0 == l0[m].0);
                    assert(self.levels()[m].0 == p);
                }
                assert forall|m: int| 0 <= m < l1.len() implies (#[trigger] l1[m]).2 as int
                    == count_at(q1, l1[m].0) && l1[m].2 > 0 by {
                    if m != j {
                        assert(l1[m] == l0[m]);
                    }
                }
                assert forall|a: int, b: int| 0 <= a < b < l1.len() implies (#[trigger] l1[a]).0 < (
                #[trigger] l1[b]).0 by {
                    assert(l0[a].0 < l0[b].0);
                }
                assert forall|a: int| 0 <= a < q1.len() implies self.has_level(
                    (#[trigger] q1[a]).0,
                ) by {
                    let e = q1[a];
                    assert(q1.contains(e));
                    let k = choose|k: int| 0 <= k < q0.len() && q0[k] == e;
                    assert(s0.has_level(q0[k].0));
                }
                self.lemma_level_at(j as int);
                assert forall|p: Price| p != pk implies self.has_level(p) == s0.has_level(p)
                    && self.level_vol(p) == s0.level_vol(p) by {
                    if s0.has_level(p) {
                        let m = s0.level_index(p);
                        s0.lemma_level_at(m);
                        assert(l1[m] == l0[m]);
                        self.lemma_level_at(m);
                    }
                    if self.has_level(p) {
                        let m = self.level_index(p);
                        assert(l1[m] == l0[m]);
                    }
                }
            }
        }
    }

    /// Remove the highest priority order with a key and update volume tracking
    ///
    /// - `key` - Key of the order
    /// - `vol` - Remaining volume of the order to remove
    pub fn remove_order(&mut self, key: OrderKey, vol: Vol)
        requires
            old(self).wf(),
            old(self).has_key(key.1, key.2),
            old(self).level_vol(key.1) >= vol,
            old(self).total() >= vol,
        ensures
            final(self).wf(),
            exists|id: OrderId|
                old(self).queue().contains((key.1, key.2, id)) && forall|e: QueueEntry|
                    final(self).queue().contains(e) <==> (old(self).queue().contains(e) && e != (
                    key.1,
                    key.2,
                    id,
                )),
            final(self).total() == old(self).total() - vol,
            final(self).level_count(key.1) == old(self).level_count(key.1) - 1,
            final(self).has_level(key.1) == (old(self).level_count(key.1) > 1),
            final(self).has_level(key.1) ==> final(self).level_vol(key.1) == old(self).level_vol(key.1) - vol,
            forall|pk: Price|
                pk != key.1 ==> final(self).has_level(pk) == old(self).has_level(pk)
                    && final(self).level_vol(pk) == old(self).level_vol(pk),
    {
        let ghost q0 = self.orders@;
        let mut i: usize = 0;
        while i < self.orders.len() && !(self.orders[i].0 == key.1 && self.orders[i].1 == key.2)
            invariant
                self.orders@ == q0,
                0 <= i <= q0.len(),
                forall|k: int| 0 <= k < i ==> !((#[trigger] q0[k]).0 == key.1 && q0[k].1 == key.2),
            decreases q0.len() - i,
        {
            i = i + 1;
        }
        proof {
            let id = choose|id: OrderId| q0.contains((key.1, key.2, id));
            let k = choose|k: int| 0 <= k < q0.len() && q0[k] == (key.1, key.2, id);
            assert(k >= i);
        }
        let idx = self.orders[i].2;
        proof {
            assert(q0[i as int] == (key.1, key.2, idx));
            assert(q0.contains((key.1, key.2, idx)));
        }
        self.remove_entry(key, idx, vol);
    }

    /// Index of the level at a price key, if there is one
    fn find_level(&self, pk: Price) -> (r: Option<usize>)
        requires
            self.wf(),
        ensures
            r.is_some() == self.has_level(pk),
            r.is_some() ==> r.unwrap() == self.level_index(pk) && r.unwrap() < self.levels().len()
                && self.levels()[r.unwrap() as int].0 == pk,
    {
        let mut j: usize = 0;
        while j < self.volumes.len() && self.volumes[j].0 < pk
            invariant
                0 <= j <= self.volumes@.len(),
                forall|m: int| 0 <= m < j ==> (#[trigger] self.volumes@[m]).0 < pk,
            decreases self.volumes@.len() - j,
        {
            j = j + 1;
        }
        if j < self.volumes.len() && self.volumes[j].0 == pk {
            proof {
                self.lemma_level_at(j as int);
            }
            Some(j)
        } else {
            proof {
                if self.has_level(pk) {
                    let m = self.level_index(pk);
                    if m < j {
                        assert(self.volumes@[m].0 < pk);
                    } else if m > j {
                        assert(self.volumes@[j as int].0 < self.volumes@[m].0);
                    }
                }
            }
            None
        }
    }

    /// Manually remove volume at a price level
    ///
    /// - `price` - Price key of the level
    /// - `vol` - Volume to remove
    pub fn remove_vol(&mut self, price: Price, vol: Vol)
        requires
            old(self).wf(),
            old(self).has_level(price),
            old(self).level_vol(price) >= vol,
            old(self).total() >= vol,
        ensures
            final(self).wf(),
            final(self).queue() == old(self).queue(),
            final(self).total() == old(self).total() - vol,
            final(self).has_level(price),
            final(self).level_vol(price) == old(self).level_vol(price) - vol,
            forall|pk: Price|
                pk != price ==> final(self).has_level(pk) == old(self).has_level(pk)
                    && final(self).level_vol(pk) == old(self).level_vol(pk),
    {
        let ghost s0 = *self;
        let ghost l0 = self.volumes@;
        let j = self.find_level(price).unwrap();
        let lv = self.volumes[j];
        self.volumes.set(j, (lv.0, lv.1 - vol, lv.2));
        self.vol = self.vol - vol;
        proof {
            let l1 = self.volumes@;
            assert(l1 == l0.update(j as int, (lv.0, (lv.1 - vol) as u32, lv.2)));
            assert forall|m: int| 0 <= m < l1.len() implies (#[trigger] l1[m]).0 == l0[m].0 && l1[m].2
                == l0[m].2 by {}
            assert forall|p: Price| s0.has_level(p) implies self.has_level(p) by {
                let m = choose|m: int| 0 <= m < l0.len() && l0[m].0 == p;
                assert(l1[m].0 == l0[m].0);
                assert(self.levels()[m].0 == p);
            }
            assert forall|a: int, b: int| 0 <= a < b < l1.len() implies (#[trigger] l1[a]).0 < (
            #[trigger] l1[b]).0 by {
                assert(l0[a].0 < l0[b].0);
            }
            self.lemma_level_at(j as int);
            assert forall|p: Price| p != price implies self.has_level(p) == s0.has_level(p)
                && self.level_vol(p) == s0.level_vol(p) by {
                if s0.has_level(p) {
                    let m = s0.level_index(p);
                    s0.lemma_level_at(m);
                    assert(l1[m] == l0[m]);
                    self.lemma_level_at(m);
                }
                if self.has_level(p) {
                    let m = self.level_index(p);
                    assert(l1[m] == l0[m]);
                }
            }
        }
    }

    /// Best (lowest) price key, the largest price if the side is empty
    pub fn best_price(&self) -> (r: Price)
        ensures
            r == self.best_key(),
    {
        if self.orders.len() == 0 {
            MAX_PRICE
        } else {
            self.orders[0].0
        }
    }

    /// The first level is the level of the best order
    proof fn lemma_first_level(self)
        requires
            self.wf(),
        ensures
            self.queue().len() == 0 <==> self.levels().len() == 0,
            self.queue().len() > 0 ==> self.levels()[0].0 == self.queue()[0].0,
    {
        if self.levels().len() > 0 {
            let pk = self.levels()[0].0;
            lemma_count_witness(self.queue(), pk);
            let i = choose|i: int| 0 <= i < self.queue().len() && self.queue()[i].0 == pk;
            assert(self.has_level(self.queue()[0].0));
            let m = choose|m: int|
                0 <= m < self.levels().len() && self.levels()[m].0 == self.queue()[0].0;
            if m > 0 {
                assert(self.levels()[0].0 < self.levels()[m].0);
            }
            if i > 0 {
                assert(key_le(self.queue()[0].0, self.queue()[0].1, self.queue()[i].0, self.queue()[i].1));
            }
        }
        if self.queue().len() > 0 {
            assert(self.has_level(self.queue()[0].0));
        }
    }

    /// Volume and number of orders at the best price
    pub fn best_vol_and_orders(&self) -> (r: (Vol, OrderCount))
        requires
            self.wf(),
        ensures
            r.0 == self.level_vol(self.best_key()),
            r.1 == self.level_count(self.best_key()),
    {
        proof {
            self.lemma_first_level();
        }
        if self.volumes.len() == 0 {
            proof {
                assert(!self.has_level(MAX_PRICE));
            }
            (0, 0)
        } else {
            proof {
                self.lemma_level_at(0);
            }
            let lv = self.volumes[0];
            (lv.1, lv.2)
        }
    }

    /// Volume at the best price
    pub fn best_vol(&self) -> (r: Vol)
        requires
            self.wf(),
        ensures
            r == self.level_vol(self.best_key()),
    {
        self.best_vol_and_orders().0
    }

    /// Total volume on this side
    pub fn vol(&self) -> (r: Vol)
        ensures
            r == self.total(),
    {
        self.vol
    }

    /// Id of the highest priority order
    pub fn best_order_idx(&self) -> (r: Option<OrderId>)
        ensures
            r == (if self.queue().len() == 0 {
                None
            } else {
                Some(self.queue()[0].2)
            }),
    {
        if self.orders.len() == 0 {
            None
        } else {
            Some(self.orders[0].2)
        }
    }

    /// Volume and number of orders at a price key, zeros where there is no level
    pub fn vol_and_orders_at_price(&self, price: Price) -> (r: (Vol, OrderCount))
        requires
            self.wf(),
        ensures
            r.0 == self.level_vol(price),
            r.1 == self.level_count(price),
    {
        match self.find_level(price) {
            Some(j) => {
                proof {
                    self.lemma_level_at(j as int);
                }
                (self.volumes[j].1, self.volumes[j].2)
            },
            None => {
                proof {
                    lemma_count_nonneg(self.queue(), price);
                    if self.level_count(price) > 0 {
                        self.lemma_counted_has_level(price);
                    }
                }
                (0, 0)
            },
        }
    }
}
/// Functionality common to both sides of a book
pub trait SideFunctionality: Sized {
    /// The index of the side
    spec fn index(&self) -> OrderBookSide;

    /// Price of a price key of the side
    spec fn key_price(key: Price) -> Price;

    /// Initialise an empty side
    fn new() -> (r: Self)
        ensures
            r.index().wf(),
            r.index().queue().len() == 0,
            r.index().levels().len() == 0,
            r.index().total() == 0,
    ;

    /// Insert an order and update volume tracking
    fn insert_order(&mut self, key: OrderKey, idx: OrderId, vol: Vol)
        requires
            old(self).index().wf(),
            !old(self).index().queue().contains((key.1, key.2, idx)),
            old(self).index().total() + vol <= Vol::MAX,
            old(self).index().level_vol(key.1) + vol <= Vol::MAX,
            old(self).index().level_count(key.1) < OrderCount::MAX,
        ensures
            final(self).index().wf(),
            forall|e: QueueEntry|
                final(self).index().queue().contains(e) <==> (old(self).index().queue().contains(e)
                    || e == (key.1, key.2, idx)),
            final(self).index().total() == old(self).index().total() + vol,
            final(self).index().level_vol(key.1) == old(self).index().level_vol(key.1) + vol,
            final(self).index().level_count(key.1) == old(self).index().level_count(key.1) + 1,
    ;

    /// Remove the highest priority order with a key and update volume tracking
    fn remove_order(&mut self, key: OrderKey, vol: Vol)
        requires
            old(self).index().wf(),
            old(self).index().has_key(key.1, key.2),
            old(self).index().level_vol(key.1) >= vol,
            old(self).index().total() >= vol,
        ensures
            final(self).index().wf(),
            exists|id: OrderId|
                old(self).index().queue().contains((key.1, key.2, id)) && forall|e: QueueEntry|
                    final(self).index().queue().contains(e) <==> (old(self).index().queue().contains(e)
                        && e != (key.1, key.2, id)),
            final(self).index().total() == old(self).index().total() - vol,
            final(self).index().level_count(key.1) == old(self).index().level_count(key.1) - 1,
            final(self).index().has_level(key.1) == (old(self).index().level_count(key.1) > 1),
            final(self).index().has_level(key.1) ==> final(self).index().level_vol(key.1) == old(
                self).index().level_vol(key.1) - vol,
            forall|pk: Price|
                pk != key.1 ==> final(self).index().has_level(pk) == old(self).index().has_level(pk)
                    && final(self).index().level_vol(pk) == old(self).index().level_vol(pk),
    ;

    /// Remove volume at the level of a price key
    fn remove_vol(&mut self, price: Price, vol: Vol)
        requires
            old(self).index().wf(),
            old(self).index().has_level(price),
            old(self).index().level_vol(price) >= vol,
            old(self).index().total() >= vol,
        ensures
            final(self).index().wf(),
            final(self).index().queue() == old(self).index().queue(),
            final(self).index().total() == old(self).index().total() - vol,
            final(self).index().level_vol(price) == old(self).index().level_vol(price) - vol,
    ;

    /// Best price of the side
    fn best_price(&self) -> (r: Price)
        ensures
            r == Self::key_price(self.index().best_key()),
    ;

    /// Volume at the best price
    fn best_vol(&self) -> (r: Vol)
        requires
            self.index().wf(),
        ensures
            r == self.index().level_vol(self.index().best_key()),
    ;

    /// Volume and number of orders at the best price
    fn best_vol_and_orders(&self) -> (r: (Vol, OrderCount))
        requires
            self.index().wf(),
        ensures
            r.0 == self.index().level_vol(self.index().best_key()),
            r.1 == self.index().level_count(self.index().best_key()),
    ;

    /// Total volume on the side
    fn vol(&self) -> (r: Vol)
        ensures
            r == self.index().total(),
    ;

    /// Id of the highest priority order
    fn best_order_idx(&self) -> (r: Option<OrderId>)
        ensures
            r == (if self.index().queue().len() == 0 {
                None
            } else {
                Some(self.index().queue()[0].2)
            }),
    ;
}

/// Bid side of a book: price keys are the largest price minus the price
pub struct BidSide(pub(crate) OrderBookSide);

impl BidSide {
    /// The underlying side structure
    pub open(crate) spec fn inner(self) -> OrderBookSide {
        self.0
    }

    /// Volume and number of orders at a price, zeros where there are none
    pub fn vol_and_orders_at_price(&self, price: Price) -> (r: (Vol, OrderCount))
        requires
            self.inner().wf(),
        ensures
            r.0 == self.inner().level_vol((MAX_PRICE - price) as u32),
            r.1 == self.inner().level_count((MAX_PRICE - price) as u32),
    {
        self.0.vol_and_orders_at_price(MAX_PRICE - price)
    }
}

impl SideFunctionality for BidSide {
    open spec fn index(&self) -> OrderBookSide {
        self.inner()
    }

    open spec fn key_price(key: Price) -> Price {
        (MAX_PRICE - key) as u32
    }

    fn new() -> (r: Self) {
        BidSide(OrderBookSide::new())
    }

    fn insert_order(&mut self, key: OrderKey, idx: OrderId, vol: Vol) {
        self.0.insert_order(key, idx, vol)
    }

    fn remove_order(&mut self, key: OrderKey, vol: Vol) {
        self.0.remove_order(key, vol)
    }

    fn remove_vol(&mut self, price: Price, vol: Vol) {
        self.0.remove_vol(price, vol)
    }

    fn best_price(&self) -> (r: Price) {
        MAX_PRICE - self.0.best_price()
    }

    fn best_vol(&self) -> (r: Vol) {
        self.0.best_vol()
    }

    fn best_vol_and_orders(&self) -> (r: (Vol, OrderCount)) {
        self.0.best_vol_and_orders()
    }

    fn vol(&self) -> (r: Vol) {
        self.0.vol()
    }

    fn best_order_idx(&self) -> (r: Option<OrderId>) {
        self.0.best_order_idx()
    }
}

/// Ask side of a book: price keys are the prices
pub struct AskSide(pub(crate) OrderBookSide);

impl AskSide {
    /// The underlying side structure
    pub open(crate) spec fn inner(self) -> OrderBookSide {
        self.0
    }

    /// Volume and number of orders at a price, zeros where there are none
    pub fn vol_and_orders_at_price(&self, price: Price) -> (r: (Vol, OrderCount))
        requires
            self.inner().wf(),
        ensures
            r.0 == self.inner().level_vol(price),
            r.1 == self.inner().level_count(price),
    {
        self.0.vol_and_orders_at_price(price)
    }
}

impl SideFunctionality for AskSide {
    open spec fn index(&self) -> OrderBookSide {
        self.inner()
    }

    open spec fn key_price(key: Price) -> Price {
        key
    }

    fn new() -> (r: Self) {
        AskSide(OrderBookSide::new())
    }

    fn insert_order(&mut self, key: OrderKey, idx: OrderId, vol: Vol) {
        self.0.insert_order(key, idx, vol)
    }

    fn remove_order(&mut self, key: OrderKey, vol: Vol) {
        self.0.remove_order(key, vol)
    }

    fn remove_vol(&mut self, price: Price, vol: Vol) {
        self.0.remove_vol(price, vol)
    }

    fn best_price(&self) -> (r: Price) {
        self.0.best_price()
    }

    fn best_vol(&self) -> (r: Vol) {
        self.0.best_vol()
    }

    fn best_vol_and_orders(&self) -> (r: (Vol, OrderCount)) {
        self.0.best_vol_and_orders()
    }

    fn vol(&self) -> (r: Vol) {
        self.0.vol()
    }

    fn best_order_idx(&self) -> (r: Option<OrderId>) {
        self.0.best_order_idx()
    }
}

/// Price key of a price on a side
pub open spec fn price_key(side: Side, price: Price) -> Price {
    match side {
        Side::Bid => (MAX_PRICE - price) as u32,
        Side::Ask => price,
    }
}

/// Generate a lookup key for a bid-order
///
/// - `t` - Order arrival time
/// - `price` - Price of the order
pub fn get_bid_key(t: Nanos, price: Price) -> (r: OrderKey)
    ensures
        r == (Side::Bid, price_key(Side::Bid, price), t),
{
    (Side::Bid, MAX_PRICE - price, t)
}

/// Generate a lookup key for an ask-order
///
/// - `t` - Order arrival time
/// - `price` - Price of the order
pub fn get_ask_key(t: Nanos, price: Price) -> (r: OrderKey)
    ensures
        r == (Side::Ask, price_key(Side::Ask, price), t),
{
    (Side::Ask, price, t)
}

} // verus!
