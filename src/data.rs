//! Market data recording
use vstd::prelude::*;

use crate::types::{Level2Data, OrderCount, Price, Vol};

verus! {

/// Market data history recording
///
/// History of level 2 data, one entry per record, kept column-wise.
/// The per-level histories hold `N` columns, one per price level.
pub struct Level2DataRecords<const N: usize> {
    /// Touch price histories (bid, ask)
    pub prices: (Vec<Price>, Vec<Price>),
    /// Total volume histories (bid, ask)
    pub volumes: (Vec<Vol>, Vec<Vol>),
    /// Volumes at price levels (bid, ask)
    pub volumes_at_levels: (Vec<Vec<Vol>>, Vec<Vec<Vol>>),
    /// Numbers of orders at price levels (bid, ask)
    pub orders_at_levels: (Vec<Vec<OrderCount>>, Vec<Vec<OrderCount>>),
}

/// A level 2 record with `N` levels per side
pub open spec fn record_wf<const N: usize>(r: Level2Data<N>) -> bool {
    r.bid_price_levels@.len() == N && r.ask_price_levels@.len() == N
}

impl<const N: usize> Level2DataRecords<N> {
    /// Number of records held
    pub open spec fn len(self) -> nat {
        self.prices.0@.len()
    }

    /// Every column holds one entry per record
    pub open spec fn wf(self) -> bool {
        &&& self.prices.1@.len() == self.len()
        &&& self.volumes.0@.len() == self.len()
        &&& self.volumes.1@.len() == self.len()
        &&& self.volumes_at_levels.0@.len() == N
        &&& self.volumes_at_levels.1@.len() == N
        &&& self.orders_at_levels.0@.len() == N
        &&& self.orders_at_levels.1@.len() == N
        &&& forall|i: int|
            0 <= i < N ==> (#[trigger] self.volumes_at_levels.0@[i])@.len() == self.len()
                && self.volumes_at_levels.1@[i]@.len() == self.len()
                && self.orders_at_levels.0@[i]@.len() == self.len()
                && self.orders_at_levels.1@[i]@.len() == self.len()
    }

    /// Record `k` holds the values of a level 2 snapshot
    pub open spec fn holds(self, k: int, r: Level2Data<N>) -> bool {
        &&& self.prices.0@[k] == r.bid_price
        &&& self.prices.1@[k] == r.ask_price
        &&& self.volumes.0@[k] == r.bid_vol
        &&& self.volumes.1@[k] == r.ask_vol
        &&& forall|i: int|
            0 <= i < N ==> (#[trigger] self.volumes_at_levels.0@[i])@[k] == r.bid_price_levels@[i].0
                && self.orders_at_levels.0@[i]@[k] == r.bid_price_levels@[i].1
                && self.volumes_at_levels.1@[i]@[k] == r.ask_price_levels@[i].0
                && self.orders_at_levels.1@[i]@[k] == r.ask_price_levels@[i].1
    }

    /// Initialise an empty set of records
    pub fn new() -> (r: Self)
        ensures
            r.wf(),
            r.len() == 0,
    {
        Level2DataRecords {
            prices: (Vec::new(), Vec::new()),
            volumes: (Vec::new(), Vec::new()),
            volumes_at_levels: (empty_columns(N), empty_columns(N)),
            orders_at_levels: (empty_columns(N), empty_columns(N)),
        }
    }

    /// Append a record to the history
    pub fn append_record(&mut self, record: &Level2Data<N>)
        requires
            old(self).wf(),
            record_wf(*record),
        ensures
            final(self).wf(),
            final(self).len() == old(self).len() + 1,
            final(self).holds(old(self).len() as int, *record),
            forall|k: int| 0 <= k < old(self).len() ==> #[trigger] final(self).prices.0@[k] == old(self).prices.0@[k]
                && final(self).prices.1@[k] == old(self).prices.1@[k]
                && final(self).volumes.0@[k] == old(self).volumes.0@[k]
                && final(self).volumes.1@[k] == old(self).volumes.1@[k],
            forall|i: int, k: int| 0 <= i < N && 0 <= k < old(self).len() ==>
                (#[trigger] final(self).volumes_at_levels.0@[i]@[k]) == old(self).volumes_at_levels.0@[i]@[k]
                && final(self).volumes_at_levels.1@[i]@[k] == old(self).volumes_at_levels.1@[i]@[k]
                && final(self).orders_at_levels.0@[i]@[k] == old(self).orders_at_levels.0@[i]@[k]
                && final(self).orders_at_levels.1@[i]@[k] == old(self).orders_at_levels.1@[i]@[k],
    {
        self.prices.0.push(record.bid_price);
        self.prices.1.push(record.ask_price);
        self.volumes.0.push(record.bid_vol);
        self.volumes.1.push(record.ask_vol);
        push_column_values(&mut self.volumes_at_levels.0, &record.bid_price_levels, true);
        push_column_values(&mut self.orders_at_levels.0, &record.bid_price_levels, false);
        push_column_values(&mut self.volumes_at_levels.1, &record.ask_price_levels, true);
        push_column_values(&mut self.orders_at_levels.1, &record.ask_price_levels, false);
    }
}

/// `n` empty columns
fn empty_columns(n: usize) -> (r: Vec<Vec<u32>>)
    ensures
        r@.len() == n,
        forall|i: int| 0 <= i < n ==> (#[trigger] r@[i])@.len() == 0,
{
    let mut r: Vec<Vec<u32>> = Vec::new();
    let mut i: usize = 0;
    while i < n
        invariant
            0 <= i <= n,
            r@.len() == i,
            forall|k: int| 0 <= k < i ==> (#[trigger] r@[k])@.len() == 0,
        decreases n - i,
    {
        r.push(Vec::new());
        i = i + 1;
    }
    r
}

/// Push, on column `i`, the volume (or the order count) of level `i`
fn push_column_values(columns: &mut Vec<Vec<u32>>, levels: &Vec<(Vol, OrderCount)>, vols: bool)
    requires
        old(columns)@.len() == levels@.len(),
    ensures
        final(columns)@.len() == old(columns)@.len(),
        forall|i: int|
            0 <= i < levels@.len() ==> (#[trigger] final(columns)@[i])@ == old(columns)@[i]@.push(
                if vols {
                    levels@[i].0
                } else {
                    levels@[i].1
                },
            ),
{
    let ghost c0 = columns@;
    let mut i: usize = 0;
    while i < levels.len()
        invariant
            0 <= i <= levels@.len(),
            columns@.len() == c0.len(),
            c0.len() == levels@.len(),
            forall|k: int|
                0 <= k < i ==> (#[trigger] columns@[k])@ == c0[k]@.push(
                    if vols {
                        levels@[k].0
                    } else {
                        levels@[k].1
                    },
                ),
            forall|k: int| i <= k < c0.len() ==> #[trigger] columns@[k] == c0[k],
        decreases levels@.len() - i,
    {
        let v = if vols {
            levels[i].0
        } else {
            levels[i].1
        };
        columns.push(Vec::new());
        let mut column = columns.swap_remove(i);
        column.push(v);
        columns.set(i, column);

        i = i + 1;
    }
}

} // verus!
