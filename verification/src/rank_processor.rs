//! `rank` and `dense_rank` over rows sorted by partition and order keys.

use crate::scan::{lemma_scan_outputs, scan_outputs, scan_state};
use crate::arrays::{rank_array_from, rank_array_slots, RankArray};
use crate::rows::{batch_keys, batch_readable, bytes_eq, row_data, rows_readable, RowKey};
use arrow::row::Rows;
use vstd::prelude::*;
use vstd::slice::slice_to_vec;

verus! {

/// The state of a rank computation: the partition and order keys of the
/// last row seen, its rank, and how many rows in a row carried that order
/// key (its peers).
pub struct RankState {
    pub partition: Seq<u8>,
    pub order: Seq<u8>,
    pub rank: int,
    pub equals: int,
    pub dense: bool,
}

/// A state that processing can start from: ranks are not negative and the
/// last peer group holds at least one row.
pub open spec fn rank_state_wf(s: RankState) -> bool {
    s.rank >= 0 && s.equals >= 1
}

/// Whether the row with partition key `key` stays in partition `cur`:
/// always, where the window is not partitioned.
pub open spec fn stays_in_partition(cur: Seq<u8>, key: RowKey) -> bool {
    match key.partition {
        None => true,
        Some(p) => p == cur,
    }
}

/// The state after one more row. A new partition starts again at rank 1;
/// a peer of the last row keeps its rank; any other row moves past the
/// last peer group (`rank`) or by one (`dense_rank`).
pub open spec fn rank_step(s: RankState, key: RowKey) -> RankState {
    if stays_in_partition(s.partition, key) {
        if key.order == s.order {
            RankState { equals: s.equals + 1, ..s }
        } else {
            RankState {
                rank: s.rank + if s.dense {
                    1
                } else {
                    s.equals
                },
                equals: 1,
                order: key.order,
                ..s
            }
        }
    } else {
        RankState {
            partition: key.partition.unwrap(),
            order: key.order,
            rank: 1,
            equals: 1,
            dense: s.dense,
        }
    }
}

/// `rank_step` as a function value.
pub open spec fn rank_stepper() -> spec_fn(RankState, RowKey) -> RankState {
    |s: RankState, key: RowKey| rank_step(s, key)
}

/// The rank a state gives its last row.
pub open spec fn rank_of() -> spec_fn(RankState) -> int {
    |s: RankState| s.rank
}

/// The state after the rows `keys`.
pub open spec fn rank_run(s: RankState, keys: Seq<RowKey>) -> RankState {
    scan_state(rank_stepper(), s, keys)
}

/// The rank given to each of the rows `keys`.
pub open spec fn rank_values(s: RankState, keys: Seq<RowKey>) -> Seq<int> {
    scan_outputs(rank_stepper(), rank_of(), s, keys)
}

/// Whether a state's counters fit in `i32`.
pub open spec fn rank_state_fits(s: RankState) -> bool {
    s.rank <= i32::MAX && s.equals <= i32::MAX
}

/// Whether every state reached while ranking `keys` fits in `i32`.
pub open spec fn rank_fits(s: RankState, keys: Seq<RowKey>) -> bool {
    forall|k: int| 0 < k <= keys.len() ==> rank_state_fits(#[trigger] rank_run(s, keys.take(k)))
}

/// A state fits exactly when its rank and its peer count are both at most
/// `i32::MAX`, whether it ranks densely or not.
pub proof fn law_rank_state_fits(s: RankState)
    ensures
        rank_state_fits(s) <==> (s.rank <= i32::MAX && s.equals <= i32::MAX),
{
}

/// Rank and peer count together grow by at most one per row.
pub proof fn lemma_rank_run_bound(s: RankState, keys: Seq<RowKey>)
    requires
        rank_state_wf(s),
    ensures
        rank_state_wf(rank_run(s, keys)),
        rank_run(s, keys).rank + rank_run(s, keys).equals <= s.rank + s.equals + keys.len(),
    decreases keys.len(),
{
    if keys.len() > 0 {
        lemma_rank_run_bound(s, keys.drop_last());
    }
}

/// Ranking never overflows while there is room for one more per row: from
/// a state whose rank plus peer count plus the number of rows is at most
/// `i32::MAX`, every state reached fits.
pub proof fn law_rank_fits_with_room(s: RankState, keys: Seq<RowKey>)
    requires
        rank_state_wf(s),
        s.rank + s.equals + keys.len() <= i32::MAX,
    ensures
        rank_fits(s, keys),
{
    assert forall|k: int| 0 < k <= keys.len() implies rank_state_fits(
        #[trigger] rank_run(s, keys.take(k)),
    ) by {
        lemma_rank_run_bound(s, keys.take(k));
    }
}

/// A fresh `rank` or `dense_rank` ranks any rows, fewer than `i32::MAX` of
/// them, without overflow.
pub proof fn law_fresh_rank_fits(dense: bool, keys: Seq<RowKey>)
    requires
        keys.len() < i32::MAX,
    ensures
        rank_fits(rank_initial(dense), keys),
{
    law_rank_fits_with_room(rank_initial(dense), keys);
}

pub struct RankProcessor {
    cur_partition: Vec<u8>,
    cur_order: Vec<u8>,
    cur_rank: i32,
    cur_equals: i32,
    is_dense: bool,
}

impl View for RankProcessor {
    type V = RankState;

    closed spec fn view(&self) -> RankState {
        RankState {
            partition: self.cur_partition@,
            order: self.cur_order@,
            rank: self.cur_rank as int,
            equals: self.cur_equals as int,
            dense: self.is_dense,
        }
    }
}

/// The state of a fresh rank computation.
pub open spec fn rank_initial(is_dense: bool) -> RankState {
    RankState { partition: seq![], order: seq![], rank: 0, equals: 1, dense: is_dense }
}

impl RankProcessor {
    pub open spec fn wf(&self) -> bool {
        rank_state_wf(self@)
    }

    /// A processor for `dense_rank` (`is_dense`) or `rank`.
    pub fn new(is_dense: bool) -> (p: Self)
        ensures
            p@ == rank_initial(is_dense),
            p.wf(),
    {
        Self {
            cur_partition: Vec::new(),
            cur_order: Vec::new(),
            cur_rank: 0,
            cur_equals: 1,
            is_dense,
        }
    }

    /// The processor after ranking the first `num_rows` rows of a batch,
    /// with each row's rank; `None` where a counter would pass `i32::MAX`.
    fn ranked(&self, partition_rows: Option<&Rows>, order_rows: &Rows, num_rows: usize) -> (r:
        Option<(RankProcessor, Vec<i32>)>)
        requires
            self.wf(),
            batch_readable(partition_rows, order_rows, num_rows as nat),
        ensures
            r is Some <==> rank_fits(self@, batch_keys(partition_rows, order_rows, num_rows as nat)),
            r matches Some(out) ==> {
                &&& out.0.wf()
                &&& out.0@ == rank_run(self@, batch_keys(partition_rows, order_rows, num_rows as nat))
                &&& out.1@.len() == num_rows
                &&& forall|i: int|
                    0 <= i < num_rows ==> out.1@[i] == rank_values(
                        self@,
                        batch_keys(partition_rows, order_rows, num_rows as nat),
                    )[i]
            },
    {
        let ghost s0 = self@;
        let ghost keys = batch_keys(partition_rows, order_rows, num_rows as nat);
        let mut next = RankProcessor {
            cur_partition: slice_to_vec(self.cur_partition.as_slice()),
            cur_order: slice_to_vec(self.cur_order.as_slice()),
            cur_rank: self.cur_rank,
            cur_equals: self.cur_equals,
            is_dense: self.is_dense,
        };
        let mut ranks: Vec<i32> = Vec::new();
        let mut row_idx: usize = 0;
        while row_idx < num_rows
            invariant
                row_idx <= num_rows,
                keys == batch_keys(partition_rows, order_rows, num_rows as nat),
                batch_readable(partition_rows, order_rows, num_rows as nat),
                s0 == self@,
                next.wf(),
                next@ == rank_run(s0, keys.take(row_idx as int)),
                forall|k: int|
                    0 < k <= row_idx ==> rank_state_fits(#[trigger] rank_run(s0, keys.take(k))),
                ranks@.len() == row_idx,
                forall|i: int|
                    0 <= i < row_idx ==> ranks@[i] == #[trigger] rank_run(s0, keys.take(i + 1)).rank,
            decreases num_rows - row_idx,
        {
            proof {
                assert(keys.take(row_idx + 1).drop_last() =~= keys.take(row_idx as int));
                assert(keys.take(row_idx + 1).last() == keys[row_idx as int]);
            }
            let same_partition = match partition_rows {
                None => true,
                Some(p) => {
                    let partition_row = row_data(p, row_idx);
                    if !bytes_eq(partition_row, next.cur_partition.as_slice()) {
                        next.cur_partition = slice_to_vec(partition_row);
                        false
                    } else {
                        true
                    }
                },
            };
            let order_row = row_data(order_rows, row_idx);
            if same_partition {
                if bytes_eq(order_row, next.cur_order.as_slice()) {
                    match next.cur_equals.checked_add(1) {
                        Some(equals) => {
                            next.cur_equals = equals;
                        },
                        None => {
                            proof {
                                assert(!rank_state_fits(rank_run(s0, keys.take(row_idx + 1))));
                                assert(keys.len() == num_rows);
                                assert(!rank_fits(s0, keys));
                            }
                            return None;
                        },
                    }
                } else {
                    let step = if !next.is_dense {
                        next.cur_equals
                    } else {
                        1
                    };
                    match next.cur_rank.checked_add(step) {
                        Some(rank) => {
                            next.cur_rank = rank;
                        },
                        None => {
                            proof {
                                assert(!rank_state_fits(rank_run(s0, keys.take(row_idx + 1))));
                                assert(keys.len() == num_rows);
                                assert(!rank_fits(s0, keys));
                            }
                            return None;
                        },
                    }
                    next.cur_equals = 1;
                    next.cur_order = slice_to_vec(order_row);
                }
            } else {
                next.cur_rank = 1;
                next.cur_equals = 1;
                next.cur_order = slice_to_vec(order_row);
            }
            ranks.push(next.cur_rank);
            row_idx = row_idx + 1;
        }
        proof {
            assert(keys.take(num_rows as int) =~= keys);
            lemma_scan_outputs(rank_stepper(), rank_of(), s0, keys);
            assert forall|i: int| 0 <= i < num_rows implies ranks@[i] == rank_values(s0, keys)[i] by {
                assert(ranks@[i] == rank_run(s0, keys.take(i + 1)).rank);
            }
        }
        Some((next, ranks))
    }

    /// Ranks the first `num_rows` rows of a batch, continuing from the rows
    /// of earlier batches, and returns each row's rank.
    pub fn process_batch_with(
        &mut self,
        partition_rows: Option<&Rows>,
        order_rows: &Rows,
        num_rows: usize,
    ) -> (ranks: Vec<i32>)
        requires
            old(self).wf(),
            batch_readable(partition_rows, order_rows, num_rows as nat),
            rank_fits(old(self)@, batch_keys(partition_rows, order_rows, num_rows as nat)),
        ensures
            final(self).wf(),
            final(self)@ == rank_run(old(self)@, batch_keys(partition_rows, order_rows, num_rows as nat)),
            ranks@.len() == num_rows,
            forall|i: int|
                0 <= i < num_rows ==> ranks@[i] == rank_values(
                    old(self)@,
                    batch_keys(partition_rows, order_rows, num_rows as nat),
                )[i],
    {
        let (next, ranks) = self.ranked(partition_rows, order_rows, num_rows).unwrap();
        *self = next;
        ranks
    }

    /// Like `process_batch_with`, for any input: `None`, with the processor
    /// unchanged, where `num_rows` rows cannot be read or a counter would
    /// pass `i32::MAX`.
    pub fn checked_process_batch_with(
        &mut self,
        partition_rows: Option<&Rows>,
        order_rows: &Rows,
        num_rows: usize,
    ) -> (ranks: Option<Vec<i32>>)
        requires
            old(self).wf(),
        ensures
            final(self).wf(),
            ranks is Some <==> (batch_readable(partition_rows, order_rows, num_rows as nat)
                && rank_fits(old(self)@, batch_keys(partition_rows, order_rows, num_rows as nat))),
            batch_readable(partition_rows, order_rows, num_rows as nat) && old(self)@.rank + old(
                self,
            )@.equals + num_rows <= i32::MAX ==> ranks is Some,
            ranks is None ==> final(self)@ == old(self)@,
            ranks matches Some(ranks) ==> {
                &&& final(self)@ == rank_run(
                    old(self)@,
                    batch_keys(partition_rows, order_rows, num_rows as nat),
                )
                &&& ranks@.len() == num_rows
                &&& forall|i: int|
                    0 <= i < num_rows ==> ranks@[i] == rank_values(
                        old(self)@,
                        batch_keys(partition_rows, order_rows, num_rows as nat),
                    )[i]
            },
    {
        proof {
            if self@.rank + self@.equals + num_rows <= i32::MAX {
                law_rank_fits_with_room(
                    self@,
                    batch_keys(partition_rows, order_rows, num_rows as nat),
                );
            }
        }
        if !rows_readable(partition_rows, order_rows, num_rows) {
            return None;
        }
        match self.ranked(partition_rows, order_rows, num_rows) {
            Some((next, ranks)) => {
                *self = next;
                Some(ranks)
            },
            None => None,
        }
    }

    /// The rank column of the first `num_rows` rows of a batch, continuing
    /// from the rows of earlier batches; `None`, with the processor
    /// unchanged, where `num_rows` rows cannot be read or a counter would
    /// pass `i32::MAX`.
    pub fn process_batch(&mut self, partition_rows: Option<&Rows>, order_rows: &Rows, num_rows: usize) -> (array: Option<RankArray>)
        requires
            old(self).wf(),
        ensures
            final(self).wf(),
            array is Some <==> (batch_readable(partition_rows, order_rows, num_rows as nat)
                && rank_fits(old(self)@, batch_keys(partition_rows, order_rows, num_rows as nat))),
            batch_readable(partition_rows, order_rows, num_rows as nat) && old(self)@.rank + old(
                self,
            )@.equals + num_rows <= i32::MAX ==> array is Some,
            array is None ==> final(self)@ == old(self)@,
            array matches Some(array) ==> {
                &&& final(self)@ == rank_run(
                    old(self)@,
                    batch_keys(partition_rows, order_rows, num_rows as nat),
                )
                &&& rank_array_slots(array) == rank_values(
                    old(self)@,
                    batch_keys(partition_rows, order_rows, num_rows as nat),
                ).map_values(|r: int| Some(r as i32))
            },
    {
        let ghost keys = batch_keys(partition_rows, order_rows, num_rows as nat);
        let ghost s0 = self@;
        match self.checked_process_batch_with(partition_rows, order_rows, num_rows) {
            Some(ranks) => {
                proof {
                    lemma_scan_outputs(rank_stepper(), rank_of(), s0, keys);
                    assert(ranks@.map_values(|v: i32| Some(v)) =~= rank_values(s0, keys).map_values(
                        |r: int| Some(r as i32),
                    ));
                }
                Some(rank_array_from(ranks))
            },
            None => None,
        }
    }
}

} // verus!
