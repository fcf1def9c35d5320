//! `row_number` over rows sorted by partition key.

use crate::arrays::{rank_array_from, rank_array_slots, RankArray};
use crate::rows::{bytes_eq, partition_keys, partition_rows_readable, partitions_readable, row_data};
use crate::scan::{lemma_scan_outputs, scan_outputs, scan_state};
use arrow::row::Rows;
use vstd::prelude::*;
use vstd::slice::slice_to_vec;

verus! {

/// The state of a row numbering: the partition key of the last row seen
/// and its number.
pub struct RowNumberState {
    pub partition: Seq<u8>,
    pub number: int,
}

/// The state after one more row: the next number in the same partition,
/// 1 in a new one.
pub open spec fn row_number_step(s: RowNumberState, partition: Option<Seq<u8>>) -> RowNumberState {
    match partition {
        Some(p) => if p == s.partition {
            RowNumberState { number: s.number + 1, ..s }
        } else {
            RowNumberState { partition: p, number: 1 }
        },
        None => RowNumberState { number: s.number + 1, ..s },
    }
}

/// `row_number_step` as a function value.
pub open spec fn row_number_stepper() -> spec_fn(RowNumberState, Option<Seq<u8>>) -> RowNumberState {
    |s: RowNumberState, partition: Option<Seq<u8>>| row_number_step(s, partition)
}

/// The number a state gives its last row.
pub open spec fn row_number_of() -> spec_fn(RowNumberState) -> int {
    |s: RowNumberState| s.number
}

/// The state after rows with the partition keys `keys`.
pub open spec fn row_number_run(s: RowNumberState, keys: Seq<Option<Seq<u8>>>) -> RowNumberState {
    scan_state(row_number_stepper(), s, keys)
}

/// The number given to each of the rows with the partition keys `keys`.
pub open spec fn row_number_values(s: RowNumberState, keys: Seq<Option<Seq<u8>>>) -> Seq<int> {
    scan_outputs(row_number_stepper(), row_number_of(), s, keys)
}

/// Whether every number given to the rows `keys` fits in `i32`.
pub open spec fn row_number_fits(s: RowNumberState, keys: Seq<Option<Seq<u8>>>) -> bool {
    forall|k: int| 0 < k <= keys.len() ==> #[trigger] row_number_run(s, keys.take(k)).number <= i32::MAX
}

/// The state of a fresh row numbering.
pub open spec fn row_number_initial() -> RowNumberState {
    RowNumberState { partition: seq![], number: 0 }
}

/// A row number grows by at most one per row.
pub proof fn lemma_row_number_run_bound(s: RowNumberState, keys: Seq<Option<Seq<u8>>>)
    requires
        s.number >= 0,
    ensures
        0 <= row_number_run(s, keys).number <= s.number + keys.len(),
    decreases keys.len(),
{
    if keys.len() > 0 {
        lemma_row_number_run_bound(s, keys.drop_last());
    }
}

/// Numbering never overflows while there is room for one more per row:
/// from a state whose number plus the number of rows is at most
/// `i32::MAX`, every number fits.
pub proof fn law_row_number_fits_with_room(s: RowNumberState, keys: Seq<Option<Seq<u8>>>)
    requires
        s.number >= 0,
        s.number + keys.len() <= i32::MAX,
    ensures
        row_number_fits(s, keys),
        forall|k: int|
            0 < k <= keys.len() ==> #[trigger] row_number_run(s, keys.take(k)).number <= i32::MAX,
{
    assert forall|k: int| 0 < k <= keys.len() implies #[trigger] row_number_run(
        s,
        keys.take(k),
    ).number <= i32::MAX by {
        lemma_row_number_run_bound(s, keys.take(k));
    }
}

/// A fresh row numbering numbers any rows, up to `i32::MAX` of them,
/// without overflow.
pub proof fn law_fresh_row_number_fits(keys: Seq<Option<Seq<u8>>>)
    requires
        keys.len() <= i32::MAX,
    ensures
        row_number_fits(row_number_initial(), keys),
{
    law_row_number_fits_with_room(row_number_initial(), keys);
}

pub struct RowNumberProcessor {
    cur_partition: Vec<u8>,
    cur_row_number: i32,
}

impl View for RowNumberProcessor {
    type V = RowNumberState;

    closed spec fn view(&self) -> RowNumberState {
        RowNumberState { partition: self.cur_partition@, number: self.cur_row_number as int }
    }
}

impl RowNumberProcessor {
    pub open spec fn wf(&self) -> bool {
        self@.number >= 0
    }

    pub fn new() -> (p: Self)
        ensures
            p@ == row_number_initial(),
            p.wf(),
    {
        Self { cur_partition: Vec::new(), cur_row_number: 0 }
    }

    /// The processor after numbering the first `num_rows` rows of a batch,
    /// with each row's number; `None` where a number would pass `i32::MAX`.
    fn numbered(&self, partition_rows: Option<&Rows>, num_rows: usize) -> (r:
        Option<(RowNumberProcessor, Vec<i32>)>)
        requires
            self.wf(),
            partitions_readable(partition_rows, num_rows as nat),
        ensures
            r is Some <==> row_number_fits(
                self@,
                partition_keys(partition_rows, num_rows as nat),
            ),
            r matches Some(out) ==> {
                &&& out.0.wf()
                &&& out.0@ == row_number_run(
                    self@,
                    partition_keys(partition_rows, num_rows as nat),
                )
                &&& out.1@.len() == num_rows
                &&& forall|i: int|
                    0 <= i < num_rows ==> out.1@[i] == row_number_values(
                        self@,
                        partition_keys(partition_rows, num_rows as nat),
                    )[i]
            },
    {
        let ghost s0 = self@;
        let ghost keys = partition_keys(partition_rows, num_rows as nat);
        let mut next = RowNumberProcessor {
            cur_partition: slice_to_vec(self.cur_partition.as_slice()),
            cur_row_number: self.cur_row_number,
        };
        let mut numbers: Vec<i32> = Vec::new();
        let mut row_idx: usize = 0;
        while row_idx < num_rows
            invariant
                row_idx <= num_rows,
                keys == partition_keys(partition_rows, num_rows as nat),
                partitions_readable(partition_rows, num_rows as nat),
                s0 == self@,
                next.wf(),
                next@ == row_number_run(s0, keys.take(row_idx as int)),
                forall|k: int|
                    0 < k <= row_idx ==> #[trigger] row_number_run(s0, keys.take(k)).number
                        <= i32::MAX,
                numbers@.len() == row_idx,
                forall|i: int|
                    0 <= i < row_idx ==> numbers@[i] == #[trigger] row_number_run(
                        s0,
                        keys.take(i + 1),
                    ).number,
            decreases num_rows - row_idx,
        {
            proof {
                assert(keys.take(row_idx + 1).drop_last() =~= keys.take(row_idx as int));
                assert(keys.take(row_idx + 1).last() == keys[row_idx as int]);
            }
            if let Some(p) = partition_rows {
                let partition_row = row_data(p, row_idx);
                if !bytes_eq(partition_row, next.cur_partition.as_slice()) {
                    next.cur_partition = slice_to_vec(partition_row);
                    next.cur_row_number = 0;
                }
            }
            match next.cur_row_number.checked_add(1) {
                Some(number) => {
                    next.cur_row_number = number;
                },
                None => {
                    proof {
                        assert(row_number_run(s0, keys.take(row_idx + 1)).number > i32::MAX);
                        assert(keys.len() == num_rows);
                        assert(!row_number_fits(s0, keys));
                    }
                    return None;
                },
            }
            numbers.push(next.cur_row_number);
            row_idx = row_idx + 1;
        }
        proof {
            assert(keys.take(num_rows as int) =~= keys);
            lemma_scan_outputs(row_number_stepper(), row_number_of(), s0, keys);
            assert forall|i: int| 0 <= i < num_rows implies numbers@[i] == row_number_values(
                s0,
                keys,
            )[i] by {
                assert(numbers@[i] == row_number_run(s0, keys.take(i + 1)).number);
            }
        }
        Some((next, numbers))
    }

    /// Numbers the first `num_rows` rows of a batch, continuing from the
    /// rows of earlier batches, and returns each row's number.
    pub fn process_batch_with(
        &mut self,
        partition_rows: Option<&Rows>,
        num_rows: usize,
    ) -> (numbers: Vec<i32>)
        requires
            old(self).wf(),
            partitions_readable(partition_rows, num_rows as nat),
            row_number_fits(old(self)@, partition_keys(partition_rows, num_rows as nat)),
        ensures
            final(self).wf(),
            final(self)@ == row_number_run(
                old(self)@,
                partition_keys(partition_rows, num_rows as nat),
            ),
            numbers@.len() == num_rows,
            forall|i: int|
                0 <= i < num_rows ==> numbers@[i] == row_number_values(
                    old(self)@,
                    partition_keys(partition_rows, num_rows as nat),
                )[i],
    {
        let (next, numbers) = self.numbered(partition_rows, num_rows).unwrap();
        *self = next;
        numbers
    }

    /// Like `process_batch_with`, for any input: `None`, with the processor
    /// unchanged, where `num_rows` rows cannot be read or a number would
    /// pass `i32::MAX`.
    pub fn checked_process_batch_with(
        &mut self,
        partition_rows: Option<&Rows>,
        num_rows: usize,
    ) -> (numbers: Option<Vec<i32>>)
        requires
            old(self).wf(),
        ensures
            final(self).wf(),
            numbers is Some <==> (partitions_readable(partition_rows, num_rows as nat)
                && row_number_fits(
                old(self)@,
                partition_keys(partition_rows, num_rows as nat),
            )),
            partitions_readable(partition_rows, num_rows as nat) && old(self)@.number + num_rows
                <= i32::MAX ==> numbers is Some,
            numbers is None ==> final(self)@ == old(self)@,
            numbers matches Some(numbers) ==> {
                &&& final(self)@ == row_number_run(
                    old(self)@,
                    partition_keys(partition_rows, num_rows as nat),
                )
                &&& numbers@.len() == num_rows
                &&& forall|i: int|
                    0 <= i < num_rows ==> numbers@[i] == row_number_values(
                        old(self)@,
                        partition_keys(partition_rows, num_rows as nat),
                    )[i]
            },
    {
        proof {
            if self@.number + num_rows <= i32::MAX {
                law_row_number_fits_with_room(self@, partition_keys(partition_rows, num_rows as nat));
            }
        }
        if !partition_rows_readable(partition_rows, num_rows) {
            return None;
        }
        match self.numbered(partition_rows, num_rows) {
            Some((next, numbers)) => {
                *self = next;
                Some(numbers)
            },
            None => None,
        }
    }

    /// The row-number column of the first `num_rows` rows of a batch,
    /// continuing from the rows of earlier batches; `None`, with the
    /// processor unchanged, where `num_rows` rows cannot be read or a number
    /// would pass `i32::MAX`.
    pub fn process_batch(
        &mut self,
        partition_rows: Option<&Rows>,
        num_rows: usize,
    ) -> (array: Option<RankArray>)
        requires
            old(self).wf(),
        ensures
            final(self).wf(),
            array is Some <==> (partitions_readable(partition_rows, num_rows as nat)
                && row_number_fits(
                old(self)@,
                partition_keys(partition_rows, num_rows as nat),
            )),
            partitions_readable(partition_rows, num_rows as nat) && old(self)@.number + num_rows
                <= i32::MAX ==> array is Some,
            array is None ==> final(self)@ == old(self)@,
            array matches Some(array) ==> {
                &&& final(self)@ == row_number_run(
                    old(self)@,
                    partition_keys(partition_rows, num_rows as nat),
                )
                &&& rank_array_slots(array) == row_number_values(
                    old(self)@,
                    partition_keys(partition_rows, num_rows as nat),
                ).map_values(|r: int| Some(r as i32))
            },
    {
        let ghost keys = partition_keys(partition_rows, num_rows as nat);
        let ghost s0 = self@;
        match self.checked_process_batch_with(partition_rows, num_rows) {
            Some(numbers) => {
                proof {
                    lemma_scan_outputs(row_number_stepper(), row_number_of(), s0, keys);
                    assert(numbers@.map_values(|v: i32| Some(v)) =~= row_number_values(
                        s0,
                        keys,
                    ).map_values(|r: int| Some(r as i32)));
                }
                Some(rank_array_from(numbers))
            },
            None => None,
        }
    }
}

} // verus!
