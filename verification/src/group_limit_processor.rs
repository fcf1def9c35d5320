//! Window group limit: keeps, within each partition, the rows whose rank
//! is within a limit, as ranges of row indices.

use crate::rank_processor::{
    rank_fits, rank_initial, rank_of, rank_run, rank_state_wf, rank_stepper, rank_values, RankProcessor, RankState,
};
use crate::row_number_processor::{
    row_number_fits, row_number_initial, row_number_of, row_number_run, row_number_stepper,
    row_number_values, RowNumberProcessor,
    RowNumberState,
};
use crate::scan::lemma_scan_outputs;
use crate::rows::{batch_keys, batch_readable, partition_keys, partitions_readable, RowKey};
use arrow::row::Rows;
use std::ops::Range;
use vstd::prelude::*;

verus! {

/// The ranking window functions.
#[derive(Clone, Copy, Debug, PartialEq, Eq, Structural)]
pub enum WindowRankType {
    RowNumber,
    Rank,
    DenseRank,
}

/// The state of the ranking that a group limit runs on.
pub enum RankingState {
    RowNumber(RowNumberState),
    Rank(RankState),
}

/// The fresh ranking state for a rank type.
pub open spec fn ranking_initial(rank_type: WindowRankType) -> RankingState {
    match rank_type {
        WindowRankType::RowNumber => RankingState::RowNumber(row_number_initial()),
        WindowRankType::Rank => RankingState::Rank(rank_initial(false)),
        WindowRankType::DenseRank => RankingState::Rank(rank_initial(true)),
    }
}

pub open spec fn ranking_wf(st: RankingState) -> bool {
    match st {
        RankingState::RowNumber(s) => s.number >= 0,
        RankingState::Rank(s) => rank_state_wf(s),
    }
}

/// The partition keys of the rows `keys`.
pub open spec fn partitions_of(keys: Seq<RowKey>) -> Seq<Option<Seq<u8>>> {
    keys.map_values(|key: RowKey| key.partition)
}

/// Whether a ranking can read the `n` rows it needs: row numbers read
/// only the partition keys.
pub open spec fn ranking_readable(
    st: RankingState,
    partition_rows: Option<&Rows>,
    order_rows: &Rows,
    n: nat,
) -> bool {
    match st {
        RankingState::RowNumber(_) => partitions_readable(partition_rows, n),
        RankingState::Rank(_) => batch_readable(partition_rows, order_rows, n),
    }
}

/// The ranking state after the rows `keys`.
pub open spec fn ranking_run(st: RankingState, keys: Seq<RowKey>) -> RankingState {
    match st {
        RankingState::RowNumber(s) => RankingState::RowNumber(row_number_run(s, partitions_of(keys))),
        RankingState::Rank(s) => RankingState::Rank(rank_run(s, keys)),
    }
}

/// The rank given to each of the rows `keys`.
pub open spec fn ranking_values(st: RankingState, keys: Seq<RowKey>) -> Seq<int> {
    match st {
        RankingState::RowNumber(s) => row_number_values(s, partitions_of(keys)),
        RankingState::Rank(s) => rank_values(s, keys),
    }
}

/// Whether the counters stay within `i32` while ranking the rows `keys`.
pub open spec fn ranking_fits(st: RankingState, keys: Seq<RowKey>) -> bool {
    match st {
        RankingState::RowNumber(s) => row_number_fits(s, partitions_of(keys)),
        RankingState::Rank(s) => rank_fits(s, keys),
    }
}

/// The limit that a requested limit comes to: the request, capped at `i32::MAX`.
pub open spec fn capped_limit(limit: usize) -> int {
    if limit <= i32::MAX {
        limit as int
    } else {
        i32::MAX as int
    }
}

/// Which rows a limit keeps: those whose rank is at most `limit`.
pub open spec fn rank_selection(ranks: Seq<int>, limit: int) -> Seq<bool> {
    ranks.map_values(|r: int| r <= limit)
}

/// A limit selects exactly the rows whose rank is at most the limit, one
/// entry per row, whatever the limit.
pub proof fn law_rank_selection(ranks: Seq<int>, limit: int)
    ensures
        rank_selection(ranks, limit).len() == ranks.len(),
        forall|i: int|
            0 <= i < ranks.len() ==> (#[trigger] rank_selection(ranks, limit)[i] <==> ranks[i]
                <= limit),
{
}

/// The stored limit is the requested one whenever it fits in `i32`, and
/// `i32::MAX` otherwise.
pub proof fn law_capped_limit(limit: usize)
    ensures
        limit <= i32::MAX ==> capped_limit(limit) == limit,
        limit > i32::MAX ==> capped_limit(limit) == i32::MAX,
        capped_limit(limit) <= limit,
        0 <= capped_limit(limit) <= i32::MAX,
{
}

/// Whether row `i` lies in one of `ranges`.
pub open spec fn in_ranges(ranges: Seq<Range<usize>>, i: int) -> bool {
    exists|k: int| 0 <= k < ranges.len() && ranges[k].start <= i < #[trigger] ranges[k].end
}

/// `ranges` are the maximal runs of selected rows, in row order: each is
/// non-empty and lies within the rows, each ends before any later one
/// begins with at least one row between them, and a row lies in one of
/// them exactly when it is selected.
pub open spec fn maximal_runs(ranges: Seq<Range<usize>>, selected: Seq<bool>) -> bool {
    &&& forall|k: int| 0 <= k < ranges.len() ==> #[trigger] ranges[k].start < ranges[k].end <= selected.len()
    &&& forall|k: int, l: int|
        0 <= k < l < ranges.len() ==> #[trigger] ranges[k].end < #[trigger] ranges[l].start
    &&& forall|i: int| 0 <= i < selected.len() ==> (selected[i] <==> in_ranges(ranges, i))
}

/// Maximal runs of the rows ranked within a limit cover exactly those rows
/// and lie within the rows.
proof fn lemma_runs_of_ranks(ranges: Seq<Range<usize>>, ranks: Seq<i32>, limit: i32)
    requires
        maximal_runs(ranges, rank_selection(ranks.map_values(|r: i32| r as int), limit as int)),
    ensures
        forall|i: int| 0 <= i < ranks.len() ==> (ranks[i] <= limit <==> in_ranges(ranges, i)),
        forall|k: int| 0 <= k < ranges.len() ==> ranges[k].end <= ranks.len(),
{
    let int_ranks = ranks.map_values(|r: i32| r as int);
    let sel = rank_selection(int_ranks, limit as int);
    law_rank_selection(int_ranks, limit as int);
    assert forall|i: int| 0 <= i < ranks.len() implies (ranks[i] <= limit <==> in_ranges(
        ranges,
        i,
    )) by {
        assert(int_ranks[i] == ranks[i] as int);
        assert(sel[i] == (int_ranks[i] <= limit));
    }
    assert forall|k: int| 0 <= k < ranges.len() implies ranges[k].end <= ranks.len() by {
        assert(ranges[k].start < ranges[k].end <= sel.len());
    }
}

/// The ranges of row indices whose rank is at most `limit`, as maximal runs.
pub fn selected_ranges(ranks: &Vec<i32>, limit: i32) -> (ranges: Vec<Range<usize>>)
    ensures
        maximal_runs(ranges@, rank_selection(ranks@.map_values(|r: i32| r as int), limit as int)),
        forall|i: int| 0 <= i < ranks@.len() ==> (ranks@[i] <= limit <==> in_ranges(ranges@, i)),
        forall|k: int| 0 <= k < ranges@.len() ==> ranges@[k].end <= ranks@.len(),
{
    let ghost sel = rank_selection(ranks@.map_values(|r: i32| r as int), limit as int);
    let mut selected_ranges: Vec<Range<usize>> = Vec::new();
    let mut selected_start: Option<usize> = None;
    let mut row_idx: usize = 0;
    while row_idx < ranks.len()
        invariant
            sel == rank_selection(ranks@.map_values(|r: i32| r as int), limit as int),
            sel.len() == ranks@.len(),
            row_idx <= ranks@.len(),
            forall|k: int|
                0 <= k < selected_ranges@.len() ==> #[trigger] selected_ranges@[k].start
                    < selected_ranges@[k].end <= row_idx,
            forall|k: int, l: int|
                0 <= k < l < selected_ranges@.len() ==> #[trigger] selected_ranges@[k].end
                    < #[trigger] selected_ranges@[l].start,
            match selected_start {
                Some(s) => {
                    &&& s < row_idx
                    &&& forall|j: int| s <= j < row_idx ==> #[trigger] sel[j]
                    &&& selected_ranges@.len() > 0 ==> selected_ranges@.last().end < s
                },
                None => selected_ranges@.len() > 0 ==> selected_ranges@.last().end < row_idx,
            },
            forall|j: int|
                0 <= j < row_idx ==> (#[trigger] sel[j] <==> (in_ranges(selected_ranges@, j) || (
                selected_start matches Some(s) && s <= j))),
        decreases ranks@.len() - row_idx,
    {
        let ghost old_ranges = selected_ranges@;
        let rank = ranks[row_idx];
        assert(sel[row_idx as int] == (rank <= limit));
        if rank <= limit {
            if selected_start.is_none() {
                selected_start = Some(row_idx);
            }
        } else if let Some(start) = selected_start {
            selected_start = None;
            selected_ranges.push(start..row_idx);
            proof {
                let ranges = selected_ranges@;
                assert forall|k: int, l: int| 0 <= k < l < ranges.len() implies #[trigger] ranges[k].end
                    < #[trigger] ranges[l].start by {
                    assert(ranges[k] == old_ranges[k]);
                    if l < ranges.len() - 1 {
                        assert(ranges[l] == old_ranges[l]);
                    } else if k < old_ranges.len() - 1 {
                        assert(old_ranges[k].end < old_ranges[old_ranges.len() - 1].start);
                    }
                }
                assert forall|j: int| 0 <= j < row_idx implies (in_ranges(ranges, j) <==> (
                in_ranges(old_ranges, j) || start <= j)) by {
                    if in_ranges(old_ranges, j) {
                        let k = choose|k: int|
                            0 <= k < old_ranges.len() && old_ranges[k].start <= j
                                < #[trigger] old_ranges[k].end;
                        assert(ranges[k] == old_ranges[k]);
                    }
                    if start <= j {
                        assert(ranges[ranges.len() - 1].end == row_idx);
                    }
                    if in_ranges(ranges, j) {
                        let k = choose|k: int|
                            0 <= k < ranges.len() && ranges[k].start <= j < #[trigger] ranges[k].end;
                        if k < old_ranges.len() {
                            assert(ranges[k] == old_ranges[k]);
                        }
                    }
                }
                assert(!in_ranges(ranges, row_idx as int)) by {
                    if in_ranges(ranges, row_idx as int) {
                        let k = choose|k: int|
                            0 <= k < ranges.len() && ranges[k].start <= row_idx
                                < #[trigger] ranges[k].end;
                        if k < old_ranges.len() {
                            assert(ranges[k] == old_ranges[k]);
                        }
                    }
                }
            }
        }
        row_idx = row_idx + 1;
    }
    if let Some(start) = selected_start {
        let ghost old_ranges = selected_ranges@;
        selected_ranges.push(start..ranks.len());
        proof {
            let ranges = selected_ranges@;
            assert forall|j: int| 0 <= j < sel.len() implies (in_ranges(ranges, j) <==> (
            in_ranges(old_ranges, j) || start <= j)) by {
                if in_ranges(old_ranges, j) {
                    let k = choose|k: int|
                        0 <= k < old_ranges.len() && old_ranges[k].start <= j
                            < #[trigger] old_ranges[k].end;
                    assert(ranges[k] == old_ranges[k]);
                }
                if start <= j {
                    assert(ranges[ranges.len() - 1].end == sel.len());
                }
                if in_ranges(ranges, j) {
                    let k = choose|k: int|
                        0 <= k < ranges.len() && ranges[k].start <= j < #[trigger] ranges[k].end;
                    if k < old_ranges.len() {
                        assert(ranges[k] == old_ranges[k]);
                    }
                }
            }
        }
    }
    proof {
        lemma_runs_of_ranks(selected_ranges@, ranks@, limit);
    }
    selected_ranges
}

/// The ranking processor behind a group limit: `rank` and `dense_rank`
/// share one processor, `row_number` has its own.
enum RankingProcessor {
    RowNumber(RowNumberProcessor),
    Rank(RankProcessor),
}

/// What a group limit holds: its ranking state and its limit.
pub struct GroupLimitState {
    pub ranking: RankingState,
    pub limit: int,
}

pub struct WindowGroupLimitProcessor {
    processor: RankingProcessor,
    limit: i32,
}

impl View for WindowGroupLimitProcessor {
    type V = GroupLimitState;

    closed spec fn view(&self) -> GroupLimitState {
        GroupLimitState {
            ranking: match self.processor {
                RankingProcessor::RowNumber(p) => RankingState::RowNumber(p@),
                RankingProcessor::Rank(p) => RankingState::Rank(p@),
            },
            limit: self.limit as int,
        }
    }
}

impl WindowGroupLimitProcessor {
    pub open spec fn wf(&self) -> bool {
        ranking_wf(self@.ranking)
    }

    /// A group limit keeping the rows ranked at most `limit` by `rank_type`;
    /// a limit past `i32::MAX` keeps every rank an `i32` can hold.
    pub fn new(rank_type: WindowRankType, limit: usize) -> (p: Self)
        ensures
            p@ == (GroupLimitState { ranking: ranking_initial(rank_type), limit: capped_limit(limit) }),
            limit <= i32::MAX ==> p@.limit == limit,
            limit > i32::MAX ==> p@.limit == i32::MAX,
            p.wf(),
    {
        let processor = match rank_type {
            WindowRankType::RowNumber => RankingProcessor::RowNumber(RowNumberProcessor::new()),
            WindowRankType::Rank => RankingProcessor::Rank(RankProcessor::new(false)),
            WindowRankType::DenseRank => RankingProcessor::Rank(RankProcessor::new(true)),
        };
        let capped: i32 = if limit <= i32::MAX as usize {
            limit as i32
        } else {
            i32::MAX
        };
        Self { processor, limit: capped }
    }

    /// Ranks the first `num_rows` rows of a batch, continuing from the rows
    /// of earlier batches, and returns the maximal runs of rows whose rank
    /// is within the limit.
    pub fn process_batch(
        &mut self,
        partition_rows: Option<&Rows>,
        order_rows: &Rows,
        num_rows: usize,
    ) -> (ranges: Vec<Range<usize>>)
        requires
            old(self).wf(),
            ranking_readable(old(self)@.ranking, partition_rows, order_rows, num_rows as nat),
            ranking_fits(old(self)@.ranking, batch_keys(partition_rows, order_rows, num_rows as nat)),
        ensures
            final(self).wf(),
            final(self)@ == (GroupLimitState {
                ranking: ranking_run(
                    old(self)@.ranking,
                    batch_keys(partition_rows, order_rows, num_rows as nat),
                ),
                limit: old(self)@.limit,
            }),
            maximal_runs(
                ranges@,
                rank_selection(
                    ranking_values(
                        old(self)@.ranking,
                        batch_keys(partition_rows, order_rows, num_rows as nat),
                    ),
                    old(self)@.limit,
                ),
            ),
            forall|i: int|
                0 <= i < num_rows ==> (ranking_values(
                    old(self)@.ranking,
                    batch_keys(partition_rows, order_rows, num_rows as nat),
                )[i] <= old(self)@.limit <==> in_ranges(ranges@, i)),
    {
        let ghost keys = batch_keys(partition_rows, order_rows, num_rows as nat);
        let ghost st0 = self@.ranking;
        assert(partitions_of(keys) =~= partition_keys(partition_rows, num_rows as nat));
        let ranks = match &mut self.processor {
            RankingProcessor::RowNumber(processor) => {
                processor.process_batch_with(partition_rows, num_rows)
            },
            RankingProcessor::Rank(processor) => {
                processor.process_batch_with(partition_rows, order_rows, num_rows)
            },
        };
        proof {
            match st0 {
                RankingState::RowNumber(s) => {
                    assert(partitions_of(keys) =~= partition_keys(partition_rows, num_rows as nat));
                    lemma_scan_outputs(row_number_stepper(), row_number_of(), s, partitions_of(keys));
                },
                RankingState::Rank(s) => {
                    lemma_scan_outputs(rank_stepper(), rank_of(), s, keys);
                },
            }
        }
        assert(ranks@.map_values(|r: i32| r as int) =~= ranking_values(st0, keys));
        selected_ranges(&ranks, self.limit)
    }

    /// Like `process_batch`, for any input: `None`, with the processor
    /// unchanged, where `num_rows` rows cannot be read or a rank would pass
    /// `i32::MAX`.
    pub fn checked_process_batch(
        &mut self,
        partition_rows: Option<&Rows>,
        order_rows: &Rows,
        num_rows: usize,
    ) -> (ranges: Option<Vec<Range<usize>>>)
        requires
            old(self).wf(),
        ensures
            final(self).wf(),
            ranges is Some <==> (ranking_readable(old(self)@.ranking, partition_rows, order_rows, num_rows as nat)
                && ranking_fits(
                old(self)@.ranking,
                batch_keys(partition_rows, order_rows, num_rows as nat),
            )),
            ranges is None ==> final(self)@ == old(self)@,
            ranges matches Some(ranges) ==> {
                &&& final(self)@ == (GroupLimitState {
                    ranking: ranking_run(
                        old(self)@.ranking,
                        batch_keys(partition_rows, order_rows, num_rows as nat),
                    ),
                    limit: old(self)@.limit,
                })
                &&& maximal_runs(
                    ranges@,
                    rank_selection(
                        ranking_values(
                            old(self)@.ranking,
                            batch_keys(partition_rows, order_rows, num_rows as nat),
                        ),
                        old(self)@.limit,
                    ),
                )
                &&& forall|i: int|
                    0 <= i < num_rows ==> (ranking_values(
                        old(self)@.ranking,
                        batch_keys(partition_rows, order_rows, num_rows as nat),
                    )[i] <= old(self)@.limit <==> in_ranges(ranges@, i))
            },
    {
        let ghost keys = batch_keys(partition_rows, order_rows, num_rows as nat);
        let ghost st0 = self@.ranking;
        assert(partitions_of(keys) =~= partition_keys(partition_rows, num_rows as nat));
        let ranks = match &mut self.processor {
            RankingProcessor::RowNumber(processor) => {
                processor.checked_process_batch_with(partition_rows, num_rows)
            },
            RankingProcessor::Rank(processor) => {
                processor.checked_process_batch_with(partition_rows, order_rows, num_rows)
            },
        };
        match ranks {
            Some(ranks) => {
                proof {
                    match st0 {
                        RankingState::RowNumber(s) => {
                            assert(partitions_of(keys) =~= partition_keys(partition_rows, num_rows as nat));
                    lemma_scan_outputs(row_number_stepper(), row_number_of(), s, partitions_of(keys));
                        },
                        RankingState::Rank(s) => {
                            lemma_scan_outputs(rank_stepper(), rank_of(), s, keys);
                        },
                    }
                }
                assert(ranks@.map_values(|r: i32| r as int) =~= ranking_values(st0, keys));
                Some(selected_ranges(&ranks, self.limit))
            },
            None => None,
        }
    }
}

} // verus!
