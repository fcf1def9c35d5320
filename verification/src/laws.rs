//! Properties of the rankings as a whole: how batches chain, how the three
//! rankings relate, and what the group limit keeps.

use crate::group_limit_processor::{
    capped_limit, in_ranges, maximal_runs, partitions_of, ranking_initial, WindowRankType, rank_selection, ranking_fits, ranking_run,
    ranking_values, ranking_wf, RankingState,
};
use crate::rank_processor::{
    law_fresh_rank_fits, rank_initial, rank_of, rank_run, rank_state_fits, rank_state_wf, rank_stepper, rank_values,
    RankState,
};
use crate::row_number_processor::{
    law_fresh_row_number_fits, row_number_initial, row_number_of, row_number_run, row_number_stepper, row_number_values,
    RowNumberState,
};
use crate::rows::RowKey;
use crate::scan::{
    lemma_scan_outputs, lemma_scan_outputs_concat, lemma_scan_state_concat, lemma_scan_state_step,
};
use std::ops::Range;
use vstd::prelude::*;

verus! {

/// Ranking a batch in two parts, the second continuing from the state the
/// first left, gives the same ranks and the same final state as ranking it
/// in one part: the state a processor carries across batches loses nothing.
pub proof fn law_batches_chain(st: RankingState, a: Seq<RowKey>, b: Seq<RowKey>)
    ensures
        ranking_run(st, a + b) == ranking_run(ranking_run(st, a), b),
        ranking_values(st, a + b) == ranking_values(st, a) + ranking_values(ranking_run(st, a), b),
{
    match st {
        RankingState::RowNumber(s) => {
            assert(partitions_of(a + b) =~= partitions_of(a) + partitions_of(b));
            lemma_scan_state_concat(row_number_stepper(), s, partitions_of(a), partitions_of(b));
            lemma_scan_outputs_concat(
                row_number_stepper(),
                row_number_of(),
                s,
                partitions_of(a),
                partitions_of(b),
            );
        },
        RankingState::Rank(s) => {
            lemma_scan_state_concat(rank_stepper(), s, a, b);
            lemma_scan_outputs_concat(rank_stepper(), rank_of(), s, a, b);
        },
    }
}

/// Whether rows `i - 1` and `i` are both in one partition.
pub open spec fn same_partition_rows(keys: Seq<RowKey>, i: int) -> bool {
    keys[i].partition == keys[i - 1].partition
}

/// Whether rows `i - 1` and `i` carry two different partition keys.
pub open spec fn partition_changes(keys: Seq<RowKey>, i: int) -> bool {
    &&& keys[i].partition is Some
    &&& keys[i - 1].partition is Some
    &&& keys[i].partition != keys[i - 1].partition
}

/// After a row, the state holds that row's order key, and its partition key
/// where it has one.
proof fn lemma_rank_run_last(s: RankState, keys: Seq<RowKey>, i: int)
    requires
        0 <= i < keys.len(),
    ensures
        rank_run(s, keys.take(i + 1)).order == keys[i].order,
        keys[i].partition matches Some(p) ==> rank_run(s, keys.take(i + 1)).partition == p,
{
    lemma_scan_state_step(rank_stepper(), s, keys, i);
}

proof fn lemma_row_number_run_last(s: RowNumberState, parts: Seq<Option<Seq<u8>>>, i: int)
    requires
        0 <= i < parts.len(),
    ensures
        parts[i] matches Some(p) ==> row_number_run(s, parts.take(i + 1)).partition == p,
{
    lemma_scan_state_step(row_number_stepper(), s, parts, i);
}

/// Ranking keeps a state well formed.
pub proof fn lemma_rank_run_wf(s: RankState, keys: Seq<RowKey>)
    requires
        rank_state_wf(s),
    ensures
        rank_state_wf(rank_run(s, keys)),
        rank_run(s, keys).dense == s.dense,
    decreases keys.len(),
{
    if keys.len() > 0 {
        lemma_rank_run_wf(s, keys.drop_last());
    }
}

pub proof fn lemma_row_number_run_wf(s: RowNumberState, parts: Seq<Option<Seq<u8>>>)
    requires
        s.number >= 0,
    ensures
        row_number_run(s, parts).number >= 0,
    decreases parts.len(),
{
    if parts.len() > 0 {
        lemma_row_number_run_wf(s, parts.drop_last());
    }
}

/// From one row to the next: within a partition, a peer of the previous
/// row keeps its rank and any other row gets a greater one (`dense_rank`:
/// exactly one more); a row whose partition key differs from the previous
/// row's has rank 1.
pub proof fn law_rank_next_row(s: RankState, keys: Seq<RowKey>, i: int)
    requires
        rank_state_wf(s),
        0 < i < keys.len(),
    ensures
        same_partition_rows(keys, i) && keys[i].order == keys[i - 1].order ==> rank_values(
            s,
            keys,
        )[i] == rank_values(s, keys)[i - 1],
        same_partition_rows(keys, i) && keys[i].order != keys[i - 1].order ==> rank_values(
            s,
            keys,
        )[i] > rank_values(s, keys)[i - 1],
        same_partition_rows(keys, i) && keys[i].order != keys[i - 1].order && s.dense
            ==> rank_values(s, keys)[i] == rank_values(s, keys)[i - 1] + 1,
        partition_changes(keys, i) ==> rank_values(s, keys)[i] == 1,
{
    lemma_scan_outputs(rank_stepper(), rank_of(), s, keys);
    lemma_scan_state_step(rank_stepper(), s, keys, i);
    lemma_rank_run_last(s, keys, i - 1);
    lemma_rank_run_wf(s, keys.take(i));
    assert(keys.take(i - 1 + 1) =~= keys.take(i));
}

/// From one row to the next: within a partition the row number goes up by
/// one; a row whose partition key differs from the previous row's has
/// number 1.
pub proof fn law_row_number_next_row(s: RowNumberState, parts: Seq<Option<Seq<u8>>>, i: int)
    requires
        0 < i < parts.len(),
    ensures
        parts[i] == parts[i - 1] ==> row_number_values(s, parts)[i] == row_number_values(
            s,
            parts,
        )[i - 1] + 1,
        parts[i] is Some && parts[i - 1] is Some && parts[i] != parts[i - 1]
            ==> row_number_values(s, parts)[i] == 1,
{
    lemma_scan_outputs(row_number_stepper(), row_number_of(), s, parts);
    lemma_scan_state_step(row_number_stepper(), s, parts, i);
    lemma_row_number_run_last(s, parts, i - 1);
    assert(parts.take(i - 1 + 1) =~= parts.take(i));
}

/// Within a partition the rank never goes down, so the rows that a group
/// limit keeps in a partition come before the rows it drops there.
pub proof fn law_limit_keeps_partition_prefix(
    st: RankingState,
    keys: Seq<RowKey>,
    limit: int,
    i: int,
)
    requires
        ranking_wf(st),
        0 < i < keys.len(),
        same_partition_rows(keys, i),
    ensures
        ranking_values(st, keys)[i - 1] <= ranking_values(st, keys)[i],
        rank_selection(ranking_values(st, keys), limit)[i] ==> rank_selection(
            ranking_values(st, keys),
            limit,
        )[i - 1],
{
    match st {
        RankingState::RowNumber(s) => {
            law_row_number_next_row(s, partitions_of(keys), i);
            lemma_scan_outputs(row_number_stepper(), row_number_of(), s, partitions_of(keys));
        },
        RankingState::Rank(s) => {
            law_rank_next_row(s, keys, i);
            lemma_scan_outputs(rank_stepper(), rank_of(), s, keys);
        },
    }
}

/// How `dense_rank`, `rank` and `row_number` states that have seen the
/// same rows relate: they track the same keys and peer count, and `rank`
/// sits where `row_number` stood at the first peer of the current group.
pub open spec fn rankings_agree(d: RankState, r: RankState, n: RowNumberState) -> bool {
    &&& d.partition == r.partition
    &&& r.partition == n.partition
    &&& d.order == r.order
    &&& d.equals == r.equals
    &&& r.equals >= 1
    &&& r.rank + r.equals == n.number + 1
    &&& d.rank <= r.rank
    &&& d.dense
    &&& !r.dense
}

/// The three rankings keep agreeing over any rows.
pub proof fn lemma_rankings_agree_run(
    d: RankState,
    r: RankState,
    n: RowNumberState,
    keys: Seq<RowKey>,
)
    requires
        rankings_agree(d, r, n),
    ensures
        rankings_agree(rank_run(d, keys), rank_run(r, keys), row_number_run(n, partitions_of(keys))),
    decreases keys.len(),
{
    if keys.len() > 0 {
        lemma_rankings_agree_run(d, r, n, keys.drop_last());
        assert(partitions_of(keys).drop_last() =~= partitions_of(keys.drop_last()));
    }
}

/// Over the same rows, processors started fresh give every row a
/// `dense_rank` no greater than its `rank`, and a `rank` no greater than
/// its `row_number`; a row that starts a new group of peers (its order key
/// or its partition key differs from the previous row's) has a `rank`
/// equal to its `row_number`.
pub proof fn law_rankings_ordered(keys: Seq<RowKey>, i: int)
    requires
        0 <= i < keys.len(),
    ensures
        rank_values(rank_initial(true), keys)[i] <= rank_values(rank_initial(false), keys)[i],
        rank_values(rank_initial(false), keys)[i] <= row_number_values(
            row_number_initial(),
            partitions_of(keys),
        )[i],
        0 < i && (keys[i].order != keys[i - 1].order || partition_changes(keys, i)) ==> rank_values(
            rank_initial(false),
            keys,
        )[i] == row_number_values(row_number_initial(), partitions_of(keys))[i],
{
    let d0 = rank_initial(true);
    let r0 = rank_initial(false);
    let n0 = row_number_initial();
    lemma_scan_outputs(rank_stepper(), rank_of(), d0, keys);
    lemma_scan_outputs(rank_stepper(), rank_of(), r0, keys);
    lemma_scan_outputs(row_number_stepper(), row_number_of(), n0, partitions_of(keys));
    lemma_rankings_agree_run(d0, r0, n0, keys.take(i + 1));
    assert(partitions_of(keys.take(i + 1)) =~= partitions_of(keys).take(i + 1));
    if 0 < i {
        lemma_rankings_agree_run(d0, r0, n0, keys.take(i));
        lemma_scan_state_step(rank_stepper(), r0, keys, i);
        lemma_rank_run_last(r0, keys, i - 1);
        assert(keys.take(i - 1 + 1) =~= keys.take(i));
    }
}

/// Whether a state has either given its last row a rank of at least 1 or
/// not seen a row with a non-empty order key yet.
pub open spec fn rank_state_started(s: RankState) -> bool {
    s.rank >= 1 || s.order.len() == 0
}

proof fn lemma_rank_run_started(s: RankState, keys: Seq<RowKey>)
    requires
        rank_state_wf(s),
        rank_state_started(s),
        forall|j: int| 0 <= j < keys.len() ==> #[trigger] keys[j].order.len() > 0,
    ensures
        rank_state_wf(rank_run(s, keys)),
        rank_state_started(rank_run(s, keys)),
        keys.len() > 0 ==> rank_run(s, keys).rank >= 1,
    decreases keys.len(),
{
    if keys.len() > 0 {
        let prefix = keys.drop_last();
        assert forall|j: int| 0 <= j < prefix.len() implies #[trigger] prefix[j].order.len() > 0 by {
            assert(prefix[j] == keys[j]);
        }
        lemma_rank_run_started(s, prefix);
        assert(keys.last().order.len() > 0);
    }
}

/// Where every order key is non-empty (as every row encoding of at least one
/// column is), ranks count from 1: a fresh `rank` or `dense_rank` gives
/// every row a rank of at least 1.
pub proof fn law_ranks_from_one(dense: bool, keys: Seq<RowKey>, i: int)
    requires
        0 <= i < keys.len(),
        forall|j: int| 0 <= j < keys.len() ==> #[trigger] keys[j].order.len() > 0,
    ensures
        rank_values(rank_initial(dense), keys)[i] >= 1,
{
    let s0 = rank_initial(dense);
    let prefix = keys.take(i + 1);
    assert forall|j: int| 0 <= j < prefix.len() implies #[trigger] prefix[j].order.len() > 0 by {
        assert(prefix[j] == keys[j]);
    }
    lemma_rank_run_started(s0, prefix);
    lemma_scan_outputs(rank_stepper(), rank_of(), s0, keys);
}

/// Row numbers count from 1: from any state a row numbering can be in,
/// every row gets a number of at least 1.
pub proof fn law_row_numbers_from_one(n: RowNumberState, parts: Seq<Option<Seq<u8>>>, i: int)
    requires
        0 <= i < parts.len(),
        n.number >= 0,
    ensures
        row_number_values(n, parts)[i] >= 1,
{
    lemma_scan_outputs(row_number_stepper(), row_number_of(), n, parts);
    lemma_scan_state_step(row_number_stepper(), n, parts, i);
    lemma_row_number_run_wf(n, parts.take(i));
}

/// What the last of the maximal runs of a selection is: a run of selected
/// rows after which nothing is selected, preceded by an unselected row (or
/// the first row); the other runs are the maximal runs of the rows before it.
proof fn lemma_last_run(r: Seq<Range<usize>>, sel: Seq<bool>)
    requires
        maximal_runs(r, sel),
        r.len() > 0,
    ensures
        forall|j: int| r.last().start <= j < r.last().end ==> #[trigger] sel[j],
        forall|j: int| r.last().end <= j < sel.len() ==> !#[trigger] sel[j],
        r.last().start == 0 || !sel[r.last().start - 1],
        r.last().start < r.last().end <= sel.len(),
        maximal_runs(r.drop_last(), sel.take(r.last().start as int)),
{
    let last = r.len() - 1;
    let a = r[last];
    assert forall|j: int| a.start <= j < a.end implies #[trigger] sel[j] by {
        assert(r[last].start <= j < r[last].end);
        assert(in_ranges(r, j));
    }
    assert forall|j: int| a.end <= j < sel.len() implies !#[trigger] sel[j] by {
        if sel[j] {
            let k = choose|k: int| 0 <= k < r.len() && r[k].start <= j < #[trigger] r[k].end;
            if k < last {
                assert(r[k].end < r[last].start);
            }
        }
    }
    if a.start > 0 {
        let j = a.start - 1;
        if sel[j] {
            let k = choose|k: int| 0 <= k < r.len() && r[k].start <= j < #[trigger] r[k].end;
            if k < last {
                assert(r[k].end < r[last].start);
            }
        }
    }
    let r2 = r.drop_last();
    let sel2 = sel.take(a.start as int);
    assert forall|k: int| 0 <= k < r2.len() implies #[trigger] r2[k].start < r2[k].end
        <= sel2.len() by {
        assert(r[k].end < r[last].start);
    }
    assert forall|k: int, l: int| 0 <= k < l < r2.len() implies #[trigger] r2[k].end
        < #[trigger] r2[l].start by {
        assert(r[k].end < r[l].start);
    }
    assert forall|j: int| 0 <= j < sel2.len() implies (sel2[j] <==> in_ranges(r2, j)) by {
        if in_ranges(r, j) {
            let k = choose|k: int| 0 <= k < r.len() && r[k].start <= j < #[trigger] r[k].end;
            assert(k != last);
            assert(r2[k] == r[k]);
        }
        if in_ranges(r2, j) {
            let k = choose|k: int| 0 <= k < r2.len() && r2[k].start <= j < #[trigger] r2[k].end;
            assert(r[k] == r2[k]);
        }
    }
}

/// A selection has only one list of maximal runs, so the ranges a group
/// limit returns are fixed by which rows it keeps.
pub proof fn law_maximal_runs_unique(r1: Seq<Range<usize>>, r2: Seq<Range<usize>>, sel: Seq<bool>)
    requires
        maximal_runs(r1, sel),
        maximal_runs(r2, sel),
    ensures
        r1 == r2,
    decreases r1.len(),
{
    if r1.len() == 0 || r2.len() == 0 {
        if r1.len() > 0 {
            let j = r1[0].start as int;
            assert(r1[0].start <= j < r1[0].end);
            assert(in_ranges(r1, j));
        }
        if r2.len() > 0 {
            let j = r2[0].start as int;
            assert(r2[0].start <= j < r2[0].end);
            assert(in_ranges(r2, j));
        }
        assert(r1 =~= r2);
    } else {
        lemma_last_run(r1, sel);
        lemma_last_run(r2, sel);
        let a = r1.last();
        let b = r2.last();
        if a.end < b.end {
            assert(sel[b.end - 1]);
        }
        if b.end < a.end {
            assert(sel[a.end - 1]);
        }
        assert(a.end == b.end);
        if a.start < b.start {
            assert(sel[b.start - 1]);
        }
        if b.start < a.start {
            assert(sel[a.start - 1]);
        }
        assert(a.start == b.start);
        assert(a == b);
        law_maximal_runs_unique(r1.drop_last(), r2.drop_last(), sel.take(a.start as int));
        assert(r1 =~= r1.drop_last().push(a));
        assert(r2 =~= r2.drop_last().push(b));
    }
}

/// A limit at `i32::MAX` (where every limit of `i32::MAX` or more is
/// capped) keeps every row that can be ranked at all.
pub proof fn law_capped_limit_keeps_all(st: RankingState, keys: Seq<RowKey>, i: int)
    requires
        ranking_fits(st, keys),
        0 <= i < keys.len(),
    ensures
        rank_selection(ranking_values(st, keys), i32::MAX as int)[i],
{
    match st {
        RankingState::RowNumber(s) => {
            let parts = partitions_of(keys);
            lemma_scan_outputs(row_number_stepper(), row_number_of(), s, parts);
            assert(row_number_run(s, parts.take(i + 1)).number <= i32::MAX);
        },
        RankingState::Rank(s) => {
            lemma_scan_outputs(rank_stepper(), rank_of(), s, keys);
            assert(rank_state_fits(rank_run(s, keys.take(i + 1))));
        },
    }
}

/// A fresh row numbering of rows that all share one partition key
/// numbers them 1, 2, 3, ... in order.
pub proof fn law_row_numbers_count_rows(parts: Seq<Option<Seq<u8>>>, i: int)
    requires
        0 <= i < parts.len(),
        forall|j: int| 0 <= j < parts.len() ==> #[trigger] parts[j] == parts[0],
    ensures
        row_number_values(row_number_initial(), parts)[i] == i + 1,
    decreases i,
{
    let n0 = row_number_initial();
    if i == 0 {
        lemma_scan_outputs(row_number_stepper(), row_number_of(), n0, parts);
        lemma_scan_state_step(row_number_stepper(), n0, parts, 0);
        assert(parts.take(0) =~= Seq::<Option<Seq<u8>>>::empty());
    } else {
        assert(parts[i] == parts[0]);
        assert(parts[i - 1] == parts[0]);
        law_row_number_next_row(n0, parts, i);
        law_row_numbers_count_rows(parts, i - 1);
    }
}

/// A fresh `row_number` group limit keeps, of rows that all share one
/// partition, exactly the first `limit`.
pub proof fn law_row_number_limit_keeps_first(limit: usize, keys: Seq<RowKey>, i: int)
    requires
        0 <= i < keys.len(),
        keys.len() <= i32::MAX,
        forall|j: int| 0 <= j < keys.len() ==> #[trigger] keys[j].partition == keys[0].partition,
    ensures
        rank_selection(
            ranking_values(ranking_initial(WindowRankType::RowNumber), keys),
            capped_limit(limit),
        )[i] <==> i < limit,
{
    let parts = partitions_of(keys);
    assert forall|j: int| 0 <= j < parts.len() implies #[trigger] parts[j] == parts[0] by {
        assert(keys[j].partition == keys[0].partition);
    }
    law_row_numbers_count_rows(parts, i);
    lemma_scan_outputs(row_number_stepper(), row_number_of(), row_number_initial(), parts);
}

/// A fresh ranking of any kind handles any rows, fewer than `i32::MAX` of
/// them, without overflow.
pub proof fn law_fresh_ranking_fits(rank_type: WindowRankType, keys: Seq<RowKey>)
    requires
        keys.len() < i32::MAX,
    ensures
        ranking_fits(ranking_initial(rank_type), keys),
{
    match rank_type {
        WindowRankType::RowNumber => law_fresh_row_number_fits(partitions_of(keys)),
        WindowRankType::Rank => law_fresh_rank_fits(false, keys),
        WindowRankType::DenseRank => law_fresh_rank_fits(true, keys),
    }
}

} // verus!
