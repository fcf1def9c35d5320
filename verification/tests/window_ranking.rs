use std::ops::Range;
use std::sync::Arc;

use arrow::array::{Array, ArrayRef, Int32Array};
use arrow::datatypes::DataType;
use arrow::row::{RowConverter, Rows, SortField};
use datafusion_ext_plans::group_limit_processor::{
    selected_ranges, WindowGroupLimitProcessor, WindowRankType,
};
use datafusion_ext_plans::rank_processor::RankProcessor;
use datafusion_ext_plans::row_number_processor::RowNumberProcessor;

fn rows_of(values: &[i32]) -> Rows {
    let converter = RowConverter::new(vec![SortField::new(DataType::Int32)]).unwrap();
    let column: ArrayRef = Arc::new(Int32Array::from(values.to_vec()));
    converter.convert_columns(&[column]).unwrap()
}

const PARTITIONS: [i32; 7] = [1, 1, 1, 1, 2, 2, 2];
const ORDERS: [i32; 7] = [10, 10, 20, 30, 5, 5, 7];

fn ranks(processor: &mut RankProcessor, partitions: Option<&[i32]>, orders: &[i32]) -> Vec<i32> {
    let partition_rows = partitions.map(rows_of);
    let order_rows = rows_of(orders);
    processor.process_batch_with(partition_rows.as_ref(), &order_rows, orders.len())
}

fn numbers(processor: &mut RowNumberProcessor, partitions: Option<&[i32]>, num_rows: usize) -> Vec<i32> {
    let partition_rows = partitions.map(rows_of);
    processor.process_batch_with(partition_rows.as_ref(), num_rows)
}

#[test]
fn rank_skips_past_peers() {
    let mut p = RankProcessor::new(false);
    assert_eq!(ranks(&mut p, Some(&PARTITIONS), &ORDERS), vec![1, 1, 3, 4, 1, 1, 3]);
}

#[test]
fn dense_rank_counts_peer_groups() {
    let mut p = RankProcessor::new(true);
    assert_eq!(ranks(&mut p, Some(&PARTITIONS), &ORDERS), vec![1, 1, 2, 3, 1, 1, 2]);
}

#[test]
fn row_number_counts_rows_in_partition() {
    let mut p = RowNumberProcessor::new();
    assert_eq!(numbers(&mut p, Some(&PARTITIONS), 7), vec![1, 2, 3, 4, 1, 2, 3]);
}

#[test]
fn rank_without_partition_spans_the_batch() {
    let mut p = RankProcessor::new(false);
    assert_eq!(ranks(&mut p, None, &[3, 3, 5, 5, 5, 9]), vec![1, 1, 3, 3, 3, 6]);
    let mut d = RankProcessor::new(true);
    assert_eq!(ranks(&mut d, None, &[3, 3, 5, 5, 5, 9]), vec![1, 1, 2, 2, 2, 3]);
    let mut n = RowNumberProcessor::new();
    assert_eq!(numbers(&mut n, None, 6), vec![1, 2, 3, 4, 5, 6]);
}

#[test]
fn rank_state_carries_across_batches() {
    for dense in [false, true] {
        let mut whole = RankProcessor::new(dense);
        let all = ranks(&mut whole, Some(&PARTITIONS), &ORDERS);
        let mut split = RankProcessor::new(dense);
        let mut parts = ranks(&mut split, Some(&PARTITIONS[..3]), &ORDERS[..3]);
        parts.extend(ranks(&mut split, Some(&PARTITIONS[3..]), &ORDERS[3..]));
        assert_eq!(all, parts);
    }
    let mut whole = RowNumberProcessor::new();
    let all = numbers(&mut whole, Some(&PARTITIONS), 7);
    let mut split = RowNumberProcessor::new();
    let mut parts = numbers(&mut split, Some(&PARTITIONS[..5]), 5);
    parts.extend(numbers(&mut split, Some(&PARTITIONS[5..]), 2));
    assert_eq!(all, parts);
}

#[test]
fn peers_across_a_batch_boundary_share_a_rank() {
    let mut p = RankProcessor::new(false);
    assert_eq!(ranks(&mut p, Some(&[1, 1]), &[4, 6]), vec![1, 2]);
    assert_eq!(ranks(&mut p, Some(&[1, 1, 2]), &[6, 8, 8]), vec![2, 4, 1]);
}

#[test]
fn rankings_are_ordered() {
    let partitions = [0, 0, 0, 0, 0, 1, 1, 1, 2];
    let orders = [1, 1, 2, 2, 3, 1, 2, 2, 1];
    let dense = ranks(&mut RankProcessor::new(true), Some(&partitions), &orders);
    let rank = ranks(&mut RankProcessor::new(false), Some(&partitions), &orders);
    let number = numbers(&mut RowNumberProcessor::new(), Some(&partitions), orders.len());
    for i in 0..orders.len() {
        assert!(1 <= dense[i]);
        assert!(dense[i] <= rank[i]);
        assert!(rank[i] <= number[i]);
        if i > 0 && (orders[i] != orders[i - 1] || partitions[i] != partitions[i - 1]) {
            assert_eq!(rank[i], number[i]);
        }
    }
}

#[test]
fn process_batch_builds_rank_column() {
    let partition_rows = rows_of(&PARTITIONS);
    let order_rows = rows_of(&ORDERS);
    let mut p = RankProcessor::new(false);
    let column = p.process_batch(Some(&partition_rows), &order_rows, 7).unwrap();
    assert_eq!(column.array.null_count(), 0);
    assert_eq!(column.array.values().to_vec(), vec![1, 1, 3, 4, 1, 1, 3]);
    let mut n = RowNumberProcessor::new();
    let column = n.process_batch(Some(&partition_rows), 7).unwrap();
    assert_eq!(column.array.values().to_vec(), vec![1, 2, 3, 4, 1, 2, 3]);
}

#[test]
fn process_batch_refuses_missing_rows() {
    let partition_rows = rows_of(&PARTITIONS);
    let order_rows = rows_of(&ORDERS);
    let short_partitions = rows_of(&PARTITIONS[..3]);
    let mut p = RankProcessor::new(false);
    assert!(p.process_batch(Some(&partition_rows), &order_rows, 8).is_none());
    assert!(p.process_batch(Some(&short_partitions), &order_rows, 7).is_none());
    // nothing was consumed: the next batch still starts fresh
    let column = p.process_batch(Some(&partition_rows), &order_rows, 2).unwrap();
    assert_eq!(column.array.values().to_vec(), vec![1, 1]);
    let mut n = RowNumberProcessor::new();
    assert!(n.checked_process_batch_with(Some(&short_partitions), 4).is_none());
    assert_eq!(n.checked_process_batch_with(Some(&short_partitions), 3), Some(vec![1, 2, 3]));
    assert_eq!(n.checked_process_batch_with(None, 2), Some(vec![4, 5]));
}

#[test]
fn process_batch_with_reads_a_prefix() {
    let mut p = RankProcessor::new(true);
    let order_rows = rows_of(&ORDERS);
    assert_eq!(p.process_batch_with(None, &order_rows, 3), vec![1, 1, 2]);
    assert_eq!(p.process_batch_with(None, &order_rows, 0), Vec::<i32>::new());
}

#[test]
fn selected_ranges_are_maximal_runs() {
    assert_eq!(selected_ranges(&vec![1, 2, 3, 1, 2, 3], 2), vec![0..2, 3..5]);
    assert_eq!(selected_ranges(&vec![1, 1, 1], 1), vec![0..3]);
    assert_eq!(selected_ranges(&vec![5, 6, 7], 4), Vec::<Range<usize>>::new());
    assert_eq!(selected_ranges(&vec![3, 1, 1, 9, 2], 2), vec![1..3, 4..5]);
    assert_eq!(selected_ranges(&vec![], 2), Vec::<Range<usize>>::new());
    assert_eq!(selected_ranges(&vec![0, -1, 2], 0), vec![0..2]);
}

fn group_limit(rank_type: WindowRankType, limit: usize) -> Vec<Range<usize>> {
    let partition_rows = rows_of(&PARTITIONS);
    let order_rows = rows_of(&ORDERS);
    let mut p = WindowGroupLimitProcessor::new(rank_type, limit);
    p.process_batch(Some(&partition_rows), &order_rows, 7)
}

#[test]
fn group_limit_keeps_rows_within_limit() {
    assert_eq!(group_limit(WindowRankType::RowNumber, 2), vec![0..2, 4..6]);
    assert_eq!(group_limit(WindowRankType::Rank, 2), vec![0..2, 4..6]);
    assert_eq!(group_limit(WindowRankType::DenseRank, 2), vec![0..3, 4..7]);
    assert_eq!(group_limit(WindowRankType::Rank, 3), vec![0..3, 4..7]);
    assert_eq!(group_limit(WindowRankType::RowNumber, 0), Vec::<Range<usize>>::new());
}

#[test]
fn group_limit_beyond_i32_keeps_everything() {
    assert_eq!(group_limit(WindowRankType::RowNumber, usize::MAX), vec![0..7]);
    assert_eq!(group_limit(WindowRankType::Rank, i32::MAX as usize + 1), vec![0..7]);
}

#[test]
fn group_limit_carries_state_across_batches() {
    let mut p = WindowGroupLimitProcessor::new(WindowRankType::Rank, 2);
    let first = p.process_batch(Some(&rows_of(&[1, 1])), &rows_of(&[10, 20]), 2);
    assert_eq!(first, vec![0..2]);
    let second = p.process_batch(Some(&rows_of(&[1, 1, 2])), &rows_of(&[20, 30, 1]), 3);
    assert_eq!(second, vec![0..1, 2..3]);
}

#[test]
fn checked_group_limit_refuses_missing_rows() {
    let order_rows = rows_of(&ORDERS);
    let mut p = WindowGroupLimitProcessor::new(WindowRankType::DenseRank, 1);
    assert_eq!(p.checked_process_batch(None, &order_rows, 8), None);
    assert_eq!(p.checked_process_batch(None, &order_rows, 7), Some(vec![0..2]));
}

fn bench_batch(num_partitions: usize, rows_per_partition: usize, peer_group_size: usize) -> (Rows, Rows, usize) {
    let num_rows = num_partitions * rows_per_partition;
    let partitions: Vec<i32> = (0..num_rows).map(|row| (row / rows_per_partition) as i32).collect();
    let orders: Vec<i32> = (0..num_rows)
        .map(|row| ((row % rows_per_partition) / peer_group_size) as i32)
        .collect();
    (rows_of(&partitions), rows_of(&orders), num_rows)
}

fn kept_rows(rank_type: WindowRankType, limit: usize) -> (usize, Vec<Range<usize>>) {
    let (partition_rows, order_rows, num_rows) = bench_batch(3, 10, 3);
    let mut p = WindowGroupLimitProcessor::new(rank_type, limit);
    let ranges = p.process_batch(Some(&partition_rows), &order_rows, num_rows);
    (ranges.iter().map(|r| r.end - r.start).sum(), ranges)
}

#[test]
fn group_limit_row_number_keeps_limit_per_partition() {
    let (kept, ranges) = kept_rows(WindowRankType::RowNumber, 4);
    assert_eq!(kept, 3 * 4);
    assert_eq!(ranges, vec![0..4, 10..14, 20..24]);
}

#[test]
fn group_limit_rank_keeps_whole_peer_groups() {
    let (kept, ranges) = kept_rows(WindowRankType::Rank, 4);
    assert_eq!(kept, 3 * 6);
    assert_eq!(ranges, vec![0..6, 10..16, 20..26]);
}

#[test]
fn group_limit_dense_rank_merges_adjacent_partitions() {
    let (kept, ranges) = kept_rows(WindowRankType::DenseRank, 4);
    assert_eq!(kept, 30);
    assert_eq!(ranges, vec![0..30]);
    let (kept, _) = kept_rows(WindowRankType::DenseRank, 2);
    assert_eq!(kept, 3 * 6);
}
