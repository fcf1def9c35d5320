# datafusion_ext_plans (ranking window functions)

Verified ranking for window operators: `row_number`, `rank` and
`dense_rank` over rows that arrive sorted by partition and order keys, in
batches, and the window group limit that keeps only the rows ranked within
a limit.

Rows reach the library in arrow's row format (`arrow::row::Rows`), one
`Rows` for the partition columns (absent when the window has no partition)
and one for the order columns.

- `src/rows.rs` reads the row encodings (`rows_contents` names what a
  `Rows` holds) and models one input row as a `RowKey`.
- `src/scan.rs` defines row-by-row processing with a carried state.
- `src/rank_processor.rs`, `src/row_number_processor.rs`: the processors,
  each with a mathematical state (`RankState`, `RowNumberState`) and a step
  function; every call is specified as that step run over the batch.
- `src/group_limit_processor.rs`: the group limit and `selected_ranges`,
  which returns the maximal runs of kept rows.
- `src/arrays.rs`: the rank column as an arrow `Int32Array`.
- `src/laws.rs`: properties across calls and processors.
- `app/lib.rs`: glue from arrow record batches.
