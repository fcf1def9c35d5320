//! Access to the byte encodings held by arrow's row format.

use arrow::row::Rows;
use vstd::prelude::*;

verus! {

#[verifier::external_type_specification]
#[verifier::external_body]
pub struct ExRows(Rows);

/// The byte encodings of the rows held by an arrow `Rows`, in row order.
pub uninterp spec fn rows_contents(rows: Rows) -> Seq<Seq<u8>>;

/// The keys of one input row: its partition key, where the window is
/// partitioned, and its order key.
pub struct RowKey {
    pub partition: Option<Seq<u8>>,
    pub order: Seq<u8>,
}

/// The keys of the first `n` rows of a batch, read from the row encodings
/// of the partition columns (`None`: the window has no partition) and of
/// the order columns.
pub open spec fn batch_keys(partition_rows: Option<&Rows>, order_rows: &Rows, n: nat) -> Seq<
    RowKey,
> {
    Seq::new(
        n,
        |i: int|
            RowKey {
                partition: match partition_rows {
                    Some(p) => Some(rows_contents(*p)[i]),
                    None => None,
                },
                order: rows_contents(*order_rows)[i],
            },
    )
}

/// Whether `n` rows can be read from the partition rows (if any) and the
/// order rows.
pub open spec fn batch_readable(partition_rows: Option<&Rows>, order_rows: &Rows, n: nat) -> bool {
    &&& n <= rows_contents(*order_rows).len()
    &&& (partition_rows matches Some(p) ==> n <= rows_contents(*p).len())
}

/// The partition keys of the first `n` rows of a batch (`None` for every
/// row where the window has no partition).
pub open spec fn partition_keys(partition_rows: Option<&Rows>, n: nat) -> Seq<Option<Seq<u8>>> {
    Seq::new(
        n,
        |i: int|
            match partition_rows {
                Some(p) => Some(rows_contents(*p)[i]),
                None => None,
            },
    )
}

/// Whether `n` rows can be read from the partition rows, if any.
pub open spec fn partitions_readable(partition_rows: Option<&Rows>, n: nat) -> bool {
    partition_rows matches Some(p) ==> n <= rows_contents(*p).len()
}

/// Calls `arrow::row::Rows::num_rows`, which returns the number of encoded rows.
#[verifier::external_body]
pub(crate) fn rows_len(rows: &Rows) -> (n: usize)
    ensures
        n == rows_contents(*rows).len(),
{
    rows.num_rows()
}

/// Calls `arrow::row::Rows::row` and then `arrow::row::Row::data`, which hand
/// back the bytes of row `i`; `Rows::row` panics when `i` is not below the
/// number of rows, so `requires` leaves that out.
#[verifier::external_body]
pub(crate) fn row_data<'a>(rows: &'a Rows, i: usize) -> (data: &'a [u8])
    requires
        i < rows_contents(*rows).len(),
    ensures
        data@ == rows_contents(*rows)[i as int],
{
    rows.row(i).data()
}

/// Whether `num_rows` rows can be read from the partition rows (if any)
/// and the order rows.
pub(crate) fn rows_readable(partition_rows: Option<&Rows>, order_rows: &Rows, num_rows: usize) -> (r:
    bool)
    ensures
        r == batch_readable(partition_rows, order_rows, num_rows as nat),
{
    let order_ok = num_rows <= rows_len(order_rows);
    match partition_rows {
        Some(p) => order_ok && num_rows <= rows_len(p),
        None => order_ok,
    }
}

/// Whether `num_rows` rows can be read from the partition rows, if any.
pub(crate) fn partition_rows_readable(partition_rows: Option<&Rows>, num_rows: usize) -> (r: bool)
    ensures
        r == partitions_readable(partition_rows, num_rows as nat),
{
    match partition_rows {
        Some(p) => num_rows <= rows_len(p),
        None => true,
    }
}

/// Byte-wise equality of two encoded keys.
pub fn bytes_eq(a: &[u8], b: &[u8]) -> (r: bool)
    ensures
        r == (a@ == b@),
{
    if a.len() != b.len() {
        return false;
    }
    let mut i: usize = 0;
    while i < a.len()
        invariant
            a@.len() == b@.len(),
            i <= a@.len(),
            forall|j: int| 0 <= j < i ==> a@[j] == b@[j],
        decreases a@.len() - i,
    {
        if a[i] != b[i] {
            return false;
        }
        i = i + 1;
    }
    assert(a@ =~= b@);
    true
}

} // verus!
