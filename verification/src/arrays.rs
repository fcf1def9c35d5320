//! The arrow array that holds a column of ranks.

use arrow::array::Int32Array;
use vstd::prelude::*;

verus! {

/// A column of ranks as an arrow `Int32Array`.
#[verifier::external_body]
pub struct RankArray {
    pub array: Int32Array,
}

/// The slots of a rank column, in order: `None` for a null slot.
pub uninterp spec fn rank_array_slots(array: RankArray) -> Seq<Option<i32>>;

/// Calls `From<Vec<i32>>` for `arrow::array::Int32Array`, which builds an
/// array without nulls holding `values` in order.
#[verifier::external_body]
pub(crate) fn rank_array_from(values: Vec<i32>) -> (array: RankArray)
    ensures
        rank_array_slots(array) == values@.map_values(|v: i32| Some(v)),
{
    RankArray { array: Int32Array::from(values) }
}

} // verus!
