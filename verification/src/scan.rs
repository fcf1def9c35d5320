//! Row-by-row processing with a carried state: the state after a sequence
//! of rows, and the value that each row is given.

use vstd::prelude::*;

verus! {

/// The state after the rows `keys`, one `step` per row.
pub open spec fn scan_state<S, K>(step: spec_fn(S, K) -> S, s: S, keys: Seq<K>) -> S
    decreases keys.len(),
{
    if keys.len() == 0 {
        s
    } else {
        step(scan_state(step, s, keys.drop_last()), keys.last())
    }
}

/// The value `out` reads off the state reached after each of the rows `keys`.
pub open spec fn scan_outputs<S, K>(
    step: spec_fn(S, K) -> S,
    out: spec_fn(S) -> int,
    s: S,
    keys: Seq<K>,
) -> Seq<int>
    decreases keys.len(),
{
    if keys.len() == 0 {
        seq![]
    } else {
        scan_outputs(step, out, s, keys.drop_last()).push(out(scan_state(step, s, keys)))
    }
}

/// One value per row; the value of row `i` is read off the state after the
/// first `i + 1` rows.
pub proof fn lemma_scan_outputs<S, K>(
    step: spec_fn(S, K) -> S,
    out: spec_fn(S) -> int,
    s: S,
    keys: Seq<K>,
)
    ensures
        scan_outputs(step, out, s, keys).len() == keys.len(),
        forall|i: int|
            0 <= i < keys.len() ==> #[trigger] scan_outputs(step, out, s, keys)[i] == out(
                scan_state(step, s, keys.take(i + 1)),
            ),
    decreases keys.len(),
{
    if keys.len() > 0 {
        let prefix = keys.drop_last();
        lemma_scan_outputs(step, out, s, prefix);
        assert forall|i: int| 0 <= i < keys.len() implies #[trigger] scan_outputs(
            step,
            out,
            s,
            keys,
        )[i] == out(scan_state(step, s, keys.take(i + 1))) by {
            if i < keys.len() - 1 {
                assert(prefix.take(i + 1) =~= keys.take(i + 1));
            } else {
                assert(keys.take(i + 1) =~= keys);
            }
        }
    }
}

/// Processing `a` and then `b` reaches the state that processing `a + b` reaches.
pub proof fn lemma_scan_state_concat<S, K>(
    step: spec_fn(S, K) -> S,
    s: S,
    a: Seq<K>,
    b: Seq<K>,
)
    ensures
        scan_state(step, s, a + b) == scan_state(step, scan_state(step, s, a), b),
    decreases b.len(),
{
    if b.len() == 0 {
        assert(a + b =~= a);
    } else {
        lemma_scan_state_concat(step, s, a, b.drop_last());
        assert((a + b).drop_last() =~= a + b.drop_last());
        assert((a + b).last() == b.last());
    }
}

/// Processing `a` and then `b` gives the rows the values that processing
/// `a + b` gives them.
pub proof fn lemma_scan_outputs_concat<S, K>(
    step: spec_fn(S, K) -> S,
    out: spec_fn(S) -> int,
    s: S,
    a: Seq<K>,
    b: Seq<K>,
)
    ensures
        scan_outputs(step, out, s, a + b) == scan_outputs(step, out, s, a) + scan_outputs(
            step,
            out,
            scan_state(step, s, a),
            b,
        ),
    decreases b.len(),
{
    if b.len() == 0 {
        assert(a + b =~= a);
        assert(scan_outputs(step, out, s, a) + seq![] =~= scan_outputs(step, out, s, a));
    } else {
        lemma_scan_outputs_concat(step, out, s, a, b.drop_last());
        lemma_scan_state_concat(step, s, a, b);
        assert((a + b).drop_last() =~= a + b.drop_last());
        assert(scan_outputs(step, out, s, a + b) =~= scan_outputs(step, out, s, a) + scan_outputs(
            step,
            out,
            scan_state(step, s, a),
            b,
        ));
    }
}

/// The state after the first `i + 1` rows is one step past the state after
/// the first `i`.
pub proof fn lemma_scan_state_step<S, K>(step: spec_fn(S, K) -> S, s: S, keys: Seq<K>, i: int)
    requires
        0 <= i < keys.len(),
    ensures
        scan_state(step, s, keys.take(i + 1)) == step(scan_state(step, s, keys.take(i)), keys[i]),
{
    assert(keys.take(i + 1).drop_last() =~= keys.take(i));
    assert(keys.take(i + 1).last() == keys[i]);
}

} // verus!
