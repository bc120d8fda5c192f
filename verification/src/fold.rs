//! Sums and products of sequences whose items may be missing.

use vstd::prelude::*;

verus! {

/// The sum of the values, `None` as soon as one of them is missing.
pub open spec fn total(vals: Seq<Option<nat>>) -> Option<nat>
    decreases vals.len(),
{
    if vals.len() == 0 {
        Some(0)
    } else {
        match (total(vals.drop_last()), vals.last()) {
            (Some(a), Some(b)) => Some(a + b),
            _ => None,
        }
    }
}

/// The sum of the first `i + 1` values is the sum of the first `i` plus the
/// value at `i`.
pub proof fn lemma_total_step(vals: Seq<Option<nat>>, i: int)
    requires
        0 <= i < vals.len(),
    ensures
        total(vals.take(i + 1)) == match (total(vals.take(i)), vals[i]) {
            (Some(a), Some(b)) => Some(a + b),
            _ => None,
        },
{
    assert(vals.take(i + 1).drop_last() =~= vals.take(i));
}

/// Once a prefix has no sum, the whole sequence has none.
pub proof fn lemma_total_none(vals: Seq<Option<nat>>, i: int)
    requires
        0 <= i <= vals.len(),
        total(vals.take(i)) is None,
    ensures
        total(vals) is None,
    decreases vals.len() - i,
{
    if i < vals.len() {
        lemma_total_step(vals, i);
        lemma_total_none(vals, i + 1);
    } else {
        assert(vals.take(i) =~= vals);
    }
}

/// The sum of all values is at least the sum of any prefix.
pub proof fn lemma_total_grows(vals: Seq<Option<nat>>, i: int)
    requires
        0 <= i <= vals.len(),
    ensures
        total(vals) matches Some(t) ==> total(vals.take(i)) matches Some(p) && p <= t,
    decreases vals.len() - i,
{
    if i < vals.len() {
        lemma_total_step(vals, i);
        lemma_total_grows(vals, i + 1);
    } else {
        assert(vals.take(i) =~= vals);
    }
}

/// A sum as a `u32`, when it exists and fits.
pub open spec fn as_u32(t: Option<nat>) -> Option<u32> {
    match t {
        Some(v) => if v <= u32::MAX {
            Some(v as u32)
        } else {
            None
        },
        None => None,
    }
}

/// A sum as a `u64`, when it exists and fits.
pub open spec fn as_u64(t: Option<nat>) -> Option<u64> {
    match t {
        Some(v) => if v <= u64::MAX {
            Some(v as u64)
        } else {
            None
        },
        None => None,
    }
}

} // verus!

verus! {

/// `x` fits in an `i64`.
pub open spec fn fits_i64(x: int) -> bool {
    i64::MIN <= x <= i64::MAX
}

/// The sum of the values taken from left to right, `None` as soon as a
/// value is missing or a sum so far leaves the range of an `i64`.
pub open spec fn running_i64(vals: Seq<Option<int>>) -> Option<int>
    decreases vals.len(),
{
    if vals.len() == 0 {
        Some(0)
    } else {
        match (running_i64(vals.drop_last()), vals.last()) {
            (Some(a), Some(b)) => if fits_i64(a + b) {
                Some(a + b)
            } else {
                None
            },
            _ => None,
        }
    }
}

/// The running sum of the first `i + 1` values from that of the first `i`.
pub proof fn lemma_running_step(vals: Seq<Option<int>>, i: int)
    requires
        0 <= i < vals.len(),
    ensures
        running_i64(vals.take(i + 1)) == match (running_i64(vals.take(i)), vals[i]) {
            (Some(a), Some(b)) => if fits_i64(a + b) {
                Some(a + b)
            } else {
                None
            },
            _ => None,
        },
{
    assert(vals.take(i + 1).drop_last() =~= vals.take(i));
}

/// Once a prefix has no running sum, the whole sequence has none.
pub proof fn lemma_running_none(vals: Seq<Option<int>>, i: int)
    requires
        0 <= i <= vals.len(),
        running_i64(vals.take(i)) is None,
    ensures
        running_i64(vals) is None,
    decreases vals.len() - i,
{
    if i < vals.len() {
        lemma_running_step(vals, i);
        lemma_running_none(vals, i + 1);
    } else {
        assert(vals.take(i) =~= vals);
    }
}

/// A value as an `i64`.
pub open spec fn as_i64(t: Option<int>) -> Option<i64> {
    match t {
        Some(v) => Some(v as i64),
        None => None,
    }
}

} // verus!
