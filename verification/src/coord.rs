//! Arithmetic on coordinates that stops at the edges of the plane.

use vstd::prelude::*;
use crate::rules::clamp;

verus! {

/// `a + b`, or the nearest coordinate where the sum cannot be stored.
pub fn saturating_add(a: i64, b: i64) -> (sum: i64)
    ensures
        sum == clamp(a + b),
{
    match a.checked_add(b) {
        Some(sum) => sum,
        None => if b < 0 {
            i64::MIN
        } else {
            i64::MAX
        },
    }
}

/// `a - b`, or the nearest coordinate where the difference cannot be stored.
pub fn saturating_sub(a: i64, b: i64) -> (difference: i64)
    ensures
        difference == clamp(a - b),
{
    match a.checked_sub(b) {
        Some(difference) => difference,
        None => if b < 0 {
            i64::MAX
        } else {
            i64::MIN
        },
    }
}

} // verus!
