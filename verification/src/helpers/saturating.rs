//! Sums and differences that stop at the ends of the range of values.

use vstd::prelude::*;

use crate::solver::view::IntVal;

verus! {

/// The value in the range of values that is nearest to `x`.
pub open spec fn clamped(x: int) -> int {
    if x > IntVal::MAX {
        IntVal::MAX as int
    } else if x < IntVal::MIN {
        IntVal::MIN as int
    } else {
        x
    }
}

/// The sum of the values, or the end of the range that it exceeds.
pub fn saturating_add(a: IntVal, b: IntVal) -> (r: IntVal)
    ensures
        r == clamped(a + b),
{
    match a.checked_add(b) {
        Some(r) => r,
        None => if b > 0 {
            IntVal::MAX
        } else {
            IntVal::MIN
        },
    }
}

/// The difference of the values, or the end of the range that it exceeds.
pub fn saturating_sub(a: IntVal, b: IntVal) -> (r: IntVal)
    ensures
        r == clamped(a - b),
{
    match a.checked_sub(b) {
        Some(r) => r,
        None => if b > 0 {
            IntVal::MIN
        } else {
            IntVal::MAX
        },
    }
}

} // verus!
