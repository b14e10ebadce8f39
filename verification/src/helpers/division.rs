//! Division of integers rounded to either side.

use vstd::prelude::*;

use crate::solver::view::IntVal;

verus! {

/// The largest integer whose product with `b` is at most `a`.
pub fn div_floor(a: IntVal, b: IntVal) -> (r: IntVal)
    requires
        b > 0,
        -0x4000_0000_0000_0000 <= a <= 0x4000_0000_0000_0000,
        b <= 0x1000_0000_0000_0000,
    ensures
        r * b <= a < (r + 1) * b,
        if a >= 0 {
            0 <= r <= a
        } else {
            a <= r <= 0
        },
{
    if a >= 0 {
        let q: u64 = (a as u64) / (b as u64);
        proof {
            let (x, y) = (a as int, b as int);
            assert((x / y) * y <= x < (x / y + 1) * y && 0 <= x / y <= x) by (nonlinear_arith)
                requires
                    x >= 0,
                    y > 0,
            ;
        }
        q as IntVal
    } else {
        let c: u64 = (0 - a) as u64 + (b as u64 - 1);
        let q: u64 = c / (b as u64);
        proof {
            let (x, y) = (-(a as int), b as int);
            let z = x + y - 1;
            assert(-(z / y) * y <= -x < (-(z / y) + 1) * y && 0 <= z / y <= x) by (nonlinear_arith)
                requires
                    x >= 1,
                    y > 0,
                    z == x + y - 1,
            ;
        }
        0 - (q as IntVal)
    }
}

/// The smallest integer whose product with `b` is at least `a`.
pub fn div_ceil(a: IntVal, b: IntVal) -> (r: IntVal)
    requires
        b > 0,
        -0x4000_0000_0000_0000 <= a <= 0x4000_0000_0000_0000,
        b <= 0x1000_0000_0000_0000,
    ensures
        (r - 1) * b < a <= r * b,
        if a >= 0 {
            0 <= r <= a
        } else {
            a <= r <= 0
        },
{
    let q: IntVal = div_floor(0 - a, b);
    proof {
        let (x, y, z) = (a as int, b as int, q as int);
        assert((-z - 1) * y < x <= -z * y) by (nonlinear_arith)
            requires
                z * y <= -x < (z + 1) * y,
        ;
    }
    0 - q
}

} // verus!
