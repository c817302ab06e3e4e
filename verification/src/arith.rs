//! Exact integer arithmetic shared by the pipeline stages.

use vstd::prelude::*;

verus! {

/// Relative quantities are expressed in parts per `SCALE`.
pub const SCALE: i64 = 1_000_000;

/// The magnitude of `a`.
pub open spec fn magnitude(a: int) -> int {
    if a < 0 {
        -a
    } else {
        a
    }
}

/// `a` divided by `b`, rounded toward zero. Only meaningful for `b != 0`.
pub open spec fn quotient(a: int, b: int) -> int {
    if (a < 0) == (b < 0) {
        magnitude(a) / magnitude(b)
    } else {
        -(magnitude(a) / magnitude(b))
    }
}

/// Whether `x` can be held in an `i64`.
pub open spec fn fits_i64(x: int) -> bool {
    i64::MIN <= x <= i64::MAX
}

fn magnitude_of(a: i128) -> (m: u128)
    requires
        i128::MIN < a,
    ensures
        m == magnitude(a as int),
{
    if a < 0 {
        (-a) as u128
    } else {
        a as u128
    }
}

/// Divides `a` by `b`, rounding toward zero.
pub fn divide(a: i128, b: i128) -> (q: i128)
    requires
        b != 0,
        i128::MIN < a,
        i128::MIN < b,
    ensures
        q == quotient(a as int, b as int),
{
    let ma: u128 = magnitude_of(a);
    let mb: u128 = magnitude_of(b);
    let mq: u128 = ma / mb;
    assert(mq <= ma) by (nonlinear_arith)
        requires
            mq == ma / mb,
            mb > 0,
    ;
    if (a < 0) == (b < 0) {
        mq as i128
    } else {
        -(mq as i128)
    }
}

} // verus!
