//! Absolute value and sign on machine integers, with exact contracts.

use vstd::prelude::*;

verus! {

pub open spec fn spec_abs(a: int) -> int {
    if a < 0 {
        -a
    } else {
        a
    }
}

pub open spec fn spec_signum(a: int) -> int {
    if a < 0 {
        -1
    } else if a == 0 {
        0
    } else {
        1
    }
}

/// The absolute value of `a`; the one unrepresentable input is excluded.
pub fn abs_i64(a: i64) -> (r: i64)
    requires
        a != i64::MIN,
    ensures
        r == spec_abs(a as int),
{
    if a < 0 {
        -a
    } else {
        a
    }
}

/// The sign of `a`: `-1`, `0` or `1`.
pub fn signum_i64(a: i64) -> (r: i64)
    ensures
        r == spec_signum(a as int),
{
    if a < 0 {
        -1
    } else if a == 0 {
        0
    } else {
        1
    }
}

} // verus!
