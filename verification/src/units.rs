//! Fixed-point quantities.
//!
//! A normalized quantity (a distance as a share of the far plane, a depth
//! offset) is an integer count of millionths, so that `UNIT` stands for one
//! whole. Time is an integer count of microseconds.

use vstd::prelude::*;

verus! {

/// One whole, in millionths.
pub const UNIT: i64 = 1_000_000;

/// `x` brought into the closed range from zero to one whole.
pub open spec fn clamp_unit(x: int) -> int {
    if x < 0 {
        0
    } else if x > UNIT as int {
        UNIT as int
    } else {
        x
    }
}

/// The absolute value of `x`.
pub open spec fn magnitude(x: int) -> int {
    if x < 0 {
        -x
    } else {
        x
    }
}

/// The smaller of two values.
pub open spec fn lesser(a: int, b: int) -> int {
    if a <= b {
        a
    } else {
        b
    }
}

/// The larger of two values.
pub open spec fn greater(a: int, b: int) -> int {
    if a >= b {
        a
    } else {
        b
    }
}

/// Whether `x` is a normalized quantity.
pub open spec fn is_normalized(x: int) -> bool {
    0 <= x <= UNIT as int
}

/// Clamps `x` into the range from zero to one whole.
pub fn clamp_to_unit(x: i64) -> (r: i64)
    ensures
        r as int == clamp_unit(x as int),
        is_normalized(r as int),
{
    if x < 0 {
        0
    } else if x > UNIT {
        UNIT
    } else {
        x
    }
}

/// Clamps the absolute value of `x` into the range from zero to one whole.
/// Every input is accepted, the most negative one included.
pub fn clamp_magnitude_to_unit(x: i64) -> (r: i64)
    ensures
        r as int == clamp_unit(magnitude(x as int)),
        is_normalized(r as int),
{
    if x <= -UNIT {
        UNIT
    } else if x < 0 {
        -x
    } else if x > UNIT {
        UNIT
    } else {
        x
    }
}

} // verus!
