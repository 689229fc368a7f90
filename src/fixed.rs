use vstd::prelude::*;

verus! {

/// One unit of a fixed-point value: `v` stands for `v / SCALE`.
pub const SCALE: i64 = 1_000_000;

/// Largest magnitude of a sample coordinate, a parameter or a learning rate.
pub const VALUE_LIMIT: i64 = 10_000_000_000;

/// A value that the arithmetic of this library can hold.
pub open spec fn in_range(v: int) -> bool {
    -VALUE_LIMIT <= v <= VALUE_LIMIT
}

/// Division of `a` by a positive `d`, rounded toward zero.
pub open spec fn trunc_div(a: int, d: int) -> int {
    if a >= 0 {
        a / d
    } else {
        -((-a) / d)
    }
}

/// Division of `a` by a positive `d`, rounded away from zero.
pub open spec fn away_div(a: int, d: int) -> int {
    if a >= 0 {
        (a + d - 1) / d
    } else {
        -((-a + d - 1) / d)
    }
}

/// `trunc_div` on machine integers.
pub fn trunc_div_exec(a: i128, d: i128) -> (r: i128)
    requires
        a > i128::MIN,
        d > 0,
    ensures
        r == trunc_div(a as int, d as int),
{
    if a >= 0 {
        a / d
    } else {
        -((-a) / d)
    }
}

/// `away_div` on machine integers, for the magnitudes that residuals reach.
pub fn away_div_exec(a: i128, d: i128) -> (r: i128)
    requires
        -1_000_000_000_000_000_000_000_000_000_000i128 <= a <= 1_000_000_000_000_000_000_000_000_000_000i128,
        0 < d <= 1_000_000_000_000_000_000i128,
    ensures
        r == away_div(a as int, d as int),
{
    if a >= 0 {
        (a + d - 1) / d
    } else {
        -((-a + d - 1) / d)
    }
}

} // verus!
