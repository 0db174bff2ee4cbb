//! Fixed-point numbers with 24 fractional bits.

use vstd::prelude::*;

verus! {

/// The fixed-point representation of 1.
pub const ONE: i64 = 16_777_216;

/// The fixed-point representation of one half.
pub const HALF: i64 = 8_388_608;

/// The larger of `x` and zero.
pub open spec fn relu_of(x: int) -> int {
    if x >= 0 {
        x
    } else {
        0
    }
}

/// The whole number nearest to the fixed-point number `s`; a number that lies
/// halfway between two whole numbers goes to the one farther from zero.
pub open spec fn round_nearest(s: int) -> int {
    if s >= 0 {
        (s + HALF) / (ONE as int)
    } else {
        -((-s + HALF) / (ONE as int))
    }
}

/// `round_nearest(s)` is a whole number nearest to `s`: the two differ by
/// at most one half, and by exactly one half only where the whole number is
/// the one farther from zero.
pub proof fn lemma_round_nearest_is_nearest(s: int)
    ensures
        s >= 0 ==> -HALF <= s - round_nearest(s) * ONE < HALF,
        s <= 0 ==> -HALF < s - round_nearest(s) * ONE <= HALF,
        s >= 0 ==> round_nearest(s) >= 0,
        s <= 0 ==> round_nearest(s) <= 0,
{
}

/// Rounding never reverses the order of two numbers.
pub proof fn lemma_round_nearest_monotone(s: int, t: int)
    requires
        s <= t,
    ensures
        round_nearest(s) <= round_nearest(t),
{
}

/// The larger of `x` and zero.
pub fn relu(x: i64) -> (r: i64)
    ensures
        r == relu_of(x as int),
{
    if x >= 0 {
        x
    } else {
        0
    }
}

} // verus!
