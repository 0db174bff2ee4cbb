//! Randomised rounding of a fixed-point number to a cell index.

use rand::Rng;
use vstd::prelude::*;
use crate::fixed::{HALF, ONE, round_nearest};

verus! {

/// The offset that 32 drawn bits stand for: their 24 high bits, read as a
/// fraction of one, less one half. It lies in `[-HALF, HALF)`.
pub open spec fn offset_of(bits: u32) -> int {
    (bits as int) / 256 - HALF
}

/// `r` brought into `[0, count)`: below zero it becomes zero, at or above
/// `count` it becomes `count - 1`.
pub open spec fn clamp_index(r: int, count: int) -> int {
    if r < 0 {
        0
    } else if r >= count {
        count - 1
    } else {
        r
    }
}

/// The index that `value` is dithered to when `bits` are drawn: the offset is
/// added, the sum is rounded to the nearest whole number and clamped.
pub open spec fn dithered(value: int, bits: u32, count: int) -> int {
    clamp_index(round_nearest(value + offset_of(bits)), count)
}

/// Dithers `value` with the given draw.
pub fn dither_with(value: i64, bits: u32, count: usize) -> (r: usize)
    requires
        count > 0,
    ensures
        r == dithered(value as int, bits, count as int),
        r < count,
{
    let offset: i64 = (bits / 256) as i64 - HALF;
    let s: i128 = value as i128 + offset as i128;
    if s < 0 {
        0
    } else {
        let q: u128 = (s as u128 + HALF as u128) / (ONE as u128);
        if q >= count as u128 {
            count - 1
        } else {
            q as usize
        }
    }
}

/// Draws 32 bits with `rand::Rng::gen::<u32>` on `rand::thread_rng()`, the
/// thread's generator. The draw is random: nothing is claimed of its value.
#[verifier::external_body]
fn draw_bits() -> (bits: u32) {
    rand::thread_rng().gen::<u32>()
}

/// Whatever is drawn, the index lies in `[0, count)`; a value that is not
/// positive always goes to index zero, and a value of `count - 1` or more
/// always goes to the last index.
pub proof fn lemma_dithered_bounds(value: int, bits: u32, count: int)
    requires
        count > 0,
    ensures
        0 <= dithered(value, bits, count) < count,
        value <= 0 ==> dithered(value, bits, count) == 0,
        value >= (count - 1) * ONE ==> dithered(value, bits, count) == count - 1,
{
    let s = value + offset_of(bits);
    if value >= (count - 1) * ONE && s >= 0 {
        assert((s + HALF) / (ONE as int) >= count - 1) by (nonlinear_arith)
            requires
                s + HALF >= (count - 1) * ONE,
                ONE == 16_777_216,
        ;
    }
}

/// A whole number within the range is dithered to itself, whatever is
/// drawn.
pub proof fn lemma_dithered_whole(k: int, bits: u32, count: int)
    requires
        0 <= k < count,
    ensures
        dithered(k * ONE, bits, count) == k,
{
    let s = k * ONE + offset_of(bits);
    if s >= 0 {
        assert((s + HALF) / (ONE as int) == k) by (nonlinear_arith)
            requires
                k * ONE <= s + HALF < k * ONE + ONE,
                ONE == 16_777_216,
        ;
    } else {
        assert(k == 0) by (nonlinear_arith)
            requires
                k * ONE < HALF,
                0 <= k,
                ONE == 16_777_216,
                HALF == 8_388_608,
        ;
    }
}

/// Among the indices that dithering can give for `value`, any two differ by
/// at most one: the offset moves the value by less than one half either way.
pub proof fn lemma_dithered_spread(value: int, bits1: u32, bits2: u32, count: int)
    requires
        count > 0,
    ensures
        dithered(value, bits1, count) - dithered(value, bits2, count) <= 1,
{
}

/// Dithers `value` to an index in `[0, count)` with a fresh uniform draw: a
/// random offset in `[-1/2, 1/2)` is added before rounding to the nearest whole
/// number, and the result is clamped to the range.
pub fn dither(value: i64, count: usize) -> (r: usize)
    requires
        count > 0,
    ensures
        r < count,
        exists|bits: u32| r == dithered(value as int, bits, count as int),
        value <= 0 ==> r == 0,
        value >= (count - 1) * ONE ==> r == count - 1,
{
    let bits = draw_bits();
    proof {
        lemma_dithered_bounds(value as int, bits, count as int);
    }
    dither_with(value, bits, count)
}

} // verus!
