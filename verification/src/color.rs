//! Colours and the per-channel arithmetic of the colour-synthesis rule.

use vstd::prelude::*;

verus! {

/// An 8-bit-per-channel RGB colour.
#[derive(Clone, Copy, Debug, PartialEq, Eq, Structural)]
pub struct Color {
    pub red: u8,
    pub green: u8,
    pub blue: u8,
}

/// The three per-channel perturbations applied to one pixel.
#[derive(Clone, Copy, Debug, PartialEq, Eq, Structural)]
pub struct Jitter {
    pub red: i16,
    pub green: i16,
    pub blue: i16,
}

/// Integer division rounded to nearest, ties upward.
pub open spec fn spec_rounded_div(dividend: int, divisor: int) -> int
    recommends
        dividend >= 0,
        divisor > 0,
{
    dividend / divisor + if 2 * (dividend % divisor) >= divisor {
        1int
    } else {
        0int
    }
}

/// The average of a channel sum over `count` contributors, where a count of
/// zero divides by one.
pub open spec fn spec_channel_average(sum: int, count: int) -> int {
    spec_rounded_div(sum, if count == 0 { 1 } else { count })
}

/// `value + jitter`, clamped to a byte.
pub open spec fn spec_perturb(value: int, jitter: int) -> int {
    let moved = value + jitter;
    if moved < 0 {
        0
    } else if moved > 255 {
        255
    } else {
        moved
    }
}

/// Whether every channel of `jitter` lies in `[-bound, bound]`.
pub open spec fn spec_jitter_within(jitter: Jitter, bound: i16) -> bool {
    &&& -bound <= jitter.red <= bound
    &&& -bound <= jitter.green <= bound
    &&& -bound <= jitter.blue <= bound
}

/// Calls `rounded_div::u16`, which returns the truncated quotient plus one
/// when twice the remainder reaches the divisor. The divisor is kept at or
/// below `0x8000` so that doubling the remainder loses no bit.
#[verifier::external_body]
fn rounded_div_u16(dividend: u16, divisor: u16) -> (quotient: u16)
    requires
        0 < divisor <= 0x8000,
    ensures
        quotient == spec_rounded_div(dividend as int, divisor as int),
{
    rounded_div::u16(dividend, divisor)
}

/// A sum of at most 255 per contributor, averaged, fits a byte.
pub proof fn lemma_average_is_byte(sum: int, count: int)
    requires
        0 <= count,
        0 <= sum <= 255 * count,
    ensures
        0 <= spec_channel_average(sum, count) <= 255,
{
    let k = if count == 0 { 1 } else { count };
    assert(0 <= spec_rounded_div(sum, k) <= 255) by (nonlinear_arith)
        requires
            k > 0,
            0 <= sum <= 255 * k,
    {
        if sum == 255 * k {
            assert(sum % k == 0);
            assert(sum / k == 255);
        } else {
            assert(sum / k <= 254);
        }
    }
}

/// The rounded average of one channel: `sum` over `count` finalized
/// neighbours, a count of zero dividing by one.
pub fn channel_average(sum: u16, count: u16) -> (average: u8)
    requires
        count <= 4,
        sum <= 255 * count,
    ensures
        average == spec_channel_average(sum as int, count as int),
{
    let divisor: u16 = if count == 0 { 1 } else { count };
    let quotient: u16 = rounded_div_u16(sum, divisor);
    proof {
        lemma_average_is_byte(sum as int, count as int);
    }
    quotient as u8
}

/// Adds `jitter` to `value` and clamps the result to `[0, 255]`.
pub fn perturb(value: u8, jitter: i16) -> (moved: u8)
    ensures
        moved == spec_perturb(value as int, jitter as int),
{
    let wide: i32 = value as i32 + jitter as i32;
    if wide < 0 {
        0
    } else if wide > 255 {
        255
    } else {
        wide as u8
    }
}

} // verus!
