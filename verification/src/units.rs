//! Converting durations between timescales with exact arithmetic.

use crate::error::MergeError;
use vstd::arithmetic::div_mod::{lemma_fundamental_div_mod, lemma_fundamental_div_mod_converse};
use vstd::prelude::*;

verus! {

/// `a / b`, rounded up to a whole number. Meant for `b > 0`.
pub open spec fn ceil_div(a: int, b: int) -> int {
    (a + b - 1) / b
}

/// `a / b`, rounded to the nearest whole number, a half rounding up. Meant for
/// `b > 0`.
pub open spec fn round_div(a: int, b: int) -> int {
    (2 * a + b) / (2 * b)
}

/// A duration of `duration` units, `from` of which make a second, counted in
/// units of which `to` make a second, rounded up.
pub open spec fn rescale_up(duration: u64, from: u32, to: u32) -> int {
    ceil_div(duration * to, from as int)
}

/// A product of a 64-bit and a 32-bit number stays below 2^96.
pub proof fn lemma_product_bound(a: u64, b: u32)
    ensures
        0 <= a * b <= 0xffff_ffff_ffff_ffff * 0xffff_ffff,
        a * b < 0x1_0000_0000_0000_0000_0000_0000,
{
    assert(0 <= a * b <= 0xffff_ffff_ffff_ffff * 0xffff_ffff) by (nonlinear_arith)
        requires
            0 <= a <= 0xffff_ffff_ffff_ffff,
            0 <= b <= 0xffff_ffff,
    ;
}

/// `a * b` without overflow.
pub fn wide_mul(a: u64, b: u32) -> (r: u128)
    ensures
        r == a * b,
        r < 0x1_0000_0000_0000_0000_0000_0000,
{
    proof {
        lemma_product_bound(a, b);
    }
    a as u128 * b as u128
}

/// `a / b` rounded up.
pub(crate) fn div_ceil(a: u128, b: u128) -> (r: u128)
    requires
        b > 0,
        a + b <= u128::MAX,
    ensures
        r == ceil_div(a as int, b as int),
{
    (a + (b - 1)) / b
}

/// `a / b` rounded to the nearest whole number, a half rounding up.
pub(crate) fn div_round(a: u128, b: u128) -> (r: u128)
    requires
        b > 0,
        2 * b <= u128::MAX,
    ensures
        r == round_div(a as int, b as int),
{
    let q = a / b;
    let rem = a % b;
    proof {
        let ai = a as int;
        let bi = b as int;
        lemma_fundamental_div_mod(ai, bi);
        assert(ai == bi * (q as int) + rem as int);
        if 2 * rem >= b {
            assert(2 * (q as int) <= a) by (nonlinear_arith)
                requires
                    a as int == (b as int) * (q as int) + rem as int,
                    0 < rem < b,
                    q >= 0,
            ;
        }
        assert(0 <= q <= a) by (nonlinear_arith)
            requires
                ai == bi * (q as int) + rem as int,
                0 <= rem,
                bi > 0,
                q >= 0,
                a == ai,
        ;
        if 2 * rem >= b {
            assert(2 * ai + bi == (2 * bi) * (q + 1) + (2 * rem - bi)) by (nonlinear_arith)
                requires
                    ai == bi * (q as int) + rem as int,
            ;
            lemma_fundamental_div_mod_converse(2 * ai + bi, 2 * bi, q + 1, 2 * rem - bi);
        } else {
            assert(2 * ai + bi == (2 * bi) * (q as int) + (2 * rem + bi)) by (nonlinear_arith)
                requires
                    ai == bi * (q as int) + rem as int,
            ;
            lemma_fundamental_div_mod_converse(2 * ai + bi, 2 * bi, q as int, 2 * rem + bi);
        }
    }
    if 2 * rem >= b {
        q + 1
    } else {
        q
    }
}

/// Converts a duration from one timescale to another, rounding up. Fails
/// with `InvariantViolation` where the timescale to divide by is 0, and with
/// `Overflow` where the result does not fit 64 bits.
pub fn scale_duration(duration: u64, from: u32, to: u32) -> (r: Result<u64, MergeError>)
    ensures
        from == 0 ==> r == Err::<u64, MergeError>(MergeError::InvariantViolation),
        from > 0 && rescale_up(duration, from, to) > u64::MAX ==> r == Err::<u64, MergeError>(
            MergeError::Overflow,
        ),
        from > 0 && rescale_up(duration, from, to) <= u64::MAX ==> r == Ok::<u64, MergeError>(
            rescale_up(duration, from, to) as u64,
        ),
{
    if from == 0 {
        return Err(MergeError::InvariantViolation);
    }
    let q = div_ceil(wide_mul(duration, to), from as u128);
    if q > u64::MAX as u128 {
        return Err(MergeError::Overflow);
    }
    Ok(q as u64)
}

/// `a + b`, or `Overflow` where the sum does not fit 64 bits.
pub fn add_u64(a: u64, b: u64) -> (r: Result<u64, MergeError>)
    ensures
        a + b <= u64::MAX ==> r == Ok::<u64, MergeError>((a + b) as u64),
        a + b > u64::MAX ==> r == Err::<u64, MergeError>(MergeError::Overflow),
{
    match a.checked_add(b) {
        Some(s) => Ok(s),
        None => Err(MergeError::Overflow),
    }
}

/// `a + b`, or `Overflow` where the sum does not fit 32 bits.
pub fn add_u32(a: u32, b: u32) -> (r: Result<u32, MergeError>)
    ensures
        a + b <= u32::MAX ==> r == Ok::<u32, MergeError>((a + b) as u32),
        a + b > u32::MAX ==> r == Err::<u32, MergeError>(MergeError::Overflow),
{
    match a.checked_add(b) {
        Some(s) => Ok(s),
        None => Err(MergeError::Overflow),
    }
}

/// A rounded quotient is not negative and lies within half a unit of the
/// exact one: `round_div(a, b) * b` and `a` differ by half of `b` at most.
pub proof fn lemma_round_div(a: int, b: int)
    requires
        a >= 0,
        b > 0,
    ensures
        round_div(a, b) >= 0,
        2 * (round_div(a, b) * b - a) <= b,
        2 * (a - round_div(a, b) * b) < b,
{
    let q = (2 * a + b) / (2 * b);
    let r = (2 * a + b) % (2 * b);
    lemma_fundamental_div_mod(2 * a + b, 2 * b);
    assert(2 * a + b == (2 * b) * q + r);
    assert(q >= 0 && 2 * (q * b - a) == b - r) by (nonlinear_arith)
        requires
            2 * a + b == (2 * b) * q + r,
            0 <= r < 2 * b,
            a >= 0,
            b > 0,
    ;
}

} // verus!
