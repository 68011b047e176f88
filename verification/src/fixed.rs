//! Fixed-point arithmetic for pool pricing.
//!
//! A fixed-point number is a `u64` with 32 fractional bits, so `ONE` stands for
//! 1.0. Every operation rounds its result up to the next representable value;
//! products are formed in 128 bits before they are scaled back.

use vstd::prelude::*;
use crate::error::Error;

verus! {

/// The fixed-point representation of 1.0.
pub const ONE: u64 = 0x1_0000_0000;

/// Number of binary digits of a fractional exponent that `fx_pow` honours.
pub const FRACTION_BITS: u32 = 32;

/// `ceil(a * b / ONE)`, or `None` if that needs more than 64 bits.
pub open spec fn mul_up(a: u64, b: u64) -> Option<u64> {
    let p = (a as int * b as int + (ONE as int - 1)) / (ONE as int);
    if p <= u64::MAX as int { Some(p as u64) } else { None }
}

/// `ceil(a * ONE / b)` for `b > 0`, or `None` if that needs more than 64 bits.
pub open spec fn div_up(a: u64, b: u64) -> Option<u64> {
    let q = (a as int * ONE as int + (b as int - 1)) / (b as int);
    if q <= u64::MAX as int { Some(q as u64) } else { None }
}

/// The largest `r` with `r * r <= v`, by halving: two bits of `v` give one bit of `r`.
pub open spec fn floor_sqrt(v: nat) -> nat
    decreases v,
{
    if v == 0 {
        0
    } else {
        let r = 2 * floor_sqrt(v / 4);
        if (r + 1) * (r + 1) <= v { r + 1 } else { r }
    }
}

/// The fixed-point square root of `x`, rounded up.
pub open spec fn sqrt_up(x: u64) -> u64 {
    let v = (x as nat) * (ONE as nat);
    let f = floor_sqrt(v);
    if f * f == v { f as u64 } else { (f + 1) as u64 }
}

/// `base` to the whole power `n` by squaring, most significant bit first.
pub open spec fn pow_whole(base: u64, n: u64) -> Option<u64>
    decreases n,
{
    if n == 0 {
        Some(ONE)
    } else {
        match pow_whole(base, n / 2) {
            None => None,
            Some(h) => match mul_up(h, h) {
                None => None,
                Some(sq) => if n % 2 == 1 { mul_up(sq, base) } else { Some(sq) },
            },
        }
    }
}

/// `root` to the power `rem / den` (a proper fraction), from the first `bits`
/// binary digits of that fraction: digit `k` contributes the `2^k`-th root.
/// What is left of the exponent behind the last digit counts as one more
/// digit where the root is above one, and as nothing otherwise, so that the
/// result is never below the exact power.
pub open spec fn pow_frac(root: u64, rem: u64, den: u64, bits: nat) -> Option<u64>
    decreases bits,
{
    if bits == 0 {
        if rem == 0 || root <= ONE { Some(ONE) } else { Some(root) }
    } else {
        let s = sqrt_up(root);
        let twice = 2 * (rem as int);
        if twice >= den as int {
            match pow_frac(s, (twice - den) as u64, den, (bits - 1) as nat) {
                None => None,
                Some(t) => mul_up(s, t),
            }
        } else {
            pow_frac(s, twice as u64, den, (bits - 1) as nat)
        }
    }
}

/// `base` to the power `num / den`: the whole part of the exponent by squaring,
/// the fractional part by repeated square roots.
pub open spec fn pow(base: u64, num: u64, den: u64) -> Option<u64> {
    match pow_whole(base, num / den) {
        None => None,
        Some(w) => match pow_frac(base, num % den, den, FRACTION_BITS as nat) {
            None => None,
            Some(f) => mul_up(w, f),
        },
    }
}

/// The product of two 64-bit numbers, with room for a rounding term, fits 128 bits.
pub proof fn lemma_product_fits(a: u64, b: u64)
    ensures
        0 <= (a as int) * (b as int) <= 0xffff_ffff_ffff_fffe_0000_0000_0000_0001,
{
    assert(0 <= (a as int) * (b as int) <= 0xffff_ffff_ffff_ffff * 0xffff_ffff_ffff_ffff)
        by (nonlinear_arith)
        requires 0 <= a <= 0xffff_ffff_ffff_ffff, 0 <= b <= 0xffff_ffff_ffff_ffff;
}

/// Multiplies two fixed-point numbers, rounding up.
pub fn fx_mul_up(a: u64, b: u64) -> (r: Option<u64>)
    ensures
        r == mul_up(a, b),
{
    proof { lemma_product_fits(a, b); }
    let p: u128 = (a as u128) * (b as u128);
    let q: u128 = (p + (ONE as u128 - 1)) / (ONE as u128);
    if q <= u64::MAX as u128 { Some(q as u64) } else { None }
}

/// Divides two integers into a fixed-point quotient, rounding up.
pub fn fx_div_up(a: u64, b: u64) -> (r: Option<u64>)
    requires
        b > 0,
    ensures
        r == div_up(a, b),
{
    proof { lemma_product_fits(a, ONE); }
    let p: u128 = (a as u128) * (ONE as u128);
    let q: u128 = (p + (b as u128 - 1)) / (b as u128);
    if q <= u64::MAX as u128 { Some(q as u64) } else { None }
}

/// `floor_sqrt` brackets its argument between two consecutive squares.
pub proof fn lemma_floor_sqrt_brackets(v: nat)
    ensures
        floor_sqrt(v) * floor_sqrt(v) <= v < (floor_sqrt(v) + 1) * (floor_sqrt(v) + 1),
    decreases v,
{
    if v != 0 {
        lemma_floor_sqrt_brackets(v / 4);
        let h = floor_sqrt(v / 4);
        let q = v / 4;
        assert((2 * h) * (2 * h) <= v && v < (2 * h + 2) * (2 * h + 2)) by (nonlinear_arith)
            requires h * h <= q, q < (h + 1) * (h + 1), 4 * q <= v, v < 4 * q + 4;
        let r = 2 * h;
        let f = floor_sqrt(v);
        assert(f == if (r + 1) * (r + 1) <= v { r + 1 } else { r });
        if (r + 1) * (r + 1) <= v {
            assert((r + 1 + 1) * (r + 1 + 1) == (2 * h + 2) * (2 * h + 2)) by (nonlinear_arith)
                requires r == 2 * h;
        } else {
            assert(r * r == (2 * h) * (2 * h));
        }
    } else {
        assert(floor_sqrt(0) == 0);
        assert((0 + 1) * (0 + 1) == 1) by (nonlinear_arith);
    }
}

/// Integer square root of a value below 2^96.
pub fn isqrt(v: u128) -> (r: u128)
    requires
        v < 0x1_0000_0000_0000_0000_0000_0000,
    ensures
        r == floor_sqrt(v as nat),
        r * r <= v < (r + 1) * (r + 1),
        r < 0x1_0000_0000_0000,
    decreases v,
{
    if v == 0 {
        return 0;
    }
    let h: u128 = isqrt(v / 4);
    let r: u128 = 2 * h;
    proof {
        lemma_floor_sqrt_brackets(v as nat);
        let f = floor_sqrt(v as nat);
        assert(f < 0x1_0000_0000_0000) by (nonlinear_arith)
            requires f * f <= v, v < 0x1_0000_0000_0000_0000_0000_0000;
        assert((r + 1) * (r + 1) < 0x1_0000_0000_0000_0000_0000_0000_0000) by (nonlinear_arith)
            requires 0 <= r < 0x2_0000_0000_0000;
    }
    if (r + 1) * (r + 1) <= v { r + 1 } else { r }
}

/// Square root of a fixed-point number, rounded up.
pub fn fx_sqrt_up(x: u64) -> (r: u64)
    ensures
        r == sqrt_up(x),
{
    proof { lemma_product_fits(x, ONE); }
    let v: u128 = (x as u128) * (ONE as u128);
    let f: u128 = isqrt(v);
    proof {
        assert(f * f < 0x1_0000_0000_0000_0000_0000_0000) by (nonlinear_arith)
            requires 0 <= f < 0x1_0000_0000_0000;
    }
    if f * f == v { f as u64 } else { (f + 1) as u64 }
}

/// Raises a fixed-point number to a whole power.
pub fn fx_pow_whole(base: u64, n: u64) -> (r: Option<u64>)
    ensures
        r == pow_whole(base, n),
    decreases n,
{
    if n == 0 {
        return Some(ONE);
    }
    match fx_pow_whole(base, n / 2) {
        None => None,
        Some(h) => match fx_mul_up(h, h) {
            None => None,
            Some(sq) => if n % 2 == 1 { fx_mul_up(sq, base) } else { Some(sq) },
        },
    }
}

/// Raises a fixed-point number to a proper fraction `rem / den`.
pub fn fx_pow_frac(root: u64, rem: u64, den: u64, bits: u32) -> (r: Option<u64>)
    requires
        rem < den,
    ensures
        r == pow_frac(root, rem, den, bits as nat),
    decreases bits,
{
    if bits == 0 {
        return if rem == 0 || root <= ONE { Some(ONE) } else { Some(root) };
    }
    let s: u64 = fx_sqrt_up(root);
    let twice: u128 = 2 * (rem as u128);
    if twice >= den as u128 {
        match fx_pow_frac(s, (twice - den as u128) as u64, den, bits - 1) {
            None => None,
            Some(t) => fx_mul_up(s, t),
        }
    } else {
        fx_pow_frac(s, twice as u64, den, bits - 1)
    }
}

/// Raises a fixed-point number to the rational power `num / den`.
pub fn fx_pow(base: u64, num: u64, den: u64) -> (r: Option<u64>)
    requires
        den > 0,
    ensures
        r == pow(base, num, den),
{
    match fx_pow_whole(base, num / den) {
        None => None,
        Some(w) => match fx_pow_frac(base, num % den, den, FRACTION_BITS) {
            None => None,
            Some(f) => fx_mul_up(w, f),
        },
    }
}

} // verus!
