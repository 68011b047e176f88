//! Pricing rules of a weighted pool: proportional deposits and withdrawals,
//! and the two swap quotes of the constant weighted product.
//!
//! Every quote rounds in the pool's favour: what a caller pays is rounded up,
//! what a caller receives is rounded down.

use vstd::prelude::*;
use crate::error::Error;
use crate::fixed::{
    ONE, mul_up, div_up, pow, pow_whole, pow_frac, fx_mul_up, fx_div_up, fx_pow,
    lemma_product_fits,
};

verus! {

/// `ceil(reserve * shares / supply)`: what one token costs to mint `shares`.
pub open spec fn join_amount(reserve: u64, shares: u64, supply: u64) -> int {
    (reserve as int * shares as int + (supply as int - 1)) / (supply as int)
}

/// `floor(reserve * shares / supply)`: what redeeming `shares` pays of one token.
pub open spec fn exit_amount(reserve: u64, shares: u64, supply: u64) -> int {
    (reserve as int * shares as int) / (supply as int)
}

/// The deposit quote as a result: the amount, or why there is none.
pub open spec fn join_quote(reserve: u64, shares: u64, supply: u64) -> Result<u64, Error> {
    if supply == 0 {
        Err(Error::DivisionByZero)
    } else if join_amount(reserve, shares, supply) > u64::MAX as int {
        Err(Error::ArithmeticOverflow)
    } else {
        Ok(join_amount(reserve, shares, supply) as u64)
    }
}

/// The withdrawal quote as a result: the amount, or why there is none.
pub open spec fn exit_quote(reserve: u64, shares: u64, supply: u64) -> Result<u64, Error> {
    if supply == 0 {
        Err(Error::DivisionByZero)
    } else if exit_amount(reserve, shares, supply) > u64::MAX as int {
        Err(Error::ArithmeticOverflow)
    } else {
        Ok(exit_amount(reserve, shares, supply) as u64)
    }
}

/// `floor(amount * fraction / ONE)` for a fixed-point `fraction`.
pub open spec fn scale_down(amount: u64, fraction: u64) -> int {
    (amount as int * fraction as int) / (ONE as int)
}

/// What a swap pays out for `amount_in`:
/// `b_out * (1 - (b_in / (b_in + amount_in)) ^ (w_in / w_out))`, rounded down.
pub open spec fn out_given_in(b_in: u64, w_in: u64, b_out: u64, w_out: u64, amount_in: u64)
    -> Result<u64, Error> {
    if w_out == 0 || b_in as int + amount_in as int == 0 {
        Err(Error::DivisionByZero)
    } else if b_in as int + amount_in as int > u64::MAX as int {
        Err(Error::ArithmeticOverflow)
    } else {
        match div_up(b_in, (b_in + amount_in) as u64) {
            None => Err(Error::ArithmeticOverflow),
            Some(ratio) => match pow(ratio, w_in, w_out) {
                None => Err(Error::ArithmeticOverflow),
                Some(p) => {
                    let paid: u64 = if p >= ONE { 0 } else { (ONE - p) as u64 };
                    if scale_down(b_out, paid) > u64::MAX as int {
                        Err(Error::ArithmeticOverflow)
                    } else {
                        Ok(scale_down(b_out, paid) as u64)
                    }
                },
            },
        }
    }
}

/// What a swap charges for `amount_out`:
/// `b_in * ((b_out / (b_out - amount_out)) ^ (w_out / w_in) - 1)`, rounded up.
pub open spec fn in_given_out(b_in: u64, w_in: u64, b_out: u64, w_out: u64, amount_out: u64)
    -> Result<u64, Error> {
    if amount_out >= b_out {
        Err(Error::InsufficientLiquidity)
    } else if w_in == 0 {
        Err(Error::DivisionByZero)
    } else {
        match div_up(b_out, (b_out - amount_out) as u64) {
            None => Err(Error::ArithmeticOverflow),
            Some(ratio) => match pow(ratio, w_out, w_in) {
                None => Err(Error::ArithmeticOverflow),
                Some(p) => {
                    let gain: u64 = if p >= ONE { (p - ONE) as u64 } else { 0 };
                    match mul_up(b_in, gain) {
                        None => Err(Error::ArithmeticOverflow),
                        Some(a) => Ok(a),
                    }
                },
            },
        }
    }
}

/// Whether the spot price `(b_in / w_in) / (b_out / w_out)` is above `max_price`.
pub open spec fn price_exceeds(b_in: u64, w_in: u64, b_out: u64, w_out: u64, max_price: u64)
    -> bool {
    (b_in as int) * (w_out as int) > (max_price as int) * ((b_out as int) * (w_in as int))
}

/// Quotes the deposit of one token for `shares` new pool shares.
pub fn calc_join_amount(reserve: u64, shares: u64, supply: u64) -> (r: Result<u64, Error>)
    ensures
        r == join_quote(reserve, shares, supply),
{
    if supply == 0 {
        return Err(Error::DivisionByZero);
    }
    proof { lemma_product_fits(reserve, shares); }
    let p: u128 = (reserve as u128) * (shares as u128);
    let q: u128 = (p + (supply as u128 - 1)) / (supply as u128);
    if q > u64::MAX as u128 { Err(Error::ArithmeticOverflow) } else { Ok(q as u64) }
}

/// Quotes the withdrawal of one token for `shares` redeemed pool shares.
pub fn calc_exit_amount(reserve: u64, shares: u64, supply: u64) -> (r: Result<u64, Error>)
    ensures
        r == exit_quote(reserve, shares, supply),
{
    if supply == 0 {
        return Err(Error::DivisionByZero);
    }
    proof { lemma_product_fits(reserve, shares); }
    let p: u128 = (reserve as u128) * (shares as u128);
    let q: u128 = p / (supply as u128);
    if q > u64::MAX as u128 { Err(Error::ArithmeticOverflow) } else { Ok(q as u64) }
}

/// Quotes the amount paid out for an exact amount paid in.
pub fn calc_out_given_in(b_in: u64, w_in: u64, b_out: u64, w_out: u64, amount_in: u64)
    -> (r: Result<u64, Error>)
    ensures
        r == out_given_in(b_in, w_in, b_out, w_out, amount_in),
{
    if w_out == 0 || (b_in == 0 && amount_in == 0) {
        return Err(Error::DivisionByZero);
    }
    if amount_in > u64::MAX - b_in {
        return Err(Error::ArithmeticOverflow);
    }
    let ratio: u64 = match fx_div_up(b_in, b_in + amount_in) {
        None => { return Err(Error::ArithmeticOverflow); },
        Some(x) => x,
    };
    let p: u64 = match fx_pow(ratio, w_in, w_out) {
        None => { return Err(Error::ArithmeticOverflow); },
        Some(x) => x,
    };
    let paid: u64 = if p >= ONE { 0 } else { ONE - p };
    proof { lemma_product_fits(b_out, paid); }
    let q: u128 = ((b_out as u128) * (paid as u128)) / (ONE as u128);
    if q > u64::MAX as u128 { Err(Error::ArithmeticOverflow) } else { Ok(q as u64) }
}

/// Quotes the amount charged for an exact amount paid out.
pub fn calc_in_given_out(b_in: u64, w_in: u64, b_out: u64, w_out: u64, amount_out: u64)
    -> (r: Result<u64, Error>)
    ensures
        r == in_given_out(b_in, w_in, b_out, w_out, amount_out),
{
    if amount_out >= b_out {
        return Err(Error::InsufficientLiquidity);
    }
    if w_in == 0 {
        return Err(Error::DivisionByZero);
    }
    let ratio: u64 = match fx_div_up(b_out, b_out - amount_out) {
        None => { return Err(Error::ArithmeticOverflow); },
        Some(x) => x,
    };
    let p: u64 = match fx_pow(ratio, w_out, w_in) {
        None => { return Err(Error::ArithmeticOverflow); },
        Some(x) => x,
    };
    let gain: u64 = if p >= ONE { p - ONE } else { 0 };
    match fx_mul_up(b_in, gain) {
        None => Err(Error::ArithmeticOverflow),
        Some(a) => Ok(a),
    }
}

/// Tests the spot price of a pair of reserves against a limit, exactly.
pub fn spot_price_exceeds(b_in: u64, w_in: u64, b_out: u64, w_out: u64, max_price: u64)
    -> (r: bool)
    ensures
        r == price_exceeds(b_in, w_in, b_out, w_out, max_price),
{
    proof {
        lemma_product_fits(b_in, w_out);
        lemma_product_fits(b_out, w_in);
    }
    let num: u128 = (b_in as u128) * (w_out as u128);
    let den: u128 = (b_out as u128) * (w_in as u128);
    if den == 0 {
        assert((max_price as int) * (den as int) == 0) by (nonlinear_arith)
            requires den == 0;
        return num > 0;
    }
    let q: u128 = num / den;
    let rest: u128 = num % den;
    proof {
        let m = max_price as int;
        let d = den as int;
        let n = num as int;
        let qi = q as int;
        let ri = rest as int;
        assert(n == qi * d + ri && 0 <= ri < d) by (nonlinear_arith)
            requires qi == n / d, ri == n % d, d > 0, n >= 0;
        assert((n > m * d) == (qi > m || (qi == m && ri > 0))) by (nonlinear_arith)
            requires n == qi * d + ri, 0 <= ri < d, d > 0, m >= 0, qi >= 0;
    }
    q > max_price as u128 || (q == max_price as u128 && rest > 0)
}

/// An exponent of one leaves the base as it is: with equal weights `pow` is exact.
pub proof fn lemma_pow_equal_weights(base: u64, w: u64)
    requires
        w > 0,
    ensures
        pow(base, w, w) == Some(base),
{
    assert(w / w == 1 && w % w == 0) by (nonlinear_arith)
        requires w > 0;
    assert(mul_up(ONE, ONE) == Some(ONE)) by (nonlinear_arith);
    assert(mul_up(ONE, base) == Some(base)) by (nonlinear_arith);
    assert(mul_up(base, ONE) == Some(base)) by (nonlinear_arith);
    reveal_with_fuel(pow_whole, 3);
    assert(pow_whole(base, 0) == Some(ONE));
    assert(pow_whole(base, 1) == Some(base));
    lemma_pow_frac_zero(base, w, 32);
}

proof fn lemma_pow_frac_zero(root: u64, den: u64, bits: nat)
    requires
        den > 0,
    ensures
        pow_frac(root, 0, den, bits) == Some(ONE),
    decreases bits,
{
    if bits > 0 {
        lemma_pow_frac_zero(crate::fixed::sqrt_up(root), den, (bits - 1) as nat);
    }
}

/// With equal weights a sale pays out within one unit, and one step of the
/// fixed-point scale, of the exact `b_out * amount_in / (b_in + amount_in)`.
pub proof fn lemma_equal_weight_sale_is_close(
    b_in: u64,
    b_out: u64,
    w: u64,
    amount_in: u64,
    amount_out: u64,
)
    requires
        w > 0,
        out_given_in(b_in, w, b_out, w, amount_in) == Ok::<u64, Error>(amount_out),
    ensures
        amount_out * (b_in + amount_in) <= b_out * amount_in,
        (amount_out + 1) * ONE * (b_in + amount_in) + b_out * (b_in + amount_in) > b_out * amount_in
            * ONE,
{
    let sum = (b_in + amount_in) as u64;
    lemma_pow_equal_weights(div_up(b_in, sum).unwrap(), w);
    let d = sum as int;
    let r = div_up(b_in, sum).unwrap() as int;
    let one = ONE as int;
    let bo = b_out as int;
    let bi = b_in as int;
    let a = amount_in as int;
    let out = amount_out as int;
    assert(r * d >= bi * one && r * d < bi * one + d) by (nonlinear_arith)
        requires r == (bi * one + (d - 1)) / d, d > 0, bi >= 0, one > 0;
    assert(r <= one) by (nonlinear_arith)
        requires r * d < bi * one + d, bi <= d, d > 0, one > 0;
    let paid = one - r;
    assert(out * one <= bo * paid && (out + 1) * one > bo * paid && out >= 0) by (nonlinear_arith)
        requires out == (bo * paid) / one, one > 0, bo >= 0, paid >= 0;
    assert(out * d <= bo * a) by (nonlinear_arith)
        requires out * one <= bo * (one - r), r * d >= bi * one, d == bi + a, one > 0, bo >= 0, d > 0;
    assert((out + 1) * one * d + bo * d > bo * a * one) by (nonlinear_arith)
        requires
            (out + 1) * one > bo * (one - r),
            r * d < bi * one + d,
            d == bi + a,
            d > 0,
            bo >= 0,
            one > 0,
    ;
}

/// With equal weights a purchase charges within one unit, and one step of
/// the fixed-point scale, of the exact `b_in * amount_out / (b_out - amount_out)`.
pub proof fn lemma_equal_weight_purchase_is_close(
    b_in: u64,
    b_out: u64,
    w: u64,
    amount_out: u64,
    amount_in: u64,
)
    requires
        w > 0,
        in_given_out(b_in, w, b_out, w, amount_out) == Ok::<u64, Error>(amount_in),
    ensures
        amount_out < b_out,
        amount_in * (b_out - amount_out) >= b_in * amount_out,
        amount_in * ONE * (b_out - amount_out) < b_in * amount_out * ONE + b_in * (b_out
            - amount_out) + ONE * (b_out - amount_out),
{
    let left = (b_out - amount_out) as u64;
    lemma_pow_equal_weights(div_up(b_out, left).unwrap(), w);
    let l = left as int;
    let r = div_up(b_out, left).unwrap() as int;
    let one = ONE as int;
    let bo = b_out as int;
    let bi = b_in as int;
    let a = amount_out as int;
    let paid = amount_in as int;
    assert(r * l >= bo * one && r * l < bo * one + l) by (nonlinear_arith)
        requires r == (bo * one + (l - 1)) / l, l > 0, bo >= 0, one > 0;
    assert(r >= one) by (nonlinear_arith)
        requires r * l >= bo * one, bo >= l, l > 0, one > 0;
    let gain = r - one;
    assert(paid * one >= bi * gain && paid * one < bi * gain + one) by (nonlinear_arith)
        requires paid == (bi * gain + (one - 1)) / one, one > 0, bi >= 0, gain >= 0;
    assert(paid * l >= bi * a) by (nonlinear_arith)
        requires paid * one >= bi * (r - one), r * l >= bo * one, bo == l + a, one > 0, bi >= 0, l > 0;
    assert(paid * one * l < bi * a * one + bi * l + one * l) by (nonlinear_arith)
        requires
            paid * one < bi * (r - one) + one,
            r * l < bo * one + l,
            bo == l + a,
            l > 0,
            bi >= 0,
            one > 0,
    ;
}

/// Minting shares and redeeming them at once pays back no more than was paid
/// in, and at most one unit less, for each token.
pub proof fn lemma_join_then_exit(reserve: u64, shares: u64, supply: u64)
    requires
        supply > 0,
        join_amount(reserve, shares, supply) + reserve <= u64::MAX,
        supply + shares <= u64::MAX,
    ensures
        ({
            let paid = join_amount(reserve, shares, supply);
            let back = exit_amount((reserve + paid) as u64, shares, (supply + shares) as u64);
            back <= paid <= back + 1
        }),
{
    let r = reserve as int;
    let x = shares as int;
    let s = supply as int;
    let a = join_amount(reserve, shares, supply);
    let o = exit_amount((reserve + a) as u64, shares, (supply + shares) as u64);
    assert(a * s >= r * x && a * s < r * x + s && a >= 0) by (nonlinear_arith)
        requires a == (r * x + (s - 1)) / s, s > 0, r >= 0, x >= 0;
    assert(o * (s + x) <= (r + a) * x && (r + a) * x < (o + 1) * (s + x)) by (nonlinear_arith)
        requires o == ((r + a) * x) / (s + x), s + x > 0, r + a >= 0, x >= 0;
    assert(o <= a) by (nonlinear_arith)
        requires o * (s + x) <= (r + a) * x, a * s >= r * x, s > 0, x >= 0;
    assert(a <= o + 1) by (nonlinear_arith)
        requires (r + a) * x < (o + 1) * (s + x), a * s < r * x + s, s > 0, x >= 0;
}

} // verus!
