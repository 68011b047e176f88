//! The weighted product of a pool's reserves never falls in a swap.
//!
//! The fixed-point power rounds up at every step, so the power it returns is
//! never below the exact one. From that, the quotes of both swaps leave the
//! product of the reserves, each raised to its weight, at least as large as
//! it was. Everything is stated over whole numbers: a power of a ratio is
//! compared after both sides were multiplied out.

use vstd::prelude::*;
use crate::error::Error;
use crate::fixed::{ONE, mul_up, div_up, sqrt_up, floor_sqrt, pow, pow_whole, pow_frac, lemma_floor_sqrt_brackets};
use crate::swap::{out_given_in, in_given_out};

verus! {

/// `b` multiplied by itself `e` times.
pub open spec fn power(b: nat, e: nat) -> nat
    decreases e,
{
    if e == 0 {
        1
    } else {
        b * power(b, (e - 1) as nat)
    }
}

/// `(p / ONE) ^ d >= (r / ONE) ^ n`, multiplied out.
pub open spec fn at_least(p: nat, r: nat, n: nat, d: nat) -> bool {
    power(p, d) * power(ONE as nat, n) >= power(r, n) * power(ONE as nat, d)
}

proof fn lemma_power_adds(b: nat, m: nat, n: nat)
    ensures
        power(b, m + n) == power(b, m) * power(b, n),
    decreases m,
{
    if m == 0 {
        assert(1 * power(b, n) == power(b, n));
    } else {
        lemma_power_adds(b, (m - 1) as nat, n);
        assert(((m - 1) as nat + n) as nat == (m + n - 1) as nat);
        let x = power(b, (m - 1) as nat);
        let y = power(b, n);
        assert(b * (x * y) == (b * x) * y) by (nonlinear_arith);
    }
}

proof fn lemma_power_mul(a: nat, b: nat, e: nat)
    ensures
        power(a * b, e) == power(a, e) * power(b, e),
    decreases e,
{
    if e > 0 {
        lemma_power_mul(a, b, (e - 1) as nat);
        let x = power(a, (e - 1) as nat);
        let y = power(b, (e - 1) as nat);
        assert((a * b) * (x * y) == (a * x) * (b * y)) by (nonlinear_arith);
        assert(power(a * b, e) == (a * b) * power(a * b, (e - 1) as nat));
        assert(power(a, e) == a * x);
        assert(power(b, e) == b * y);
    } else {
        assert(power(a * b, 0) == 1);
        let x = power(a, 0);
        let y = power(b, 0);
        assert(x * y == 1) by (nonlinear_arith)
            requires x == 1, y == 1;
    }
}

/// A larger base gives a power that is no smaller.
pub proof fn lemma_power_mono(a: nat, b: nat, e: nat)
    requires
        a <= b,
    ensures
        power(a, e) <= power(b, e),
    decreases e,
{
    if e > 0 {
        lemma_power_mono(a, b, (e - 1) as nat);
        let x = power(a, (e - 1) as nat);
        let y = power(b, (e - 1) as nat);
        assert(a * x <= b * y) by (nonlinear_arith)
            requires 0 <= a <= b, 0 <= x <= y;
    }
}

proof fn lemma_power_strict(a: nat, b: nat, e: nat)
    requires
        a < b,
        e > 0,
    ensures
        power(a, e) < power(b, e),
{
    lemma_power_mono(a, b, (e - 1) as nat);
    lemma_power_pos(b, (e - 1) as nat);
    let x = power(a, (e - 1) as nat);
    let y = power(b, (e - 1) as nat);
    assert(a * x < b * y) by (nonlinear_arith)
        requires 0 <= a < b, 0 <= x <= y, y > 0;
}

proof fn lemma_power_pos(b: nat, e: nat)
    requires
        b > 0,
    ensures
        power(b, e) > 0,
    decreases e,
{
    if e > 0 {
        lemma_power_pos(b, (e - 1) as nat);
        let x = power(b, (e - 1) as nat);
        assert(b * x > 0) by (nonlinear_arith)
            requires b > 0, x > 0;
    }
}

/// Products of larger factors are no smaller.
pub proof fn lemma_mul_mono(a: nat, b: nat, c: nat, d: nat)
    requires
        a >= b,
        c >= d,
    ensures
        a * c >= b * d,
{
    assert(a * c >= b * d) by (nonlinear_arith)
        requires a >= b, b >= 0, c >= d, d >= 0;
}

proof fn lemma_cancel(x: nat, y: nat, k: nat)
    requires
        x * k >= y * k,
        k > 0,
    ensures
        x >= y,
{
    assert(x >= y) by (nonlinear_arith)
        requires x * k >= y * k, k > 0;
}

/// `x * ONE >= a * b` gives `x ^ e * ONE ^ e >= a ^ e * b ^ e`.
proof fn lemma_lift(x: nat, a: nat, b: nat, e: nat)
    requires
        x * (ONE as nat) >= a * b,
    ensures
        power(x, e) * power(ONE as nat, e) >= power(a, e) * power(b, e),
{
    lemma_power_mono(a * b, x * (ONE as nat), e);
    lemma_power_mul(a, b, e);
    lemma_power_mul(x, ONE as nat, e);
}

proof fn lemma_mul_up_bound(a: u64, b: u64)
    requires
        mul_up(a, b) is Some,
    ensures
        mul_up(a, b).unwrap() as nat * (ONE as nat) >= (a as nat) * (b as nat),
{
    let p = mul_up(a, b).unwrap() as int;
    let x = a as int;
    let y = b as int;
    let one = ONE as int;
    assert(p * one >= x * y) by (nonlinear_arith)
        requires p == (x * y + (one - 1)) / one, one > 0;
}

proof fn lemma_sqrt_up_bound(x: u64)
    ensures
        (sqrt_up(x) as nat) * (sqrt_up(x) as nat) >= (x as nat) * (ONE as nat),
        sqrt_up(x) as nat <= 0x1_0000_0000_0000,
        x > ONE ==> sqrt_up(x) > ONE,
{
    let v = (x as nat) * (ONE as nat);
    let f = floor_sqrt(v);
    lemma_floor_sqrt_brackets(v);
    assert(v < 0x1_0000_0000_0000_0000_0000_0000) by (nonlinear_arith)
        requires v == (x as nat) * 0x1_0000_0000, x <= 0xffff_ffff_ffff_ffff;
    assert(f < 0x1_0000_0000_0000) by (nonlinear_arith)
        requires f * f <= v, v < 0x1_0000_0000_0000_0000_0000_0000;
    if x > ONE {
        let s: nat = if f * f == v { f } else { f + 1 };
        assert(s > 0x1_0000_0000) by (nonlinear_arith)
            requires s * s >= v, v == (x as nat) * 0x1_0000_0000, x > 0x1_0000_0000, s >= 0;
    }
}

/// A whole power is never below the exact one: `w / ONE >= (r / ONE) ^ m`.
proof fn lemma_pow_whole_bound(r: u64, m: u64)
    requires
        pow_whole(r, m) is Some,
    ensures
        pow_whole(r, m).unwrap() as nat * power(ONE as nat, m as nat) >= power(r as nat, m as nat) * (
        ONE as nat),
    decreases m,
{
    let one = ONE as nat;
    let rr = r as nat;
    if m == 0 {
        assert(pow_whole(r, 0) == Some(ONE));
        assert(power(one, 0) == 1);
        assert(power(rr, 0) == 1);
        assert(one * 1 >= 1 * one);
    } else {
        let k = (m / 2) as nat;
        lemma_pow_whole_bound(r, m / 2);
        let h = pow_whole(r, m / 2).unwrap();
        let sq = mul_up(h, h).unwrap();
        lemma_mul_up_bound(h, h);
        let ok = power(one, k);
        let rk = power(rr, k);
        lemma_mul_mono(h as nat * ok, rk * one, h as nat * ok, rk * one);
        lemma_power_adds(one, k, k);
        lemma_power_adds(rr, k, k);
        let o2 = power(one, k + k);
        let r2 = power(rr, k + k);
        let hn = h as nat;
        let sn = sq as nat;
        assert((sn * o2) * one >= (r2 * one) * one) by (nonlinear_arith)
            requires
                sn * one >= hn * hn,
                (hn * ok) * (hn * ok) >= (rk * one) * (rk * one),
                o2 == ok * ok,
                r2 == rk * rk,
                ok >= 0,
        ;
        lemma_cancel(sn * o2, r2 * one, one);
        if m % 2 == 1 {
            let w = mul_up(sq, r).unwrap() as nat;
            lemma_mul_up_bound(sq, r);
            assert(m as nat == k + k + 1);
            assert(power(one, m as nat) == one * o2);
            assert(power(rr, m as nat) == rr * r2);
            assert(w * (one * o2) >= (rr * r2) * one) by (nonlinear_arith)
                requires w * one >= sn * rr, sn * o2 >= r2 * one, o2 >= 0, rr >= 0;
            assert(pow_whole(r, m) == Some(w as u64));
        } else {
            assert(m as nat == k + k);
            assert(pow_whole(r, m) == Some(sq));
            assert(sn * o2 >= r2 * one);
        }
    }
}

/// A fractional power is never below the exact one:
/// `(f / ONE) ^ den >= (root / ONE) ^ rem`.
proof fn lemma_pow_frac_bound(root: u64, rem: u64, den: u64, bits: nat)
    requires
        rem < den,
        pow_frac(root, rem, den, bits) is Some,
    ensures
        at_least(pow_frac(root, rem, den, bits).unwrap() as nat, root as nat, rem as nat, den as nat),
    decreases bits,
{
    let one = ONE as nat;
    let x = root as nat;
    let n = rem as nat;
    let d = den as nat;
    lemma_power_pos(one, n);
    lemma_power_pos(one, d);
    if bits == 0 {
        if rem == 0 {
        } else if root <= ONE {
            lemma_power_mono(x, one, n);
            lemma_mul_mono(power(one, n), power(x, n), power(one, d), power(one, d));
            assert(power(one, d) * power(one, n) == power(one, n) * power(one, d)) by (nonlinear_arith);
        } else {
            let gap = (d - n) as nat;
            lemma_power_adds(x, n, gap);
            lemma_power_adds(one, n, gap);
            lemma_power_mono(one, x, gap);
            let xn = power(x, n);
            let xg = power(x, gap);
            let on = power(one, n);
            let og = power(one, gap);
            assert(n + gap == d);
            assert((xn * xg) * on >= xn * (on * og)) by (nonlinear_arith)
                requires xg >= og, xn >= 0, on >= 0;
        }
    } else {
        let s = sqrt_up(root);
        let sn = s as nat;
        lemma_sqrt_up_bound(root);
        lemma_power_mono(x * one, sn * sn, n);
        lemma_power_mul(x, one, n);
        lemma_power_mul(sn, sn, n);
        lemma_power_adds(sn, n, n);
        let s2n = power(sn, n + n);
        let xn = power(x, n);
        let on = power(one, n);
        let od = power(one, d);
        assert(s2n >= xn * on);
        if 2 * rem >= den {
            let next = (2 * rem - den) as u64;
            let m = next as nat;
            let t = pow_frac(s, next, den, (bits - 1) as nat).unwrap();
            let tn = t as nat;
            lemma_pow_frac_bound(s, next, den, (bits - 1) as nat);
            let f = mul_up(s, t).unwrap() as nat;
            lemma_mul_up_bound(s, t);
            lemma_lift(f, sn, tn, d);
            let fd = power(f, d);
            let sd = power(sn, d);
            let td = power(tn, d);
            let om = power(one, m);
            let sm = power(sn, m);
            lemma_power_adds(sn, d, m);
            assert(d + m == n + n);
            let gap = (d - n) as nat;
            let og = power(one, gap);
            lemma_power_adds(one, m, gap);
            lemma_power_adds(one, n, gap);
            assert(m + gap == n);
            lemma_power_pos(one, gap);
            lemma_power_pos(one, m);
            assert((fd * om) * od >= s2n * od) by (nonlinear_arith)
                requires fd * od >= sd * td, td * om >= sm * od, s2n == sd * sm, sd >= 0, om >= 0;
            lemma_cancel(fd * om, s2n, od);
            assert(fd * on >= xn * od) by (nonlinear_arith)
                requires
                    fd * om >= s2n,
                    s2n >= xn * on,
                    on == om * og,
                    od == on * og,
                    og > 0,
            ;
        } else {
            let next = (2 * rem) as u64;
            let f = pow_frac(s, next, den, (bits - 1) as nat).unwrap() as nat;
            lemma_pow_frac_bound(s, next, den, (bits - 1) as nat);
            let fd = power(f, d);
            lemma_power_adds(one, n, n);
            assert((fd * on) * on >= (xn * od) * on) by (nonlinear_arith)
                requires fd * (on * on) >= s2n * od, s2n >= xn * on, od >= 0;
            lemma_cancel(fd * on, xn * od, on);
        }
    }
}

/// The fixed-point power is never below the exact power:
/// `(p / ONE) ^ den >= (base / ONE) ^ num`.
pub proof fn lemma_pow_rounds_up(base: u64, num: u64, den: u64)
    requires
        den > 0,
        pow(base, num, den) is Some,
    ensures
        at_least(pow(base, num, den).unwrap() as nat, base as nat, num as nat, den as nat),
{
    let one = ONE as nat;
    let r = base as nat;
    let q = (num / den) as nat;
    let rem = (num % den) as nat;
    let d = den as nat;
    let n = num as nat;
    let wv = pow_whole(base, num / den).unwrap();
    let fv = pow_frac(base, num % den, den, 32).unwrap();
    let w = wv as nat;
    let f = fv as nat;
    let p = mul_up(wv, fv).unwrap() as nat;
    lemma_pow_whole_bound(base, num / den);
    lemma_pow_frac_bound(base, num % den, den, 32);
    lemma_mul_up_bound(wv, fv);
    lemma_lift(p, w, f, d);
    // w ^ d * ONE ^ (q * d) >= r ^ (q * d) * ONE ^ d
    lemma_power_mono(power(r, q) * one, w * power(one, q), d);
    lemma_power_mul(power(r, q), one, d);
    lemma_power_mul(w, power(one, q), d);
    lemma_power_of_power(r, q, d);
    lemma_power_of_power(one, q, d);
    assert(n == q * d + rem) by (nonlinear_arith)
        requires q == n / d, rem == n % d, d > 0;
    lemma_power_adds(r, q * d, rem);
    lemma_power_adds(one, q * d, rem);
    let pd = power(p, d);
    let wd = power(w, d);
    let fd = power(f, d);
    let od = power(one, d);
    let oqd = power(one, q * d);
    let rqd = power(r, q * d);
    let orem = power(one, rem);
    let rrem = power(r, rem);
    lemma_power_pos(one, d);
    assert((pd * (oqd * orem)) * od >= ((rqd * rrem) * od) * od) by (nonlinear_arith)
        requires
            pd * od >= wd * fd,
            wd * oqd >= rqd * od,
            fd * orem >= rrem * od,
            oqd >= 0,
            orem >= 0,
            rqd >= 0,
            od >= 0,
    ;
    lemma_cancel(pd * (oqd * orem), (rqd * rrem) * od, od);
}

proof fn lemma_power_of_power(b: nat, m: nat, e: nat)
    ensures
        power(power(b, m), e) == power(b, m * e),
    decreases e,
{
    if e == 0 {
        assert(m * 0 == 0);
    } else {
        lemma_power_of_power(b, m, (e - 1) as nat);
        assert(m * e == m + m * (e - 1)) by (nonlinear_arith)
            requires e >= 1;
        lemma_power_adds(b, m, m * ((e - 1) as nat));
    }
}

/// Selling into a pool never lowers the weighted product of the two reserves.
pub proof fn lemma_sale_never_lowers_product(
    b_in: u64,
    w_in: u64,
    b_out: u64,
    w_out: u64,
    amount_in: u64,
    amount_out: u64,
)
    requires
        out_given_in(b_in, w_in, b_out, w_out, amount_in) == Ok::<u64, Error>(amount_out),
    ensures
        amount_out <= b_out,
        power((b_in + amount_in) as nat, w_in as nat) * power((b_out - amount_out) as nat, w_out as nat)
            >= power(b_in as nat, w_in as nat) * power(b_out as nat, w_out as nat),
{
    let one = ONE as nat;
    let bi = b_in as nat;
    let bo = b_out as nat;
    let wi = w_in as nat;
    let wo = w_out as nat;
    let dsum = (b_in + amount_in) as nat;
    let ratio = div_up(b_in, (b_in + amount_in) as u64).unwrap();
    let r = ratio as nat;
    let pv = pow(ratio, w_in, w_out).unwrap();
    let p = pv as nat;
    let out = amount_out as nat;
    lemma_pow_rounds_up(ratio, w_in, w_out);
    assert(r * dsum >= bi * one) by (nonlinear_arith)
        requires r == (bi * one + (dsum - 1)) / (dsum as int), dsum > 0, one > 0;
    let paid: nat = if p >= one { 0 } else { (one - p) as nat };
    assert(out * one <= bo * paid) by (nonlinear_arith)
        requires out == (bo * paid) / one, one > 0, bo >= 0, paid >= 0;
    assert(out <= bo) by (nonlinear_arith)
        requires out * one <= bo * paid, paid <= one, one > 0, bo >= 0, out >= 0;
    let left = (bo - out) as nat;
    if p >= one {
        assert(out == 0) by (nonlinear_arith)
            requires out * one <= bo * 0, one > 0, out >= 0;
        lemma_power_mono(bi, dsum, wi);
        lemma_mul_mono(power(dsum, wi), power(bi, wi), power(bo, wo), power(bo, wo));
    } else {
        assert(left * one >= bo * p) by (nonlinear_arith)
            requires out * one <= bo * (one - p), left == bo - out;
        lemma_lift(left, bo, p, wo);
        lemma_power_mono(bi * one, dsum * r, wi);
        lemma_power_mul(bi, one, wi);
        lemma_power_mul(dsum, r, wi);
        let lw = power(left, wo);
        let dw = power(dsum, wi);
        let bow = power(bo, wo);
        let biw = power(bi, wi);
        let pw = power(p, wo);
        let rw = power(r, wi);
        let oo = power(one, wo);
        let oi = power(one, wi);
        lemma_power_pos(one, wo);
        lemma_power_pos(one, wi);
        assert((dw * lw) * (oo * oi) >= (biw * bow) * (oo * oi)) by (nonlinear_arith)
            requires
                lw * oo >= bow * pw,
                pw * oi >= rw * oo,
                dw * rw >= biw * oi,
                dw >= 0,
                bow >= 0,
                oo >= 0,
                oi >= 0,
        ;
        assert(oo * oi > 0) by (nonlinear_arith)
            requires oo > 0, oi > 0;
        lemma_cancel(dw * lw, biw * bow, oo * oi);
    }
}

/// Buying from a pool never lowers the weighted product of the two reserves.
pub proof fn lemma_purchase_never_lowers_product(
    b_in: u64,
    w_in: u64,
    b_out: u64,
    w_out: u64,
    amount_out: u64,
    amount_in: u64,
)
    requires
        in_given_out(b_in, w_in, b_out, w_out, amount_out) == Ok::<u64, Error>(amount_in),
    ensures
        amount_out < b_out,
        power((b_in + amount_in) as nat, w_in as nat) * power((b_out - amount_out) as nat, w_out as nat)
            >= power(b_in as nat, w_in as nat) * power(b_out as nat, w_out as nat),
{
    let one = ONE as nat;
    let bi = b_in as nat;
    let bo = b_out as nat;
    let wi = w_in as nat;
    let wo = w_out as nat;
    let left = (b_out - amount_out) as nat;
    let ratio = div_up(b_out, (b_out - amount_out) as u64).unwrap();
    let r = ratio as nat;
    let pv = pow(ratio, w_out, w_in).unwrap();
    let p = pv as nat;
    let gain_v: u64 = if pv >= ONE { (pv - ONE) as u64 } else { 0 };
    let gain = gain_v as nat;
    let paid = amount_in as nat;
    lemma_pow_rounds_up(ratio, w_out, w_in);
    assert(r * left >= bo * one) by (nonlinear_arith)
        requires r == (bo * one + (left - 1)) / (left as int), left > 0, one > 0;
    lemma_mul_up_bound(b_in, gain_v);
    let grown = bi + paid;
    assert(grown * one >= bi * p) by (nonlinear_arith)
        requires paid * one >= bi * gain, gain >= p - one, grown == bi + paid, bi >= 0;
    lemma_lift(grown, bi, p, wi);
    lemma_power_mono(bo * one, left * r, wo);
    lemma_power_mul(bo, one, wo);
    lemma_power_mul(left, r, wo);
    let gw = power(grown, wi);
    let lw = power(left, wo);
    let bow = power(bo, wo);
    let biw = power(bi, wi);
    let pw = power(p, wi);
    let rw = power(r, wo);
    let oo = power(one, wo);
    let oi = power(one, wi);
    lemma_power_pos(one, wo);
    lemma_power_pos(one, wi);
    assert((gw * lw) * (oo * oi) >= (biw * bow) * (oo * oi)) by (nonlinear_arith)
        requires
            gw * oi >= biw * pw,
            pw * oo >= rw * oi,
            lw * rw >= bow * oo,
            lw >= 0,
            biw >= 0,
            oo >= 0,
            oi >= 0,
    ;
    assert(oo * oi > 0) by (nonlinear_arith)
        requires oo > 0, oi > 0;
    lemma_cancel(gw * lw, biw * bow, oo * oi);
}

/// Selling an amount and at once selling the proceeds back returns no more
/// than the amount: a round trip through a pool never gains.
pub proof fn lemma_round_trip_never_gains(
    b_in: u64,
    w_in: u64,
    b_out: u64,
    w_out: u64,
    amount: u64,
    proceeds: u64,
    returned: u64,
)
    requires
        w_in > 0,
        b_out > 0,
        out_given_in(b_in, w_in, b_out, w_out, amount) == Ok::<u64, Error>(proceeds),
        proceeds < b_out,
        out_given_in((b_out - proceeds) as u64, w_out, (b_in + amount) as u64, w_in, proceeds)
            == Ok::<u64, Error>(returned),
    ensures
        returned <= amount,
{
    lemma_sale_never_lowers_product(b_in, w_in, b_out, w_out, amount, proceeds);
    lemma_sale_never_lowers_product(
        (b_out - proceeds) as u64,
        w_out,
        (b_in + amount) as u64,
        w_in,
        proceeds,
        returned,
    );
    let wi = w_in as nat;
    let wo = w_out as nat;
    let start = power(b_in as nat, wi);
    let other = power(b_out as nat, wo);
    let mid_in = power((b_in + amount) as nat, wi);
    let mid_out = power((b_out - proceeds) as nat, wo);
    let end = power((b_in + amount - returned) as nat, wi);
    lemma_power_pos(b_out as nat, wo);
    assert(end >= start) by (nonlinear_arith)
        requires mid_in * mid_out >= start * other, other * end >= mid_out * mid_in, other > 0;
    if returned > amount {
        lemma_power_strict((b_in + amount - returned) as nat, b_in as nat, wi);
    }
}

/// Selling an amount and at once buying the same amount back costs no less
/// than the proceeds of the sale: undoing a trade is never free.
pub proof fn lemma_buying_back_costs_no_less(
    b_in: u64,
    w_in: u64,
    b_out: u64,
    w_out: u64,
    amount: u64,
    proceeds: u64,
    charged: u64,
)
    requires
        w_out > 0,
        b_in > 0,
        out_given_in(b_in, w_in, b_out, w_out, amount) == Ok::<u64, Error>(proceeds),
        proceeds < b_out,
        in_given_out((b_out - proceeds) as u64, w_out, (b_in + amount) as u64, w_in, amount) == Ok::<
            u64,
            Error,
        >(charged),
    ensures
        charged >= proceeds,
{
    lemma_sale_never_lowers_product(b_in, w_in, b_out, w_out, amount, proceeds);
    lemma_purchase_never_lowers_product(
        (b_out - proceeds) as u64,
        w_out,
        (b_in + amount) as u64,
        w_in,
        amount,
        charged,
    );
    let wi = w_in as nat;
    let wo = w_out as nat;
    let start = power(b_out as nat, wo);
    let other = power(b_in as nat, wi);
    let mid_in = power((b_in + amount) as nat, wi);
    let mid_out = power((b_out - proceeds) as nat, wo);
    let end = power((b_out - proceeds + charged) as nat, wo);
    lemma_power_pos(b_in as nat, wi);
    assert(end >= start) by (nonlinear_arith)
        requires mid_in * mid_out >= other * start, end * other >= mid_out * mid_in, other > 0;
    if charged < proceeds {
        lemma_power_strict((b_out - proceeds + charged) as nat, b_out as nat, wo);
    }
}

} // verus!
