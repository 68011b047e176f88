use weighted_swap::error::Error;
use weighted_swap::fixed::{fx_div_up, fx_mul_up, fx_pow, fx_pow_frac, fx_pow_whole, fx_sqrt_up, isqrt, ONE};
use weighted_swap::swap::{
    calc_exit_amount, calc_in_given_out, calc_join_amount, calc_out_given_in, spot_price_exceeds,
};

#[test]
fn multiplication_rounds_up() {
    assert_eq!(fx_mul_up(ONE, ONE), Some(ONE));
    assert_eq!(fx_mul_up(3 * ONE, 2 * ONE), Some(6 * ONE));
    assert_eq!(fx_mul_up(1, 1), Some(1));
    assert_eq!(fx_mul_up(0, 5), Some(0));
    assert_eq!(fx_mul_up(u64::MAX, u64::MAX), None);
}

#[test]
fn division_rounds_up() {
    assert_eq!(fx_div_up(1, 2), Some(ONE / 2));
    assert_eq!(fx_div_up(1, 3), Some(ONE / 3 + 1));
    assert_eq!(fx_div_up(1000, 1100), Some(3904515724));
    assert_eq!(fx_div_up(u64::MAX, 1), None);
}

#[test]
fn square_roots() {
    assert_eq!(isqrt(0), 0);
    assert_eq!(isqrt(15), 3);
    assert_eq!(isqrt(16), 4);
    assert_eq!(isqrt(17), 4);
    assert_eq!(fx_sqrt_up(4 * ONE), 2 * ONE);
    assert_eq!(fx_sqrt_up(ONE), ONE);
    assert_eq!(fx_sqrt_up(2 * ONE), 6074001000);
    assert_eq!(fx_sqrt_up(0), 0);
}

#[test]
fn powers() {
    assert_eq!(fx_pow_whole(2 * ONE, 0), Some(ONE));
    assert_eq!(fx_pow_whole(2 * ONE, 10), Some(1024 * ONE));
    assert_eq!(fx_pow_whole(ONE / 2, 3), Some(ONE / 8));
    assert_eq!(fx_pow_whole(2 * ONE, 32), None);
    assert_eq!(fx_pow_frac(4 * ONE, 1, 2, 32), Some(2 * ONE));
    assert_eq!(fx_pow_frac(16 * ONE, 1, 4, 32), Some(2 * ONE));
    assert_eq!(fx_pow(4 * ONE, 3, 2), Some(8 * ONE));
    assert_eq!(fx_pow(12345, 7, 7), Some(12345));
    assert_eq!(fx_pow(u64::MAX, 2, 1), None);
}

#[test]
fn join_and_exit_amounts() {
    assert_eq!(calc_join_amount(1000, 1, 3), Ok(334));
    assert_eq!(calc_exit_amount(1000, 1, 3), Ok(333));
    assert_eq!(calc_join_amount(1000, 3, 3), Ok(1000));
    assert_eq!(calc_join_amount(1000, 1, 0), Err(Error::DivisionByZero));
    assert_eq!(calc_exit_amount(1000, 1, 0), Err(Error::DivisionByZero));
    assert_eq!(calc_join_amount(u64::MAX, 2, 1), Err(Error::ArithmeticOverflow));
    assert_eq!(calc_exit_amount(u64::MAX, 2, 1), Err(Error::ArithmeticOverflow));
}

#[test]
fn join_then_exit_returns_no_more() {
    let reserve: u64 = 1000;
    let supply: u64 = 7;
    let shares: u64 = 3;
    let paid = calc_join_amount(reserve, shares, supply).unwrap();
    let back = calc_exit_amount(reserve + paid, shares, supply + shares).unwrap();
    assert_eq!(paid, 429);
    assert_eq!(back, 428);
}

#[test]
fn out_given_in_values() {
    assert_eq!(calc_out_given_in(1000, 1, 1000, 1, 100), Ok(90));
    assert_eq!(calc_out_given_in(1000, 2, 1000, 1, 100), Ok(173));
    assert_eq!(calc_out_given_in(1000, 1, 1000, 2, 100), Ok(46));
    assert_eq!(calc_out_given_in(1000, 1, 1000, 0, 100), Err(Error::DivisionByZero));
    assert_eq!(calc_out_given_in(0, 1, 1000, 1, 0), Err(Error::DivisionByZero));
    assert_eq!(calc_out_given_in(u64::MAX, 1, 1000, 1, 1), Err(Error::ArithmeticOverflow));
}

#[test]
fn in_given_out_values() {
    assert_eq!(calc_in_given_out(1000, 1, 1000, 1, 90), Ok(99));
    assert_eq!(calc_in_given_out(1000, 1, 1000, 1, 500), Ok(1000));
    assert_eq!(calc_in_given_out(1000, 1, 1000, 1, 1000), Err(Error::InsufficientLiquidity));
    assert_eq!(calc_in_given_out(1000, 1, 1000, 1, 2000), Err(Error::InsufficientLiquidity));
    assert_eq!(calc_in_given_out(1000, 0, 1000, 1, 10), Err(Error::DivisionByZero));
    assert_eq!(calc_in_given_out(1000, 1, 1 << 40, 1, (1 << 40) - 1), Err(Error::ArithmeticOverflow));
}

#[test]
fn swaps_never_lower_the_weighted_product() {
    let out = calc_out_given_in(1000, 5, 1000, 5, 100).unwrap();
    assert!((1000u128 + 100) * (1000 - out as u128) >= 1000 * 1000);
    let paid = calc_in_given_out(1000, 5, 1000, 5, 90).unwrap();
    assert!((1000u128 + paid as u128) * (1000 - 90) >= 1000 * 1000);
    let out = calc_out_given_in(1000, 2, 3000, 3, 400).unwrap() as u128;
    assert!(1400u128.pow(2) * (3000 - out).pow(3) >= 1000u128.pow(2) * 3000u128.pow(3));
    assert!(1400u128.pow(2) * (3000 - out - 2).pow(3) < 1000u128.pow(2) * 3000u128.pow(3));
    let paid = calc_in_given_out(1000, 2, 3000, 3, 400).unwrap() as u128;
    assert!((1000 + paid).pow(2) * 2600u128.pow(3) >= 1000u128.pow(2) * 3000u128.pow(3));
    assert!((1000 + paid - 2).pow(2) * 2600u128.pow(3) < 1000u128.pow(2) * 3000u128.pow(3));
}

#[test]
fn round_trip_never_gains() {
    let proceeds = calc_out_given_in(1_000_000, 1, 10, 1, 200_000).unwrap();
    assert_eq!(proceeds, 1);
    let returned = calc_out_given_in(10 - proceeds, 1, 1_200_000, 1, proceeds).unwrap();
    assert!(returned <= 200_000);
    let proceeds = calc_out_given_in(5000, 3, 7000, 2, 1234).unwrap();
    let returned = calc_out_given_in(7000 - proceeds, 2, 5000 + 1234, 3, proceeds).unwrap();
    assert!(returned <= 1234);
    assert!(returned >= 1230);
}

#[test]
fn spot_price_limit() {
    assert!(!spot_price_exceeds(1000, 1, 1000, 1, 1));
    assert!(spot_price_exceeds(1001, 1, 1000, 1, 1));
    assert!(!spot_price_exceeds(2000, 1, 1000, 1, 2));
    assert!(spot_price_exceeds(1000, 1, 1000, 3, 2));
    assert!(!spot_price_exceeds(1000, 1, 1000, 2, 2));
    assert!(spot_price_exceeds(1, 1, 0, 1, u64::MAX));
    assert!(!spot_price_exceeds(u64::MAX, 1, 1, 1, u64::MAX));
}

#[test]
fn fractional_power_is_never_below_the_exact_power() {
    let one = ONE as u128;
    let up = fx_pow(4 * ONE, 1, 3).unwrap() as u128;
    assert!(up * up * up >= 4 * one * one * one);
    let near = up - 256;
    assert!(near * near * near < 4 * one * one * one);
    let down = fx_pow(ONE / 4, 1, 3).unwrap() as u128;
    assert!(down * down * down * 4 >= one * one * one);
    let near = down - 256;
    assert!(near * near * near * 4 < one * one * one);
}
