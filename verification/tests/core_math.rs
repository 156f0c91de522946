use binance_uni::errors::ArbError;
use binance_uni::fixed::{add_in256, mul_div_rounding_up, multiply_in256};
use binance_uni::pool::{minus_fee, price_from_sqrt_price};
use primitive_types::U256;

#[test]
fn mul_div_rounding_up_exact_division() {
    let r = mul_div_rounding_up(U256::from(10u64), U256::from(10u64), U256::from(4u64));
    assert_eq!(r, Ok(U256::from(25u64)));
}

#[test]
fn mul_div_rounding_up_rounds_up() {
    let r = mul_div_rounding_up(U256::from(10u64), U256::from(10u64), U256::from(3u64));
    assert_eq!(r, Ok(U256::from(34u64)));
}

#[test]
fn mul_div_rounding_up_zero_denominator() {
    let r = mul_div_rounding_up(U256::from(1u64), U256::from(1u64), U256::zero());
    assert_eq!(r, Err(ArbError::DivisionByZero));
}

#[test]
fn mul_div_rounding_up_overflow() {
    let r = mul_div_rounding_up(U256::MAX, U256::MAX, U256::from(1u64));
    assert_eq!(r, Err(ArbError::ArithmeticOverflow));
}

#[test]
fn multiply_wraps_modulo_2_256() {
    let big = U256::from(1u64) << 255;
    assert_eq!(multiply_in256(big, U256::from(2u64)), U256::zero());
    assert_eq!(
        multiply_in256(U256::from(3u64), U256::from(5u64)),
        U256::from(15u64)
    );
}

#[test]
fn add_wraps_modulo_2_256() {
    assert_eq!(add_in256(U256::MAX, U256::from(1u64)), U256::zero());
    assert_eq!(
        add_in256(U256::from(7u64), U256::from(8u64)),
        U256::from(15u64)
    );
}

#[test]
fn minus_fee_exact() {
    assert_eq!(minus_fee(U256::from(10000u64), 30), U256::from(9970u64));
    assert_eq!(minus_fee(U256::from(10000u64), 0), U256::from(10000u64));
}

#[test]
fn price_from_sqrt_price_squares() {
    let one_x96 = U256::from(1u64) << 96;
    assert_eq!(price_from_sqrt_price(one_x96), Ok(U256::from(1u64)));
    let two_x96 = U256::from(2u64) << 96;
    assert_eq!(price_from_sqrt_price(two_x96), Ok(U256::from(4u64)));
}
