//! Overflow-explicit 256-bit primitives: wrapping multiply and add with
//! the on-chain modulo-2^256 semantics, and the rounding-up
//! multiply-then-divide that all downstream price math builds on.

use vstd::prelude::*;

use crate::errors::ArbError;
use crate::u256::{
    p256, u256_from_u128, u256_full_mul, u256_is_zero, u256_overflowing_add,
    u256_overflowing_mul, u256_val, u512_div_mod, u512_from_u256, u512_is_zero, u512_to_u256,
};

verus! {

/// `ceil(a / d)` for a non-negative numerator and positive denominator,
/// written as the floor quotient plus one when the division is inexact.
pub open spec fn div_round_up(a: int, d: int) -> int
    recommends
        a >= 0,
        d >= 1,
{
    a / d + if a % d == 0 {
        0int
    } else {
        1int
    }
}

/// `ceil(a*b/denominator)` through a 512-bit intermediate, so the
/// multiplication itself cannot overflow. Fails with `DivisionByZero` on a
/// zero denominator, and with `ArithmeticOverflow` exactly when the rounded
/// quotient does not fit 256 bits.
pub fn mul_div_rounding_up(
    a: primitive_types::U256,
    b: primitive_types::U256,
    denominator: primitive_types::U256,
) -> (r: Result<primitive_types::U256, ArbError>)
    ensures
        ({
            let q = div_round_up(
                (u256_val(a) * u256_val(b)) as int,
                u256_val(denominator) as int,
            );
            match r {
                Ok(v) => u256_val(denominator) >= 1 && u256_val(v) == q && q < p256(),
                Err(e) => (e == ArbError::DivisionByZero && u256_val(denominator) == 0) || (e
                    == ArbError::ArithmeticOverflow && u256_val(denominator) >= 1 && q >= p256()),
            }
        }),
{
    if u256_is_zero(denominator) {
        return Err(ArbError::DivisionByZero);
    }
    let product = u256_full_mul(a, b);
    let d512 = u512_from_u256(denominator);
    let (q, rem) = u512_div_mod(product, d512);
    let q256 = match u512_to_u256(q) {
        Some(v) => v,
        None => {
            return Err(ArbError::ArithmeticOverflow);
        },
    };
    if u512_is_zero(rem) {
        Ok(q256)
    } else {
        let one = u256_from_u128(1);
        let (s, carry) = u256_overflowing_add(q256, one);
        if carry {
            Err(ArbError::ArithmeticOverflow)
        } else {
            Ok(s)
        }
    }
}

/// The product modulo 2^256: the overflow semantics of on-chain integers.
pub fn multiply_in256(
    a: primitive_types::U256,
    b: primitive_types::U256,
) -> (r: primitive_types::U256)
    requires
        u256_val(a) < p256(),
        u256_val(b) < p256(),
    ensures
        u256_val(r) == (u256_val(a) * u256_val(b)) % (p256() as nat),
{
    u256_overflowing_mul(a, b).0
}

/// The sum modulo 2^256: the overflow semantics of on-chain integers.
pub fn add_in256(
    a: primitive_types::U256,
    b: primitive_types::U256,
) -> (r: primitive_types::U256)
    requires
        u256_val(a) < p256(),
        u256_val(b) < p256(),
    ensures
        u256_val(r) == (u256_val(a) + u256_val(b)) % (p256() as nat),
{
    let (s, carry) = u256_overflowing_add(a, b);
    proof {
        let sum: int = u256_val(a) as int + u256_val(b) as int;
        if sum < p256() {
            vstd::arithmetic::div_mod::lemma_fundamental_div_mod_converse_mod(
                sum,
                p256(),
                0,
                sum,
            );
        } else {
            vstd::arithmetic::div_mod::lemma_fundamental_div_mod_converse_mod(
                sum,
                p256(),
                1,
                sum - p256(),
            );
        }
    }
    s
}

/// The rounded quotient never falls below the floored one, and they agree
/// exactly when the denominator divides the product.
pub proof fn lemma_mul_div_rounding_up_exact(a: int, b: int, d: int)
    requires
        a >= 0,
        b >= 0,
        d >= 1,
    ensures
        div_round_up(a * b, d) >= (a * b) / d,
        div_round_up(a * b, d) == (a * b) / d <==> (a * b) % d == 0,
{
}

/// `d * ceil(a/d)` brackets `a` from above by less than one divisor.
pub proof fn lemma_div_round_up_bounds(a: int, d: int)
    requires
        a >= 0,
        d >= 1,
    ensures
        a <= d * div_round_up(a, d),
        d * div_round_up(a, d) < a + d,
        div_round_up(a, d) >= 0,
{
    vstd::arithmetic::div_mod::lemma_fundamental_div_mod(a, d);
    vstd::arithmetic::div_mod::lemma_mod_division_less_than_divisor(a, d);
    vstd::arithmetic::div_mod::lemma_div_pos_is_pos(a, d);
    let q = a / d;
    if a % d != 0 {
        assert(d * (q + 1) == d * q + d) by (nonlinear_arith);
    }
}

/// The rounded quotient stays at or below any `c` whose multiple covers
/// the numerator.
pub proof fn lemma_div_round_up_le(a: int, d: int, c: int)
    requires
        d >= 1,
        0 <= a,
        a <= d * c,
    ensures
        div_round_up(a, d) <= c,
{
    lemma_div_round_up_bounds(a, d);
    let r = div_round_up(a, d);
    assert(r <= c) by (nonlinear_arith)
        requires
            d >= 1,
            d * r < a + d,
            a <= d * c,
    ;
}

/// Growing the denominator can only lower the rounded quotient.
pub proof fn lemma_div_round_up_anti_mono(a: int, d1: int, d2: int)
    requires
        0 <= a,
        1 <= d1 <= d2,
    ensures
        div_round_up(a, d2) <= div_round_up(a, d1),
{
    lemma_div_round_up_bounds(a, d1);
    let r1 = div_round_up(a, d1);
    assert(a <= d2 * r1) by (nonlinear_arith)
        requires
            a <= d1 * r1,
            d1 <= d2,
            r1 >= 0,
    ;
    lemma_div_round_up_le(a, d2, r1);
}

} // verus!
