//! 256/512-bit unsigned integers from `primitive_types`, declared for the
//! verifier, with one trusted wrapper per arithmetic operation the price
//! math needs. Each wrapper's contract states the exact integer result of
//! the one `uint` operation its body calls.

use vstd::prelude::*;

verus! {

#[verifier::external_type_specification]
#[verifier::external_body]
pub struct ExU256(primitive_types::U256);

#[verifier::external_type_specification]
#[verifier::external_body]
pub struct ExU512(primitive_types::U512);

/// The number a `U256` holds.
pub uninterp spec fn u256_val(a: primitive_types::U256) -> nat;

/// The number a `U512` holds.
pub uninterp spec fn u512_val(a: primitive_types::U512) -> nat;

pub open spec fn p64() -> int {
    0x10000000000000000
}

pub open spec fn p96() -> int {
    0x1000000000000000000000000
}

pub open spec fn p128() -> int {
    p64() * p64()
}

pub open spec fn p160() -> int {
    p128() * 0x100000000
}

pub open spec fn p192() -> int {
    p96() * p96()
}

pub open spec fn p256() -> int {
    p128() * p128()
}

pub open spec fn p512() -> int {
    p256() * p256()
}

/// The orderings and products of the power-of-two constants, folded once
/// so the linear solver can use them.
pub proof fn lemma_pow_facts()
    by (nonlinear_arith)
    ensures
        0 < p64() < p96() < p128() < p160() < p192() < p256() < p512(),
        p64() * p64() == p128(),
        p64() * p96() == p160(),
        p96() * p96() == p192(),
        p128() * p96() < p256(),
        p128() * p128() == p256(),
        p160() * p96() == p256(),
        p192() * p64() == p256(),
        p256() * p256() == p512(),
        p128() * p256() < p512(),
        p256() * 10000 < p512(),
        p160() * p160() < p512(),
        p160() * p160() * 1000000000000000000 < p512(),
{
}

/// Relies on `U256::from(u128)`: widening conversion, value preserved.
#[verifier::external_body]
pub fn u256_from_u128(x: u128) -> (r: primitive_types::U256)
    ensures
        u256_val(r) == x,
{
    primitive_types::U256::from(x)
}

/// Relies on `u128::try_from(U256)`: `Ok` exactly when the value fits
/// 128 bits, and then returns it unchanged.
#[verifier::external_body]
pub fn u256_to_u128(a: primitive_types::U256) -> (r: Option<u128>)
    ensures
        match r {
            Some(v) => v == u256_val(a),
            None => u256_val(a) >= p128(),
        },
{
    u128::try_from(a).ok()
}

/// Relies on `U256::is_zero`.
#[verifier::external_body]
pub fn u256_is_zero(a: primitive_types::U256) -> (r: bool)
    ensures
        r <==> u256_val(a) == 0,
{
    a.is_zero()
}

/// Relies on the limb-wise `PartialEq` that `construct_uint` derives:
/// equal limbs encode equal numbers and conversely.
#[verifier::external_body]
pub fn u256_eq(a: primitive_types::U256, b: primitive_types::U256) -> (r: bool)
    ensures
        r <==> u256_val(a) == u256_val(b),
{
    a == b
}

/// Relies on the `Ord` of `construct_uint`, which compares limbs from the
/// most significant down: the numeric order.
#[verifier::external_body]
pub fn u256_lt(a: primitive_types::U256, b: primitive_types::U256) -> (r: bool)
    ensures
        r <==> u256_val(a) < u256_val(b),
{
    a < b
}

/// Relies on `U256::overflowing_add`: the sum modulo 2^256 and a carry flag.
#[verifier::external_body]
pub fn u256_overflowing_add(
    a: primitive_types::U256,
    b: primitive_types::U256,
) -> (r: (primitive_types::U256, bool))
    ensures
        r.1 <==> u256_val(a) + u256_val(b) >= p256(),
        !r.1 ==> u256_val(r.0) == u256_val(a) + u256_val(b),
        r.1 ==> u256_val(r.0) == u256_val(a) + u256_val(b) - p256(),
{
    a.overflowing_add(b)
}

/// Relies on `U256::overflowing_sub`: the difference modulo 2^256 and a
/// borrow flag.
#[verifier::external_body]
pub fn u256_overflowing_sub(
    a: primitive_types::U256,
    b: primitive_types::U256,
) -> (r: (primitive_types::U256, bool))
    ensures
        r.1 <==> u256_val(a) < u256_val(b),
        !r.1 ==> u256_val(r.0) == u256_val(a) - u256_val(b),
        r.1 ==> u256_val(r.0) == u256_val(a) - u256_val(b) + p256(),
{
    a.overflowing_sub(b)
}

/// Relies on `U256::overflowing_mul`: the product modulo 2^256 and an
/// overflow flag.
#[verifier::external_body]
pub fn u256_overflowing_mul(
    a: primitive_types::U256,
    b: primitive_types::U256,
) -> (r: (primitive_types::U256, bool))
    ensures
        r.1 <==> u256_val(a) * u256_val(b) >= p256(),
        u256_val(r.0) == (u256_val(a) * u256_val(b)) % (p256() as nat),
        !r.1 ==> u256_val(r.0) == u256_val(a) * u256_val(b),
{
    a.overflowing_mul(b)
}

/// Relies on `U256::div_mod`: Euclidean quotient and remainder. Its panic
/// on a zero divisor is excluded by the precondition.
#[verifier::external_body]
pub fn u256_div_mod(
    a: primitive_types::U256,
    b: primitive_types::U256,
) -> (r: (primitive_types::U256, primitive_types::U256))
    requires
        u256_val(b) >= 1,
    ensures
        u256_val(r.0) == u256_val(a) / u256_val(b),
        u256_val(r.1) == u256_val(a) % u256_val(b),
{
    a.div_mod(b)
}

/// Relies on `Shl<u32> for U256`, which discards bits shifted above the
/// width: the result is the value times 2^96, modulo 2^256.
#[verifier::external_body]
pub fn u256_shl96(a: primitive_types::U256) -> (r: primitive_types::U256)
    ensures
        u256_val(r) == (u256_val(a) * (p96() as nat)) % (p256() as nat),
{
    a << 96u32
}

/// Relies on `U256::full_mul`: the exact double-width product.
#[verifier::external_body]
pub fn u256_full_mul(
    a: primitive_types::U256,
    b: primitive_types::U256,
) -> (r: primitive_types::U512)
    ensures
        u512_val(r) == u256_val(a) * u256_val(b),
{
    a.full_mul(b)
}

/// Relies on `From<U256> for U512`: widening, value preserved.
#[verifier::external_body]
pub fn u512_from_u256(a: primitive_types::U256) -> (r: primitive_types::U512)
    ensures
        u512_val(r) == u256_val(a),
{
    primitive_types::U512::from(a)
}

/// Relies on `TryFrom<U512> for U256`: `Ok` exactly when the value fits
/// 256 bits, and then returns it unchanged.
#[verifier::external_body]
pub fn u512_to_u256(a: primitive_types::U512) -> (r: Option<primitive_types::U256>)
    ensures
        match r {
            Some(v) => u256_val(v) == u512_val(a) && u512_val(a) < p256(),
            None => u512_val(a) >= p256(),
        },
{
    primitive_types::U256::try_from(a).ok()
}

/// Relies on `U512::is_zero`.
#[verifier::external_body]
pub fn u512_is_zero(a: primitive_types::U512) -> (r: bool)
    ensures
        r <==> u512_val(a) == 0,
{
    a.is_zero()
}

/// Relies on `U512::overflowing_mul`: an overflow flag, and the exact
/// product when it does not overflow.
#[verifier::external_body]
pub fn u512_overflowing_mul(
    a: primitive_types::U512,
    b: primitive_types::U512,
) -> (r: (primitive_types::U512, bool))
    ensures
        r.1 <==> u512_val(a) * u512_val(b) >= p512(),
        !r.1 ==> u512_val(r.0) == u512_val(a) * u512_val(b),
{
    a.overflowing_mul(b)
}

/// Relies on `U512::div_mod`: Euclidean quotient and remainder. Its panic
/// on a zero divisor is excluded by the precondition.
#[verifier::external_body]
pub fn u512_div_mod(
    a: primitive_types::U512,
    b: primitive_types::U512,
) -> (r: (primitive_types::U512, primitive_types::U512))
    requires
        u512_val(b) >= 1,
    ensures
        u512_val(r.0) == u512_val(a) / u512_val(b),
        u512_val(r.1) == u512_val(a) % u512_val(b),
{
    a.div_mod(b)
}

} // verus!
