//! The pool price model: the Q64.96 square-root price representation,
//! the spot price in both quote directions, the post-swap price of a
//! hypothetical trade, and the output amount between two prices.

use vstd::prelude::*;

use crate::errors::ArbError;
use crate::fixed::{
    add_in256, div_round_up, lemma_div_round_up_anti_mono, lemma_div_round_up_bounds,
    lemma_div_round_up_le, mul_div_rounding_up, multiply_in256,
};
use crate::types::{config_wf, Config, SwapDirection, TokensPrice};
use crate::u256::{
    lemma_pow_facts, p128, p160, p192, p256, p512, p96, u256_from_u128, u256_full_mul,
    u256_is_zero, u256_lt,
    u256_overflowing_add,
    u256_overflowing_sub, u256_shl96, u256_to_u128, u256_val, u256_div_mod, u256_eq,
    u512_div_mod, u512_from_u256, u512_overflowing_mul, u512_to_u256, u512_val,
};
use vstd::string::StringExecFns;

use vstd::arithmetic::div_mod::{
    lemma_div_is_ordered, lemma_div_multiples_vanish, lemma_fundamental_div_mod,
    lemma_fundamental_div_mod_converse, lemma_mod_division_less_than_divisor, lemma_small_mod,
};

verus! {

/// A pool snapshot: the packed square-root price and the liquidity in
/// range, both 256-bit on-chain words. Read once per cycle, never
/// mutated.
pub struct PoolState {
    pub sqrt_price: primitive_types::U256,
    pub liquidity: primitive_types::U256,
}

pub open spec fn sqrt_p(pool: PoolState) -> int {
    u256_val(pool.sqrt_price) as int
}

pub open spec fn liq(pool: PoolState) -> int {
    u256_val(pool.liquidity) as int
}

/// Snapshots the core can price: a positive square-root price within
/// the chain's 160-bit price field, and positive liquidity within its
/// 128-bit liquidity word.
pub open spec fn pool_wf(pool: PoolState) -> bool {
    &&& 1 <= sqrt_p(pool) < p160()
    &&& 1 <= liq(pool) < p128()
}

impl PoolState {
    /// A snapshot from the two on-chain readings, for prices that fit
    /// 128 bits.
    pub fn new(sqrt_price_x96: u128, liquidity: u128) -> (r: PoolState)
        ensures
            sqrt_p(r) == sqrt_price_x96,
            liq(r) == liquidity,
    {
        PoolState {
            sqrt_price: u256_from_u128(sqrt_price_x96),
            liquidity: u256_from_u128(liquidity),
        }
    }

    /// A snapshot straight from the chain words, admitted exactly when
    /// the square-root price is positive and fits the 160-bit field and
    /// the liquidity is positive.
    pub fn from_words(sqrt_price: primitive_types::U256, liquidity: u128) -> (r: Result<
        PoolState,
        ArbError,
    >)
        ensures
            match r {
                Ok(s) => {
                    &&& sqrt_p(s) == u256_val(sqrt_price)
                    &&& liq(s) == liquidity
                    &&& pool_wf(s)
                },
                Err(e) => e == ArbError::InvalidSnapshot && !(1 <= u256_val(sqrt_price)
                    < p160() && 1 <= liquidity),
            },
    {
        proof {
            lemma_pow_facts();
        }
        let threshold = u256_shl96(u256_from_u128(0x10000000000000000));
        proof {
            lemma_small_mod((0x10000000000000000 * p96()) as nat, p256() as nat);
        }
        if u256_is_zero(sqrt_price) || !u256_lt(sqrt_price, threshold) || liquidity == 0 {
            return Err(ArbError::InvalidSnapshot);
        }
        Ok(PoolState { sqrt_price, liquidity: u256_from_u128(liquidity) })
    }
}

/// The linear price a square-root price encodes: squaring a Q64.96 value
/// yields Q128.192, and dividing by 2^192 recovers the integer part.
pub open spec fn raw_price_of(p: int) -> int {
    p * p / p192()
}

/// The square-root price after swapping `x` in. Selling base walks the
/// price down through `ceil(n*p / (n + x*p))` with `n = l*2^96`, falling
/// back to `ceil(n / (x + n/p))` when the product or sum would exceed
/// 2^256; selling quote walks it up by `floor(x*2^96 / l)`.
pub open spec fn next_sqrt_price(p: int, l: int, x: int, dir: SwapDirection) -> int {
    let n = l * p96();
    match dir {
        SwapDirection::BaseToQuote => {
            if x * p < p256() && n + x * p < p256() {
                div_round_up(n * p, n + x * p)
            } else {
                div_round_up(n, x + n / p)
            }
        },
        SwapDirection::QuoteToBase => p + (x * p96()) / l,
    }
}

/// The machine bound under which the swap result itself fits 256 bits.
pub open spec fn swap_in_range(p: int, l: int, x: int, dir: SwapDirection) -> bool {
    match dir {
        SwapDirection::BaseToQuote => x + (l * p96()) / p < p256(),
        SwapDirection::QuoteToBase => p + (x * p96()) / l < p256(),
    }
}

/// The exact two-branch post-swap price of the constant-liquidity curve.
pub fn price_after_swap(
    pool: &PoolState,
    amount_in: primitive_types::U256,
    direction: SwapDirection,
) -> (r: primitive_types::U256)
    requires
        pool_wf(*pool),
        1 <= u256_val(amount_in) < p256(),
        swap_in_range(sqrt_p(*pool), liq(*pool), u256_val(amount_in) as int, direction),
    ensures
        u256_val(r) == next_sqrt_price(
            sqrt_p(*pool),
            liq(*pool),
            u256_val(amount_in) as int,
            direction,
        ),
        direction == SwapDirection::BaseToQuote ==> 1 <= u256_val(r) <= sqrt_p(*pool),
        direction == SwapDirection::QuoteToBase ==> sqrt_p(*pool) <= u256_val(r) < p256(),
{
    let ghost p: int = sqrt_p(*pool);
    let ghost l: int = liq(*pool);
    let ghost x: int = u256_val(amount_in) as int;
    proof {
        lemma_pow_facts();
        assert(p96() <= l * p96() < p128() * p96()) by (nonlinear_arith)
            requires
                1 <= l < p128(),
        ;
    }
    match direction {
        SwapDirection::BaseToQuote => {
            let numerator1 = u256_shl96(pool.liquidity);
            proof {
                lemma_small_mod((l * p96()) as nat, p256() as nat);
            }
            let product = multiply_in256(amount_in, pool.sqrt_price);
            let (q, _rem) = u256_div_mod(product, amount_in);
            proof {
                lemma_mod_division_less_than_divisor(x * p, p256());
                if x * p < p256() {
                    lemma_small_mod((x * p) as nat, p256() as nat);
                    lemma_div_multiples_vanish(p, x);
                } else {
                    lemma_fundamental_div_mod(x * p, p256());
                    lemma_div_is_ordered(p256(), x * p, p256());
                    vstd::arithmetic::div_mod::lemma_div_by_self(p256());
                    let k = x * p / p256();
                    assert(k >= 1);
                    assert(k * p256() >= p256()) by (nonlinear_arith)
                        requires
                            k >= 1,
                    ;
                    assert(x * p == p256() * k + (x * p) % p256());
                    assert(p256() * k == k * p256()) by (nonlinear_arith);
                    // the wrapped product sits at least 2^256 below x*p
                    assert(u256_val(product) <= x * p - p256());
                    assert(x * p - 1 == (p - 1) * x + (x - 1)) by (nonlinear_arith);
                    lemma_fundamental_div_mod_converse(x * p - 1, x, p - 1, x - 1);
                    lemma_div_is_ordered(u256_val(product) as int, x * p - 1, x);
                    assert(u256_val(q) < p);
                }
            }
            if u256_eq(q, pool.sqrt_price) {
                let denominator = add_in256(numerator1, product);
                proof {
                    lemma_mod_division_less_than_divisor(l * p96() + x * p, p256());
                    if l * p96() + x * p < p256() {
                        lemma_small_mod((l * p96() + x * p) as nat, p256() as nat);
                    } else {
                        vstd::arithmetic::div_mod::lemma_fundamental_div_mod_converse_mod(
                            l * p96() + x * p,
                            p256(),
                            1,
                            l * p96() + x * p - p256(),
                        );
                    }
                }
                if !u256_lt(denominator, numerator1) {
                    proof {
                        // a wrapped sum would have landed below the addend
                        assert(l * p96() + x * p < p256());
                        assert(l * p96() * p <= (l * p96() + x * p) * p) by (nonlinear_arith)
                            requires
                                x * p >= 0,
                                p >= 1,
                                l * p96() >= 0,
                        ;
                        lemma_div_round_up_le(l * p96() * p, l * p96() + x * p, p);
                        lemma_div_round_up_bounds(l * p96() * p, l * p96() + x * p);
                        let nn: int = l * p96() * p;
                        let dd: int = l * p96() + x * p;
                        assert(l * p96() * p >= 1) by (nonlinear_arith)
                            requires
                                l * p96() >= 1,
                                p >= 1,
                        ;
                        assert(div_round_up(nn, dd) >= 1) by (nonlinear_arith)
                            requires
                                dd >= 1,
                                dd * div_round_up(nn, dd) >= nn,
                                nn >= 1,
                                div_round_up(nn, dd) >= 0,
                        ;
                    }
                    let res = mul_div_rounding_up(numerator1, pool.sqrt_price, denominator);
                    return res.unwrap();
                }
            }
            proof {
                // whichever test failed, the no-overflow branch of the
                // specification is closed here
                assert(!(x * p < p256() && l * p96() + x * p < p256()));
            }
            let (ndivp, _r2) = u256_div_mod(numerator1, pool.sqrt_price);
            let (den2, carry) = u256_overflowing_add(amount_in, ndivp);
            proof {
                assert(!carry);
                lemma_fundamental_div_mod(l * p96(), p);
                lemma_mod_division_less_than_divisor(l * p96(), p);
                lemma_div_is_ordered(0, l * p96(), p);
                assert(l * p96() < (l * p96() / p + 1) * p) by (nonlinear_arith)
                    requires
                        l * p96() == p * (l * p96() / p) + (l * p96()) % p,
                        (l * p96()) % p < p,
                ;
                assert(l * p96() <= (x + l * p96() / p) * p) by (nonlinear_arith)
                    requires
                        x >= 1,
                        p >= 1,
                        l * p96() >= 0,
                        l * p96() / p >= 0,
                        l * p96() < (l * p96() / p + 1) * p,
                ;
                lemma_div_round_up_le(l * p96(), x + l * p96() / p, p);
                lemma_div_round_up_bounds(l * p96(), x + l * p96() / p);
                let nn: int = l * p96();
                let dd: int = x + l * p96() / p;
                assert(div_round_up(nn, dd) >= 1) by (nonlinear_arith)
                    requires
                        dd >= 1,
                        dd * div_round_up(nn, dd) >= nn,
                        nn >= 1,
                        div_round_up(nn, dd) >= 0,
                ;
            }
            let one = u256_from_u128(1);
            let res = mul_div_rounding_up(numerator1, one, den2);
            res.unwrap()
        },
        SwapDirection::QuoteToBase => {
            let one = u256_from_u128(1);
            let q96c = u256_shl96(one);
            proof {
                lemma_small_mod(p96() as nat, p256() as nat);
            }
            let threshold = u256_shl96(u256_from_u128(0x10000000000000000));
            proof {
                lemma_small_mod((0x10000000000000000 * p96()) as nat, p256() as nat);
            }
            let quotient = if u256_lt(amount_in, threshold) {
                proof {
                    assert(x * p96() < p256()) by (nonlinear_arith)
                        requires
                            0 <= x < 0x10000000000000000 * p96(),
                    ;
                    lemma_small_mod((x * p96()) as nat, p256() as nat);
                }
                let shifted = u256_shl96(amount_in);
                let (qd, _r3) = u256_div_mod(shifted, pool.liquidity);
                qd
            } else {
                let wide = u256_full_mul(amount_in, q96c);
                let (qd, _r4) = u512_div_mod(wide, u512_from_u256(pool.liquidity));
                proof {
                    lemma_div_is_ordered(0, x * p96(), l);
                }
                u512_to_u256(qd).unwrap()
            };
            proof {
                lemma_div_is_ordered(0, x * p96(), l);
            }
            let (sum, carry) = u256_overflowing_add(pool.sqrt_price, quotient);
            proof {
                assert(!carry);
            }
            sum
        },
    }
}

/// A value after the pool fee: `v - v*fee/10000`, the fee floored.
pub open spec fn apply_fee(v: int, fee_bps: int) -> int {
    v - v * fee_bps / 10000
}

/// Subtracts the pool fee once: `value - value*fee_bps/10000`, the fee
/// product taken double-width so it cannot overflow.
pub fn minus_fee(value: primitive_types::U256, fee_bps: u32) -> (r: primitive_types::U256)
    requires
        u256_val(value) < p256(),
        fee_bps < 10000,
    ensures
        u256_val(r) == apply_fee(u256_val(value) as int, fee_bps as int),
        u256_val(r) <= u256_val(value),
{
    let ghost v: int = u256_val(value) as int;
    let ghost f: int = fee_bps as int;
    proof {
        lemma_pow_facts();
    }
    let fee = u256_from_u128(fee_bps as u128);
    let prod = u256_full_mul(value, fee);
    let ten_k = u256_from_u128(10000);
    let (q, _rm) = u512_div_mod(prod, u512_from_u256(ten_k));
    proof {
        assert(0 <= v * f <= v * 10000) by (nonlinear_arith)
            requires
                v >= 0,
                0 <= f < 10000,
        ;
        lemma_div_is_ordered(0, v * f, 10000);
        lemma_div_is_ordered(v * f, v * 10000, 10000);
        lemma_div_multiples_vanish(v, 10000);
        assert(10000 * v == v * 10000) by (nonlinear_arith);
    }
    let q256 = u512_to_u256(q).unwrap();
    let (r, borrow) = u256_overflowing_sub(value, q256);
    proof {
        assert(!borrow);
    }
    r
}

/// `rawPrice = sqrtPrice^2 / 2^192`, the square taken in 512 bits.
/// Overflows only when the linear price itself exceeds 256 bits.
pub fn price_from_sqrt_price(sqrt_price: primitive_types::U256) -> (r: Result<
    primitive_types::U256,
    ArbError,
>)
    requires
        u256_val(sqrt_price) < p256(),
    ensures
        ({
            let raw = raw_price_of(u256_val(sqrt_price) as int);
            match r {
                Ok(v) => u256_val(v) == raw && raw < p256(),
                Err(e) => e == ArbError::ArithmeticOverflow && raw >= p256(),
            }
        }),
{
    proof {
        lemma_pow_facts();
    }
    let sq = u256_full_mul(sqrt_price, sqrt_price);
    let one = u256_from_u128(1);
    let q96c = u256_shl96(one);
    proof {
        lemma_small_mod(p96() as nat, p256() as nat);
    }
    let q192c = u256_shl96(q96c);
    proof {
        lemma_small_mod((p96() * p96()) as nat, p256() as nat);
    }
    let (q, _rm) = u512_div_mod(sq, u512_from_u256(q192c));
    match u512_to_u256(q) {
        Some(v) => Ok(v),
        None => Err(ArbError::ArithmeticOverflow),
    }
}

/// The output of moving the price from one square root to the other,
/// before the fee. Selling base yields quote `l*(hi-lo)/2^96`; selling
/// quote yields base `l*2^96*(hi-lo)/hi/lo`, both floored as the chain
/// floors them.
pub open spec fn amount_out_pre_fee(a: int, b: int, l: int, dir: SwapDirection) -> int {
    let lo = if a <= b {
        a
    } else {
        b
    };
    let hi = if a <= b {
        b
    } else {
        a
    };
    match dir {
        SwapDirection::BaseToQuote => l * (hi - lo) / p96(),
        SwapDirection::QuoteToBase => l * p96() * (hi - lo) / hi / lo,
    }
}

/// The delivered output: the raw delta with the pool fee subtracted once.
pub open spec fn amount_out_spec(a: int, b: int, l: int, dir: SwapDirection, fee_bps: int) -> int {
    apply_fee(amount_out_pre_fee(a, b, l, dir), fee_bps)
}

/// The output amount between two square-root prices, net of the fee.
/// The two inputs may come in either order; the delta is
/// direction-agnostic. Fails only when the raw delta exceeds 256 bits.
pub fn amount_out(
    sqrt_start: primitive_types::U256,
    sqrt_end: primitive_types::U256,
    liquidity: primitive_types::U256,
    direction: SwapDirection,
    fee_bps: u32,
) -> (r: Result<primitive_types::U256, ArbError>)
    requires
        1 <= u256_val(sqrt_start) < p256(),
        1 <= u256_val(sqrt_end) < p256(),
        u256_val(sqrt_start) != u256_val(sqrt_end),
        1 <= u256_val(liquidity) < p128(),
        fee_bps < 10000,
    ensures
        ({
            let pre = amount_out_pre_fee(
                u256_val(sqrt_start) as int,
                u256_val(sqrt_end) as int,
                u256_val(liquidity) as int,
                direction,
            );
            match r {
                Ok(v) => pre < p256() && u256_val(v) == amount_out_spec(
                    u256_val(sqrt_start) as int,
                    u256_val(sqrt_end) as int,
                    u256_val(liquidity) as int,
                    direction,
                    fee_bps as int,
                ),
                Err(e) => e == ArbError::ArithmeticOverflow && pre >= p256(),
            }
        }),
{
    let ghost l: int = u256_val(liquidity) as int;
    proof {
        lemma_pow_facts();
    }
    let (lo, hi) = if u256_lt(sqrt_start, sqrt_end) {
        (sqrt_start, sqrt_end)
    } else {
        (sqrt_end, sqrt_start)
    };
    let (delta, borrow) = u256_overflowing_sub(hi, lo);
    proof {
        assert(!borrow);
    }
    let one = u256_from_u128(1);
    let q96c = u256_shl96(one);
    proof {
        lemma_small_mod(p96() as nat, p256() as nat);
    }
    match direction {
        SwapDirection::BaseToQuote => {
            let wide = u256_full_mul(liquidity, delta);
            let (q, _rm) = u512_div_mod(wide, u512_from_u256(q96c));
            match u512_to_u256(q) {
                Some(v) => Ok(minus_fee(v, fee_bps)),
                None => Err(ArbError::ArithmeticOverflow),
            }
        },
        SwapDirection::QuoteToBase => {
            let ghost d: int = u256_val(delta) as int;
            let npart = u256_full_mul(liquidity, q96c);
            let (m, ovf) = u512_overflowing_mul(npart, u512_from_u256(delta));
            proof {
                assert(l * p96() * d < p128() * p96() * p256()) by (nonlinear_arith)
                    requires
                        1 <= l < p128(),
                        0 <= d < p256(),
                ;
                assert(p128() * p96() * p256() < p512()) by (nonlinear_arith);
                assert(!ovf);
            }
            let (d1, _r1) = u512_div_mod(m, u512_from_u256(hi));
            let (d2, _r2) = u512_div_mod(d1, u512_from_u256(lo));
            match u512_to_u256(d2) {
                Some(v) => Ok(minus_fee(v, fee_bps)),
                None => Err(ArbError::ArithmeticOverflow),
            }
        },
    }
}

/// The two-way scaled spot price: one fee-reduced price, expressed in
/// both directions. `spot_qpb` prices one whole base unit in quote
/// atoms, the raw `p*p*base_one/2^192` with the fee subtracted once;
/// `spot_bpq` prices one whole quote unit in base atoms as the scaled
/// reciprocal of that same fee-reduced price — no second fee.
pub open spec fn spot_qpb(p: int, base_one: int, fee_bps: int) -> int {
    apply_fee(p * p * base_one / p192(), fee_bps)
}

pub open spec fn spot_bpq(p: int, quote_one: int, fee_bps: int) -> int {
    p192() * quote_one * 10000 / (p * p * (10000 - fee_bps))
}

/// The pool's spot price in both directions, net of the fee, as the two
/// 128-bit scaled numbers the detector compares against the book. Fails
/// with `InvalidSnapshot` exactly when either direction cannot be
/// represented in 128 bits: the base-per-quote one for square-root
/// prices far below the configured scales, the quote-per-base one for
/// prices far above them.
pub fn spot_price(pool: &PoolState, cfg: &Config) -> (r: Result<TokensPrice, ArbError>)
    requires
        pool_wf(*pool),
        config_wf(*cfg),
    ensures
        ({
            let p = sqrt_p(*pool);
            let qpb = spot_qpb(p, cfg.base_one as int, cfg.fee_bps as int);
            let bpq = spot_bpq(p, cfg.quote_one as int, cfg.fee_bps as int);
            match r {
                Ok(t) => {
                    &&& t.quote_per_base == qpb
                    &&& t.base_per_quote == bpq
                    &&& qpb < p128()
                    &&& bpq < p128()
                    &&& t.name@ == "Uniswap"@
                },
                Err(e) => e == ArbError::InvalidSnapshot && (qpb >= p128() || bpq >= p128()),
            }
        }),
{
    let ghost p: int = sqrt_p(*pool);
    proof {
        lemma_pow_facts();
        assert(1 <= p * p < p160() * p160()) by (nonlinear_arith)
            requires
                1 <= p < p160(),
        ;
    }
    let sq = u256_full_mul(pool.sqrt_price, pool.sqrt_price);
    let bo = u256_from_u128(cfg.base_one);
    let (m1, ovf1) = u512_overflowing_mul(sq, u512_from_u256(bo));
    proof {
        assert(p * p * cfg.base_one < p160() * p160() * 1000000000000000000)
            by (nonlinear_arith)
            requires
                0 <= p * p < p160() * p160(),
                1 <= cfg.base_one <= 1000000000000000000,
        ;
        assert(!ovf1);
    }
    let one = u256_from_u128(1);
    let q96c = u256_shl96(one);
    proof {
        lemma_small_mod(p96() as nat, p256() as nat);
    }
    let q192c = u256_shl96(q96c);
    proof {
        lemma_small_mod((p96() * p96()) as nat, p256() as nat);
    }
    let (q1, _r1) = u512_div_mod(m1, u512_from_u256(q192c));
    proof {
        lemma_div_is_ordered(
            p * p * (cfg.base_one as int),
            p160() * p160() * 1000000000000000000,
            p192(),
        );
        assert(p160() * p160() * 1000000000000000000 / p192() < p256()) by (nonlinear_arith);
        lemma_div_is_ordered(0, p * p * (cfg.base_one as int), p192());
    }
    let q1_256 = u512_to_u256(q1).unwrap();
    let q1_fee = minus_fee(q1_256, cfg.fee_bps);
    let qpb = match u256_to_u128(q1_fee) {
        None => {
            return Err(ArbError::InvalidSnapshot);
        },
        Some(v) => v,
    };
    let qo = u256_from_u128(cfg.quote_one);
    let b0 = u256_full_mul(q192c, qo);
    let ten_k = u256_from_u128(10000);
    let (num, ovf2) = u512_overflowing_mul(b0, u512_from_u256(ten_k));
    proof {
        assert(p192() * cfg.quote_one * 10000 < p512()) by (nonlinear_arith)
            requires
                1 <= cfg.quote_one <= 1000000000000000000,
        ;
        assert(!ovf2);
    }
    let fee_left = u256_from_u128((10000 - cfg.fee_bps) as u128);
    let (den, ovf3) = u512_overflowing_mul(sq, u512_from_u256(fee_left));
    proof {
        assert(p * p * (10000 - cfg.fee_bps) < p160() * p160() * 1000000000000000000)
            by (nonlinear_arith)
            requires
                0 <= p * p < p160() * p160(),
                1 <= 10000 - cfg.fee_bps <= 10000,
        ;
        assert(p160() * p160() * 1000000000000000000 < p512()) by (nonlinear_arith);
        assert(!ovf3);
        assert(p * p * (10000 - cfg.fee_bps) >= 1) by (nonlinear_arith)
            requires
                p * p >= 1,
                10000 - cfg.fee_bps >= 1,
        ;
        lemma_div_is_ordered(
            0,
            p192() * (cfg.quote_one as int) * 10000,
            p * p * (10000 - cfg.fee_bps),
        );
    }
    let (q2, _r2) = u512_div_mod(num, den);
    match u512_to_u256(q2) {
        None => Err(ArbError::InvalidSnapshot),
        Some(v) => match u256_to_u128(v) {
            None => Err(ArbError::InvalidSnapshot),
            Some(bpq) => Ok(
                TokensPrice {
                    quote_per_base: qpb,
                    base_per_quote: bpq,
                    name: String::from_str("Uniswap"),
                },
            ),
        },
    }
}

/// Post-swap price monotonicity in the input size: more base in moves
/// the price at least as far down, more quote in at least as far up.
/// On integer arithmetic the movement need not be strict for
/// neighbouring sizes; the two strict lemmas below give gaps that
/// defeat the rounding. The base-to-quote half speaks of the
/// no-overflow branch of the formula.
pub proof fn lemma_next_sqrt_price_monotonic(p: int, l: int, x1: int, x2: int, dir: SwapDirection)
    requires
        1 <= p,
        1 <= l,
        1 <= x1 <= x2,
        dir == SwapDirection::BaseToQuote ==> x2 * p < p256() && l * p96() + x2 * p < p256(),
    ensures
        dir == SwapDirection::BaseToQuote ==> next_sqrt_price(p, l, x2, dir) <= next_sqrt_price(
            p,
            l,
            x1,
            dir,
        ),
        dir == SwapDirection::QuoteToBase ==> next_sqrt_price(p, l, x1, dir) <= next_sqrt_price(
            p,
            l,
            x2,
            dir,
        ),
{
    let n = l * p96();
    lemma_pow_facts();
    assert(l * p96() >= p96()) by (nonlinear_arith)
        requires
            l >= 1,
    ;
    match dir {
        SwapDirection::BaseToQuote => {
            assert(0 <= x1 * p && x1 * p <= x2 * p) by (nonlinear_arith)
                requires
                    1 <= x1 <= x2,
                    p >= 1,
            ;
            assert(n * p >= 0) by (nonlinear_arith)
                requires
                    n >= 1,
                    p >= 1,
            ;
            lemma_div_round_up_anti_mono(n * p, n + x1 * p, n + x2 * p);
        },
        SwapDirection::QuoteToBase => {
            assert(0 <= x1 * p96() && x1 * p96() <= x2 * p96()) by (nonlinear_arith)
                requires
                    1 <= x1 <= x2,
            ;
            lemma_div_is_ordered(x1 * p96(), x2 * p96(), l);
        },
    }
}

/// Strictly higher price for more quote in, once the size gap carries
/// at least one price tick: `(x2 - x1) * 2^96 >= l`.
pub proof fn lemma_next_sqrt_price_strict_quote(p: int, l: int, x1: int, x2: int)
    requires
        1 <= p,
        1 <= l,
        0 <= x1,
        (x2 - x1) * p96() >= l,
    ensures
        next_sqrt_price(p, l, x1, SwapDirection::QuoteToBase) < next_sqrt_price(
            p,
            l,
            x2,
            SwapDirection::QuoteToBase,
        ),
{
    assert(x2 * p96() >= x1 * p96() + l) by (nonlinear_arith)
        requires
            (x2 - x1) * p96() >= l,
    ;
    lemma_div_is_ordered(x1 * p96() + l, x2 * p96(), l);
    vstd::arithmetic::div_mod::lemma_div_plus_one(x1 * p96(), l);
}

/// Strictly lower price for more base in, once the size gap outweighs
/// the product of the two denominators.
pub proof fn lemma_next_sqrt_price_strict_base(p: int, l: int, x1: int, x2: int)
    requires
        1 <= p,
        1 <= l,
        1 <= x1 < x2,
        x2 * p < p256(),
        l * p96() + x2 * p < p256(),
        l * p96() * p * (x2 - x1) * p >= (l * p96() + x1 * p) * (l * p96() + x2 * p),
    ensures
        next_sqrt_price(p, l, x2, SwapDirection::BaseToQuote) < next_sqrt_price(
            p,
            l,
            x1,
            SwapDirection::BaseToQuote,
        ),
{
    let n = l * p96();
    let a = n * p;
    let d1 = n + x1 * p;
    let d2 = n + x2 * p;
    lemma_pow_facts();
    assert(n >= 1 && a >= 1 && d1 >= 1 && d2 >= 1 && d1 < d2 && a * (d2 - d1) >= d1 * d2)
        by (nonlinear_arith)
        requires
            1 <= p,
            1 <= l,
            1 <= x1 < x2,
            n == l * p96(),
            a == n * p,
            d1 == n + x1 * p,
            d2 == n + x2 * p,
            p96() >= 1,
            n * p * (x2 - x1) * p >= d1 * d2,
    ;
    let q2 = a / d2;
    lemma_fundamental_div_mod(a, d2);
    lemma_mod_division_less_than_divisor(a, d2);
    lemma_div_is_ordered(0, a, d2);
    // a*(d2-d1) >= d1*d2 pushes the two floored quotients a tick apart
    assert(a >= d1 * (q2 + 1)) by (nonlinear_arith)
        requires
            a == d2 * q2 + a % d2,
            0 <= a % d2 < d2,
            a * (d2 - d1) >= d1 * d2,
            d1 >= 1,
            d2 >= 1,
            q2 >= 0,
    ;
    lemma_div_is_ordered(d1 * (q2 + 1), a, d1);
    lemma_div_multiples_vanish(q2 + 1, d1);
    assert(a / d1 >= q2 + 1);
    let c1 = div_round_up(a, d1);
    let c2 = div_round_up(a, d2);
    assert(c1 >= a / d1);
    assert(c2 <= q2 + 1);
    if c2 == c1 {
        // equality would force `a` to sit exactly on a multiple of the
        // smaller denominator and strictly between multiples of the
        // larger, which the size-gap hypothesis rules out
        assert(a / d1 == q2 + 1 && a % d1 == 0);
        assert(a % d2 != 0);
        lemma_fundamental_div_mod(a, d1);
        assert(false) by (nonlinear_arith)
            requires
                a == d1 * (q2 + 1),
                a == d2 * q2 + a % d2,
                1 <= a % d2,
                a * (d2 - d1) >= d1 * d2,
                d1 >= 1,
                d2 >= 1,
                q2 >= 0,
        ;
    }
}

/// The fee-free round trip through the pool only loses value: swapping
/// `x` base in, then the quote received back the other way, recovers at
/// most `x` base, on either branch of the price formula.
pub proof fn lemma_round_trip(p: int, l: int, x: int)
    requires
        1 <= p,
        1 <= l,
        1 <= x,
    ensures
        ({
            let p1 = next_sqrt_price(p, l, x, SwapDirection::BaseToQuote);
            let y = amount_out_pre_fee(p, p1, l, SwapDirection::BaseToQuote);
            let p2 = next_sqrt_price(p1, l, y, SwapDirection::QuoteToBase);
            let z = amount_out_pre_fee(p1, p2, l, SwapDirection::QuoteToBase);
            z <= x
        }),
{
    lemma_pow_facts();
    let n = l * p96();
    let d = n + x * p;
    assert(p96() <= n && 0 < x * p && 0 < n * p) by (nonlinear_arith)
        requires
            1 <= l,
            1 <= p,
            1 <= x,
            n == l * p96(),
            p96() >= 1,
    ;
    let p1 = next_sqrt_price(p, l, x, SwapDirection::BaseToQuote);
    if x * p < p256() && n + x * p < p256() {
        assert(p1 == div_round_up(n * p, d));
        lemma_div_round_up_bounds(n * p, d);
        // p1 is positive and at most p
        assert(n * p <= d * p) by (nonlinear_arith)
            requires
                x * p >= 0,
                p >= 1,
                n >= 0,
                d == n + x * p,
        ;
        lemma_div_round_up_le(n * p, d, p);
        assert(p1 >= 1) by (nonlinear_arith)
            requires
                d >= 1,
                d * p1 >= n * p,
                n * p >= 1,
                p1 >= 0,
        ;
        // the ceil lower bound turns into: what the price lost is paid for
        assert(n * (p - p1) <= x * p * p1) by (nonlinear_arith)
            requires
                d * p1 >= n * p,
                d == n + x * p,
        ;
    } else {
        let d2 = x + n / p;
        assert(p1 == div_round_up(n, d2));
        lemma_fundamental_div_mod(n, p);
        lemma_mod_division_less_than_divisor(n, p);
        lemma_div_is_ordered(0, n, p);
        lemma_div_round_up_bounds(n, d2);
        // p1 is positive and at most p
        assert(n <= d2 * p) by (nonlinear_arith)
            requires
                n == p * (n / p) + n % p,
                0 <= n % p < p,
                x >= 1,
                d2 == x + n / p,
                p >= 1,
        ;
        lemma_div_round_up_le(n, d2, p);
        assert(p1 >= 1) by (nonlinear_arith)
            requires
                d2 >= 1,
                d2 * p1 >= n,
                n >= 1,
                p1 >= 0,
        ;
        // the same payment bound, through the coarser denominator
        assert(n * (p - p1) <= x * p * p1) by (nonlinear_arith)
            requires
                d2 * p1 >= n,
                d2 == x + n / p,
                (n / p) * p <= n,
                n == p * (n / p) + n % p,
                0 <= n % p,
                p1 >= 1,
                p >= 1,
        ;
    }
    let y = l * (p - p1) / p96();
    assert(y == amount_out_pre_fee(p, p1, l, SwapDirection::BaseToQuote));
    lemma_fundamental_div_mod(l * (p - p1), p96());
    lemma_mod_division_less_than_divisor(l * (p - p1), p96());
    lemma_div_is_ordered(0, l * (p - p1), p96());
    // y*2^96 brackets l*(p-p1) from below by less than one unit of 2^96
    assert(y * p96() <= l * (p - p1) && y * p96() > l * (p - p1) - p96()) by (nonlinear_arith)
        requires
            l * (p - p1) == p96() * y + l * (p - p1) % p96(),
            0 <= l * (p - p1) % p96() < p96(),
    ;
    let delta = y * p96() / l;
    lemma_fundamental_div_mod(y * p96(), l);
    lemma_mod_division_less_than_divisor(y * p96(), l);
    lemma_div_is_ordered(0, y * p96(), l);
    assert(l * delta <= y * p96() && l * delta > y * p96() - l) by (nonlinear_arith)
        requires
            y * p96() == l * delta + y * p96() % l,
            0 <= y * p96() % l < l,
    ;
    // delta never overshoots the ground the price lost
    assert(delta <= p - p1) by (nonlinear_arith)
        requires
            l * delta <= y * p96(),
            y * p96() <= l * (p - p1),
            l >= 1,
    ;
    let p2 = p1 + delta;
    assert(p2 == next_sqrt_price(p1, l, y, SwapDirection::QuoteToBase));
    assert(p1 <= p2 <= p);
    let f1 = n * delta / p2;
    let z = f1 / p1;
    assert(z == amount_out_pre_fee(p1, p2, l, SwapDirection::QuoteToBase));
    if delta == 0 {
        lemma_div_is_ordered(0, n * 0, p2);
        assert(n * 0 == 0) by (nonlinear_arith);
        lemma_div_is_ordered(0, 0, p1);
    } else {
        lemma_fundamental_div_mod(n * delta, p2);
        lemma_mod_division_less_than_divisor(n * delta, p2);
        lemma_fundamental_div_mod(f1, p1);
        lemma_mod_division_less_than_divisor(f1, p1);
        assert(0 <= n * delta) by (nonlinear_arith)
            requires
                n >= 0,
                delta >= 0,
        ;
        lemma_div_is_ordered(0, n * delta, p2);
        lemma_div_is_ordered(0, f1, p1);
        // the two floors give z*p1*p2 <= n*delta
        assert(z * p1 * p2 <= n * delta) by (nonlinear_arith)
            requires
                n * delta == p2 * f1 + n * delta % p2,
                0 <= n * delta % p2,
                f1 == p1 * z + f1 % p1,
                0 <= f1 % p1,
                p1 >= 1,
                p2 >= 1,
                z >= 0,
        ;
        // the return leg only covers the segment [p1, p2] of the ground
        // [p1, p] the first leg paid for: cross-multiplied, that is
        // n*(p2-p1)*p <= n*(p-p1)*p2, because p2 <= p
        assert(n * delta * p <= n * (p - p1) * p2) by (nonlinear_arith)
            requires
                delta == p2 - p1,
                p2 <= p,
                p1 >= 0,
                n >= 0,
        ;
        assert(n * (p - p1) * p2 <= x * p * p1 * p2) by (nonlinear_arith)
            requires
                n * (p - p1) <= x * p * p1,
                p2 >= 0,
        ;
        assert(z * p1 * p2 * p <= x * p * p1 * p2) by (nonlinear_arith)
            requires
                z * p1 * p2 <= n * delta,
                n * delta * p <= n * (p - p1) * p2,
                n * (p - p1) * p2 <= x * p * p1 * p2,
                p >= 1,
        ;
        assert(z <= x) by (nonlinear_arith)
            requires
                z * p1 * p2 * p <= x * p * p1 * p2,
                p1 >= 1,
                p2 >= 1,
                p >= 1,
        ;
    }
}

/// The same round trip phrased over the fee-carrying output function
/// at fee zero, the form the executable contracts use.
pub proof fn lemma_round_trip_fee_free(p: int, l: int, x: int)
    requires
        1 <= p,
        1 <= l,
        1 <= x,
    ensures
        ({
            let p1 = next_sqrt_price(p, l, x, SwapDirection::BaseToQuote);
            let y = amount_out_spec(p, p1, l, SwapDirection::BaseToQuote, 0);
            let p2 = next_sqrt_price(p1, l, y, SwapDirection::QuoteToBase);
            let z = amount_out_spec(p1, p2, l, SwapDirection::QuoteToBase, 0);
            z <= x
        }),
{
    lemma_round_trip(p, l, x);
    let p1 = next_sqrt_price(p, l, x, SwapDirection::BaseToQuote);
    let y0 = amount_out_pre_fee(p, p1, l, SwapDirection::BaseToQuote);
    assert(y0 * 0 == 0) by (nonlinear_arith);
    assert(amount_out_spec(p, p1, l, SwapDirection::BaseToQuote, 0) == y0);
    let p2 = next_sqrt_price(p1, l, y0, SwapDirection::QuoteToBase);
    let z0 = amount_out_pre_fee(p1, p2, l, SwapDirection::QuoteToBase);
    assert(z0 * 0 == 0) by (nonlinear_arith);
    assert(amount_out_spec(p1, p2, l, SwapDirection::QuoteToBase, 0) == z0);
}

/// The two spot directions are one price: their product recovers
/// `base_one * quote_one` to within one rounding unit of each factor.
pub proof fn lemma_spot_reciprocity(p: int, base_one: int, quote_one: int, fee_bps: int)
    requires
        1 <= p,
        1 <= base_one,
        1 <= quote_one,
        0 <= fee_bps < 10000,
    ensures
        ({
            let qpb = spot_qpb(p, base_one, fee_bps);
            let bpq = spot_bpq(p, quote_one, fee_bps);
            &&& qpb * bpq <= base_one * quote_one + bpq
            &&& qpb * bpq + qpb + bpq >= base_one * quote_one
        }),
{
    lemma_pow_facts();
    let s = base_one;
    let q = quote_one;
    let b = p * p;
    let k = p192();
    let t = 10000int;
    let g = t - fee_bps;
    assert(p * p >= 1) by (nonlinear_arith)
        requires
            p >= 1,
    ;
    assert(b * s >= 1) by (nonlinear_arith)
        requires
            b >= 1,
            s >= 1,
    ;
    let a = b * s / k;
    lemma_fundamental_div_mod(b * s, k);
    lemma_mod_division_less_than_divisor(b * s, k);
    lemma_div_is_ordered(0, b * s, k);
    assert(a * k <= b * s && b * s < a * k + k) by (nonlinear_arith)
        requires
            b * s == k * a + (b * s) % k,
            0 <= (b * s) % k < k,
    ;
    let m = a * fee_bps / t;
    lemma_fundamental_div_mod(a * fee_bps, t);
    lemma_mod_division_less_than_divisor(a * fee_bps, t);
    assert(m * t <= a * fee_bps && a * fee_bps < m * t + t) by (nonlinear_arith)
        requires
            a * fee_bps == t * m + (a * fee_bps) % t,
            0 <= (a * fee_bps) % t < t,
    ;
    let qpb = a - m;
    assert(qpb == spot_qpb(p, base_one, fee_bps));
    assert(qpb * t >= a * g && qpb * t < a * g + t) by (nonlinear_arith)
        requires
            m * t <= a * fee_bps,
            a * fee_bps < m * t + t,
            qpb == a - m,
            g == t - fee_bps,
    ;
    assert(a * fee_bps >= 0) by (nonlinear_arith)
        requires
            a >= 0,
            fee_bps >= 0,
    ;
    lemma_div_is_ordered(0, a * fee_bps, t);
    assert(qpb >= 0) by (nonlinear_arith)
        requires
            qpb * t >= a * g,
            a >= 0,
            g >= 1,
            t >= 1,
    ;
    let bg = b * g;
    assert(b * g >= 1) by (nonlinear_arith)
        requires
            b >= 1,
            g >= 1,
    ;
    let bpq = k * q * t / bg;
    assert(bpq == spot_bpq(p, quote_one, fee_bps));
    lemma_fundamental_div_mod(k * q * t, bg);
    lemma_mod_division_less_than_divisor(k * q * t, bg);
    assert(k * q * t >= 1) by (nonlinear_arith)
        requires
            k >= 1,
            q >= 1,
            t >= 1,
    ;
    lemma_div_is_ordered(0, k * q * t, bg);
    assert(bpq * bg <= k * q * t && k * q * t < bpq * bg + bg) by (nonlinear_arith)
        requires
            k * q * t == bg * bpq + (k * q * t) % bg,
            0 <= (k * q * t) % bg < bg,
    ;
    // upper: each factor sits at most one rounding unit above the real
    // value, and the two ideal values multiply exactly to s*q
    assert((qpb * t) * (bpq * bg) <= (a * g + t - 1) * (k * q * t)) by (nonlinear_arith)
        requires
            0 <= qpb * t <= a * g + t - 1,
            0 <= bpq * bg <= k * q * t,
    ;
    assert((a * g + t - 1) * (k * q * t) <= (a * k) * (g * q * t) + (t - 1) * (k * q * t))
        by (nonlinear_arith);
    assert((a * k) * (g * q * t) <= (b * s) * (g * q * t)) by (nonlinear_arith)
        requires
            a * k <= b * s,
            g * q * t >= 0,
    ;
    assert((b * s) * (g * q * t) == (s * q) * (t * bg)) by (nonlinear_arith)
        requires
            bg == b * g,
    ;
    assert((t - 1) * (k * q * t) < t * (bpq * bg + bg)) by (nonlinear_arith)
        requires
            k * q * t < bpq * bg + bg,
            k * q * t >= 0,
            t >= 1,
    ;
    assert(t * (bpq * bg + bg) == (bpq + 1) * (t * bg)) by (nonlinear_arith)
        requires
            bg == b * g,
    ;
    assert((qpb * bpq) * (t * bg) == (qpb * t) * (bpq * bg)) by (nonlinear_arith);
    assert((qpb * bpq) * (t * bg) < (s * q + bpq + 1) * (t * bg)) by (nonlinear_arith)
        requires
            (qpb * bpq) * (t * bg) <= (s * q) * (t * bg) + (t - 1) * (k * q * t),
            (t - 1) * (k * q * t) < (bpq + 1) * (t * bg),
    ;
    assert(qpb * bpq <= s * q + bpq) by (nonlinear_arith)
        requires
            (qpb * bpq) * (t * bg) < (s * q + bpq + 1) * (t * bg),
            t * bg >= 1,
    ;
    // lower: each factor sits less than one rounding unit below the
    // real value
    assert(k * (g * q * t) == (k * q * t) * g) by (nonlinear_arith);
    assert(g * q * t >= 1) by (nonlinear_arith)
        requires
            g >= 1,
            q >= 1,
            t >= 1,
    ;
    assert((qpb * t) * (bpq * bg + bg) >= (a * g) * (k * q * t)) by (nonlinear_arith)
        requires
            qpb * t >= a * g,
            a * g >= 0,
            bpq * bg + bg >= k * q * t + 1,
            k * q * t >= 0,
    ;
    assert((a * g) * (k * q * t) == (a * k) * (g * q * t)) by (nonlinear_arith);
    assert((a * k) * (g * q * t) >= (b * s - k + 1) * (g * q * t)) by (nonlinear_arith)
        requires
            a * k >= b * s - k + 1,
            g * q * t >= 1,
    ;
    assert((b * s - k + 1) * (g * q * t) == (b * s) * (g * q * t) - k * (g * q * t) + g * q * t)
        by (nonlinear_arith);
    assert(a * k >= b * s - k + 1);
    assert((bpq * bg) * t >= (k * q * t) * g - t * bg + t) by (nonlinear_arith)
        requires
            bpq * bg >= k * q * t - bg + 1,
            1 <= g <= t,
            k * q * t >= 0,
            bg >= 1,
    ;
    assert((qpb * bpq + qpb + bpq) * (t * bg) == (qpb * t) * (bpq * bg + bg) + (bpq * bg) * t)
        by (nonlinear_arith);
    assert((s * q - 1) * (t * bg) == (s * q) * (t * bg) - t * bg) by (nonlinear_arith);
    assert((qpb * bpq + qpb + bpq) * (t * bg) > (s * q - 1) * (t * bg));
    assert(qpb * bpq + qpb + bpq >= s * q) by (nonlinear_arith)
        requires
            (qpb * bpq + qpb + bpq) * (t * bg) > (s * q - 1) * (t * bg),
            t * bg >= 1,
    ;
}

} // verus!
