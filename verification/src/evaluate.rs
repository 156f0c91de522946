//! The profit evaluator: simulate the two-leg round trip — pool leg and
//! book leg, in either order — for one candidate size, and report the
//! net profit in the round trip's starting asset.

use vstd::prelude::*;

use crate::book::{
    lemma_sum_q_le_qp, lemma_sum_qp_term_le, lemma_sums_nonneg, lemma_sums_prefix_le,
    lemma_sums_snoc, qp_cap, sum_q, sum_qp, DepthLevel,
};
use crate::errors::ArbError;
use crate::pool::{
    amount_out, amount_out_pre_fee, amount_out_spec, liq, next_sqrt_price, pool_wf,
    price_after_swap, sqrt_p, swap_in_range, PoolState,
};
use crate::types::{config_wf, Config, SwapDirection};
use crate::u256::{
    lemma_pow_facts, p128, p160, p256, p96, u256_eq, u256_from_u128, u256_to_u128,
};
use vstd::arithmetic::div_mod::{
    lemma_div_is_ordered, lemma_div_nonincreasing, lemma_div_pos_is_pos,
    lemma_fundamental_div_mod, lemma_mod_division_less_than_divisor,
};

verus! {

/// Sides a walk can fill against: positive prices and a capped total.
pub open spec fn walkable(levels: Seq<DepthLevel>) -> bool {
    &&& forall|i: int| 0 <= i < levels.len() ==> (#[trigger] levels[i]).price >= 1
    &&& sum_qp(levels) <= qp_cap()
}

/// Spend `target` quote atoms buying base, best level first: whole
/// levels while they cost less than what is left, then a pro-rata share
/// of the last; `None` when the side runs out of value first.
pub open spec fn buy_base_spec(levels: Seq<DepthLevel>, target: int, base_one: int) -> Option<int>
    decreases levels.len(),
{
    if target == 0 {
        Some(0int)
    } else if levels.len() == 0 {
        None
    } else {
        let cost = levels[0].quantity * levels[0].price / base_one;
        if cost < target {
            match buy_base_spec(levels.skip(1), target - cost, base_one) {
                None => None,
                Some(r) => Some(levels[0].quantity + r),
            }
        } else {
            Some(target * base_one / (levels[0].price as int))
        }
    }
}

/// Sell `target` base atoms, best level first: whole levels while they
/// hold less than what is left, then a pro-rata share of the last;
/// `None` when the side runs out of quantity first.
pub open spec fn sell_base_spec(levels: Seq<DepthLevel>, target: int, base_one: int) -> Option<int>
    decreases levels.len(),
{
    if target == 0 {
        Some(0int)
    } else if levels.len() == 0 {
        None
    } else {
        let qty = levels[0].quantity as int;
        if qty < target {
            match sell_base_spec(levels.skip(1), target - qty, base_one) {
                None => None,
                Some(r) => Some(levels[0].quantity * levels[0].price / base_one + r),
            }
        } else {
            Some(target * (levels[0].price as int) / base_one)
        }
    }
}

/// Converts `target` quote atoms into base against the ask levels.
pub fn buy_base(levels: &Vec<DepthLevel>, target: u128, base_one: u128) -> (r: Result<
    u128,
    ArbError,
>)
    requires
        walkable(levels@),
        1 <= base_one,
    ensures
        match r {
            Ok(v) => buy_base_spec(levels@, target as int, base_one as int) == Some(v as int) && v
                <= sum_q(levels@),
            Err(e) => e == ArbError::InsufficientDepth && buy_base_spec(
                levels@,
                target as int,
                base_one as int,
            ) is None,
        },
{
    let ghost lv = levels@;
    let ghost b1: int = base_one as int;
    let mut i: usize = 0;
    let mut filled: u128 = 0;
    let mut recv: u128 = 0;
    proof {
        assert(lv.skip(0) =~= lv);
        assert(lv.take(0) =~= Seq::<DepthLevel>::empty());
        lemma_sums_nonneg(lv);
        lemma_sum_q_le_qp(lv);
    }
    while filled < target
        invariant
            0 <= i <= lv.len(),
            levels@ == lv,
            walkable(lv),
            1 <= base_one,
            b1 == base_one as int,
            filled <= target,
            recv <= sum_q(lv.take(i as int)),
            ({
                let whole = buy_base_spec(lv, target as int, b1);
                match buy_base_spec(lv.skip(i as int), target - filled, b1) {
                    None => whole is None,
                    Some(t) => whole == Some(recv + t),
                }
            }),
        decreases lv.len() - i,
    {
        if i >= levels.len() {
            proof {
                assert(lv.skip(i as int) =~= Seq::<DepthLevel>::empty());
            }
            return Err(ArbError::InsufficientDepth);
        }
        let level = levels[i];
        let ghost rest = lv.skip(i as int);
        proof {
            assert(rest[0] == lv[i as int]);
            assert(rest.skip(1) =~= lv.skip(i as int + 1));
            lemma_sums_prefix_le(lv, i as int);
            lemma_sums_prefix_le(lv, i as int + 1);
            lemma_sums_snoc(lv, i as int);
            lemma_sum_qp_term_le(lv, i as int);
            lemma_sum_q_le_qp(lv);
            lemma_sum_q_le_qp(lv.take(i as int));
            assert(level.quantity * level.price == level.price * level.quantity)
                by (nonlinear_arith);
            lemma_div_nonincreasing(level.quantity * level.price, b1);
            lemma_div_pos_is_pos(level.quantity * level.price, b1);
        }
        let cost = level.quantity * level.price / base_one;
        let remaining = target - filled;
        if cost < remaining {
            filled = filled + cost;
            recv = recv + level.quantity;
            i = i + 1;
        } else {
            // the last level is split pro rata: what is left to spend,
            // turned into base at this level's price
            proof {
                lemma_fundamental_div_mod(level.quantity * level.price, b1);
                lemma_mod_division_less_than_divisor(level.quantity * level.price, b1);
                assert(remaining * base_one <= cost * base_one) by (nonlinear_arith)
                    requires
                        remaining <= cost,
                        base_one >= 1,
                        remaining >= 0,
                ;
                assert(cost * base_one <= level.quantity * level.price) by (nonlinear_arith)
                    requires
                        level.quantity * level.price == base_one * cost + (level.quantity
                            * level.price) % (base_one as int),
                        (level.quantity * level.price) % (base_one as int) >= 0,
                ;
                lemma_div_is_ordered(
                    remaining * (base_one as int),
                    level.quantity * level.price,
                    level.price as int,
                );
                lemma_div_pos_is_pos(remaining * (base_one as int), level.price as int);
                assert(level.quantity * level.price / (level.price as int) == level.quantity) by {
                    vstd::arithmetic::div_mod::lemma_div_multiples_vanish(
                        level.quantity as int,
                        level.price as int,
                    );
                    assert(level.price * level.quantity == level.quantity * level.price)
                        by (nonlinear_arith);
                }
            }
            let share = remaining * base_one / level.price;
            recv = recv + share;
            filled = target;
            i = i + 1;
        }
    }
    proof {
        assert(buy_base_spec(lv.skip(i as int), 0, b1) == Some(0int));
        lemma_sums_prefix_le(lv, i as int);
        lemma_sum_q_le_qp(lv);
    }
    Ok(recv)
}

/// Converts `target` base atoms into quote against the bid levels.
pub fn sell_base(levels: &Vec<DepthLevel>, target: u128, base_one: u128) -> (r: Result<
    u128,
    ArbError,
>)
    requires
        walkable(levels@),
        1 <= base_one,
    ensures
        match r {
            Ok(v) => sell_base_spec(levels@, target as int, base_one as int) == Some(v as int) && v
                <= sum_qp(levels@),
            Err(e) => e == ArbError::InsufficientDepth && sell_base_spec(
                levels@,
                target as int,
                base_one as int,
            ) is None,
        },
{
    let ghost lv = levels@;
    let ghost b1: int = base_one as int;
    let mut i: usize = 0;
    let mut filled: u128 = 0;
    let mut proceeds: u128 = 0;
    proof {
        assert(lv.skip(0) =~= lv);
        assert(lv.take(0) =~= Seq::<DepthLevel>::empty());
        lemma_sums_nonneg(lv);
    }
    while filled < target
        invariant
            0 <= i <= lv.len(),
            levels@ == lv,
            walkable(lv),
            1 <= base_one,
            b1 == base_one as int,
            filled <= target,
            proceeds <= sum_qp(lv.take(i as int)),
            ({
                let whole = sell_base_spec(lv, target as int, b1);
                match sell_base_spec(lv.skip(i as int), target - filled, b1) {
                    None => whole is None,
                    Some(t) => whole == Some(proceeds + t),
                }
            }),
        decreases lv.len() - i,
    {
        if i >= levels.len() {
            proof {
                assert(lv.skip(i as int) =~= Seq::<DepthLevel>::empty());
            }
            return Err(ArbError::InsufficientDepth);
        }
        let level = levels[i];
        let ghost rest = lv.skip(i as int);
        proof {
            assert(rest[0] == lv[i as int]);
            assert(rest.skip(1) =~= lv.skip(i as int + 1));
            lemma_sums_prefix_le(lv, i as int);
            lemma_sums_prefix_le(lv, i as int + 1);
            lemma_sums_snoc(lv, i as int);
            lemma_sum_qp_term_le(lv, i as int);
            assert(level.quantity * level.price == level.price * level.quantity)
                by (nonlinear_arith);
            lemma_div_nonincreasing(level.quantity * level.price, b1);
            lemma_div_pos_is_pos(level.quantity * level.price, b1);
        }
        let remaining = target - filled;
        if level.quantity < remaining {
            let value = level.quantity * level.price / base_one;
            filled = filled + level.quantity;
            proceeds = proceeds + value;
            i = i + 1;
        } else {
            // the last level is split pro rata: what is left to sell,
            // priced at this level
            proof {
                assert(remaining * level.price <= level.quantity * level.price)
                    by (nonlinear_arith)
                    requires
                        remaining <= level.quantity,
                        level.price >= 1,
                        remaining >= 0,
                ;
                lemma_div_is_ordered(
                    remaining * (level.price as int),
                    level.quantity * level.price,
                    b1,
                );
                lemma_div_pos_is_pos(remaining * (level.price as int), b1);
            }
            let share = remaining * level.price / base_one;
            proceeds = proceeds + share;
            filled = target;
            i = i + 1;
        }
    }
    proof {
        assert(sell_base_spec(lv.skip(i as int), 0, b1) == Some(0int));
        lemma_sums_prefix_le(lv, i as int);
    }
    Ok(proceeds)
}


/// The AMM-first simulation: swap `amount` through the pool, then unwind
/// the output against the book levels. `dir` names the pool leg:
/// `BaseToQuote` sells base into the pool and buys it back from the ask
/// levels, profit in base; `QuoteToBase` sells quote into the pool and
/// sells the base out on the bid levels, profit in quote.
pub open spec fn profit_amm_first_spec(
    p: int,
    l: int,
    fee_bps: int,
    levels: Seq<DepthLevel>,
    amount: int,
    dir: SwapDirection,
    base_one: int,
) -> Result<int, ArbError> {
    let p1 = next_sqrt_price(p, l, amount, dir);
    if p1 != p && amount_out_pre_fee(p, p1, l, dir) >= p256() {
        Err(ArbError::ArithmeticOverflow)
    } else {
        let out = if p1 == p {
            0int
        } else {
            amount_out_spec(p, p1, l, dir, fee_bps)
        };
        if out >= p128() {
            Err(ArbError::ArithmeticOverflow)
        } else {
            let walk = match dir {
                SwapDirection::BaseToQuote => buy_base_spec(levels, out, base_one),
                SwapDirection::QuoteToBase => sell_base_spec(levels, out, base_one),
            };
            match walk {
                None => Err(ArbError::InsufficientDepth),
                Some(r) => Ok(r - amount),
            }
        }
    }
}

/// The book-first simulation: convert `amount` against the book levels,
/// then push the proceeds through the pool. `dir` again names the pool
/// leg: `BaseToQuote` first buys base on the ask levels with `amount`
/// quote, profit in quote; `QuoteToBase` first sells `amount` base on
/// the bid levels, profit in base. A pool output beyond the side cap is
/// reported as overflow rather than folded into a profit it cannot
/// represent.
pub open spec fn profit_book_first_spec(
    p: int,
    l: int,
    fee_bps: int,
    levels: Seq<DepthLevel>,
    amount: int,
    dir: SwapDirection,
    base_one: int,
) -> Result<int, ArbError> {
    let walk = match dir {
        SwapDirection::BaseToQuote => buy_base_spec(levels, amount, base_one),
        SwapDirection::QuoteToBase => sell_base_spec(levels, amount, base_one),
    };
    match walk {
        None => Err(ArbError::InsufficientDepth),
        Some(mid) => {
            if mid == 0 {
                Ok(0 - amount)
            } else {
                let p1 = next_sqrt_price(p, l, mid, dir);
                if p1 != p && amount_out_pre_fee(p, p1, l, dir) >= p256() {
                    Err(ArbError::ArithmeticOverflow)
                } else {
                    let out = if p1 == p {
                        0int
                    } else {
                        amount_out_spec(p, p1, l, dir, fee_bps)
                    };
                    if out > qp_cap() {
                        Err(ArbError::ArithmeticOverflow)
                    } else {
                        Ok(out - amount)
                    }
                }
            }
        },
    }
}

/// Any 128-bit swap size sits inside the range the swap math asks for,
/// in both directions.
proof fn lemma_swap_in_range(p: int, l: int, x: int)
    requires
        1 <= p < p160(),
        1 <= l < p128(),
        0 <= x < p128(),
    ensures
        swap_in_range(p, l, x, SwapDirection::BaseToQuote),
        swap_in_range(p, l, x, SwapDirection::QuoteToBase),
{
    lemma_pow_facts();
    assert(0 <= l * p96() && l * p96() < p128() * p96()) by (nonlinear_arith)
        requires
            1 <= l < p128(),
    ;
    assert(0 <= x * p96() && x * p96() < p128() * p96()) by (nonlinear_arith)
        requires
            0 <= x < p128(),
    ;
    lemma_div_nonincreasing(l * p96(), p);
    lemma_div_nonincreasing(x * p96(), l);
    assert(p160() + p128() * p96() < p256()) by (nonlinear_arith);
}

/// The AMM-first profit of one candidate size, exactly as
/// `profit_amm_first_spec` lays it out.
pub fn profit_amm_first(
    pool: &PoolState,
    levels: &Vec<DepthLevel>,
    amount: u128,
    direction: SwapDirection,
    cfg: &Config,
) -> (r: Result<i128, ArbError>)
    requires
        pool_wf(*pool),
        config_wf(*cfg),
        walkable(levels@),
        1 <= amount,
        amount as int <= qp_cap(),
    ensures
        ({
            let spec_r = profit_amm_first_spec(
                sqrt_p(*pool),
                liq(*pool),
                cfg.fee_bps as int,
                levels@,
                amount as int,
                direction,
                cfg.base_one as int,
            );
            match r {
                Ok(v) => spec_r == Ok::<int, ArbError>(v as int),
                Err(e) => spec_r == Err::<int, ArbError>(e),
            }
        }),
{
    proof {
        lemma_pow_facts();
        lemma_swap_in_range(sqrt_p(*pool), liq(*pool), amount as int);
    }
    let amount_u = u256_from_u128(amount);
    let next = price_after_swap(pool, amount_u, direction);
    let out128: u128 = if u256_eq(next, pool.sqrt_price) {
        0
    } else {
        match amount_out(pool.sqrt_price, next, pool.liquidity, direction, cfg.fee_bps) {
            Err(e) => {
                return Err(e);
            },
            Ok(v) => match u256_to_u128(v) {
                None => {
                    return Err(ArbError::ArithmeticOverflow);
                },
                Some(w) => w,
            },
        }
    };
    let walk_result = match direction {
        SwapDirection::BaseToQuote => buy_base(levels, out128, cfg.base_one),
        SwapDirection::QuoteToBase => sell_base(levels, out128, cfg.base_one),
    };
    match walk_result {
        Err(e) => Err(e),
        Ok(v) => {
            proof {
                lemma_sum_q_le_qp(levels@);
            }
            Ok(v as i128 - amount as i128)
        },
    }
}

/// The book-first profit of one candidate size, exactly as
/// `profit_book_first_spec` lays it out.
pub fn profit_book_first(
    pool: &PoolState,
    levels: &Vec<DepthLevel>,
    amount: u128,
    direction: SwapDirection,
    cfg: &Config,
) -> (r: Result<i128, ArbError>)
    requires
        pool_wf(*pool),
        config_wf(*cfg),
        walkable(levels@),
        1 <= amount,
        amount as int <= qp_cap(),
    ensures
        ({
            let spec_r = profit_book_first_spec(
                sqrt_p(*pool),
                liq(*pool),
                cfg.fee_bps as int,
                levels@,
                amount as int,
                direction,
                cfg.base_one as int,
            );
            match r {
                Ok(v) => spec_r == Ok::<int, ArbError>(v as int),
                Err(e) => spec_r == Err::<int, ArbError>(e),
            }
        }),
{
    proof {
        lemma_pow_facts();
        lemma_sum_q_le_qp(levels@);
    }
    let walk_result = match direction {
        SwapDirection::BaseToQuote => buy_base(levels, amount, cfg.base_one),
        SwapDirection::QuoteToBase => sell_base(levels, amount, cfg.base_one),
    };
    let mid = match walk_result {
        Err(e) => {
            return Err(e);
        },
        Ok(v) => v,
    };
    if mid == 0 {
        return Ok(0i128 - amount as i128);
    }
    proof {
        lemma_swap_in_range(sqrt_p(*pool), liq(*pool), mid as int);
    }
    let mid_u = u256_from_u128(mid);
    let next = price_after_swap(pool, mid_u, direction);
    let out128: u128 = if u256_eq(next, pool.sqrt_price) {
        0
    } else {
        match amount_out(pool.sqrt_price, next, pool.liquidity, direction, cfg.fee_bps) {
            Err(e) => {
                return Err(e);
            },
            Ok(v) => match u256_to_u128(v) {
                None => {
                    return Err(ArbError::ArithmeticOverflow);
                },
                Some(w) => w,
            },
        }
    };
    let cap: u128 = 0x40000000000000000000000000000000;
    if out128 > cap {
        return Err(ArbError::ArithmeticOverflow);
    }
    Ok(out128 as i128 - amount as i128)
}

} // verus!
