//! The size optimizer: a bounded binary search over candidate trade
//! sizes that narrows toward higher profit and returns the best
//! size/profit pair it observed.

use vstd::prelude::*;

use crate::book::{qp_cap, DepthLevel};
use crate::errors::ArbError;
use crate::evaluate::{
    profit_amm_first, profit_amm_first_spec, profit_book_first, profit_book_first_spec, walkable,
};
use crate::pool::{liq, pool_wf, sqrt_p, PoolState};
use crate::types::{config_wf, Config, Profit, SwapDirection};
use vstd::string::StringExecFns;

verus! {

/// Which leg of the round trip is simulated first.
#[derive(Clone, Copy, PartialEq, Eq, Structural, Debug)]
pub enum LegOrder {
    AmmFirst,
    BookFirst,
}

/// The evaluator a search probes: one of the two simulation shapes.
pub open spec fn profit_eval_spec(
    shape: LegOrder,
    p: int,
    l: int,
    fee_bps: int,
    levels: Seq<DepthLevel>,
    amount: int,
    dir: SwapDirection,
    base_one: int,
) -> Result<int, ArbError> {
    match shape {
        LegOrder::AmmFirst => profit_amm_first_spec(p, l, fee_bps, levels, amount, dir, base_one),
        LegOrder::BookFirst => profit_book_first_spec(p, l, fee_bps, levels, amount, dir, base_one),
    }
}

/// Whether probing one size yields a strictly positive profit.
pub open spec fn positive_profit_at(
    shape: LegOrder,
    p: int,
    l: int,
    fee_bps: int,
    levels: Seq<DepthLevel>,
    amount: int,
    dir: SwapDirection,
    base_one: int,
) -> bool {
    match profit_eval_spec(shape, p, l, fee_bps, levels, amount, dir, base_one) {
        Ok(v) => v > 0,
        Err(_) => false,
    }
}

/// The defensive cap on the search's step count.
pub open spec fn search_cap() -> int {
    200
}

/// The search, one halving step at a time: probe the midpoint of what
/// is left, narrow to the lower half on an improvement and remember the
/// pair, to the upper half otherwise, for at most `search_cap` steps.
pub open spec fn search_from(
    shape: LegOrder,
    p: int,
    l: int,
    fee_bps: int,
    levels: Seq<DepthLevel>,
    dir: SwapDirection,
    base_one: int,
    left: int,
    right: int,
    best_profit: int,
    best_size: int,
    steps: int,
) -> (int, int)
    decreases search_cap() - steps,
{
    if left > right || steps >= search_cap() {
        (best_profit, best_size)
    } else {
        let mid = left + (right - left) / 2;
        match profit_eval_spec(shape, p, l, fee_bps, levels, mid, dir, base_one) {
            Ok(v) => {
                if v > best_profit {
                    search_from(
                        shape,
                        p,
                        l,
                        fee_bps,
                        levels,
                        dir,
                        base_one,
                        left,
                        mid - 1,
                        v,
                        mid,
                        steps + 1,
                    )
                } else {
                    search_from(
                        shape,
                        p,
                        l,
                        fee_bps,
                        levels,
                        dir,
                        base_one,
                        mid + 1,
                        right,
                        best_profit,
                        best_size,
                        steps + 1,
                    )
                }
            },
            Err(_) => search_from(
                shape,
                p,
                l,
                fee_bps,
                levels,
                dir,
                base_one,
                mid + 1,
                right,
                best_profit,
                best_size,
                steps + 1,
            ),
        }
    }
}

/// What the search returns on `[1, upper]`: the best (profit, size)
/// pair among the sizes the halving sequence probes.
pub open spec fn search_result(
    shape: LegOrder,
    p: int,
    l: int,
    fee_bps: int,
    levels: Seq<DepthLevel>,
    dir: SwapDirection,
    base_one: int,
    upper: int,
) -> (int, int) {
    search_from(shape, p, l, fee_bps, levels, dir, base_one, 1, upper, 0, 0, 0)
}

/// Binary search over `[1, upper]` for the size maximizing the
/// evaluator's profit, assuming the profit is unimodal in size; the
/// answer is exactly `search_result`: the best pair among the probed
/// sizes, not a proven global maximum. A size whose evaluation fails is
/// treated as unprofitable. When no probed size is profitable — in
/// particular when no size in the whole range is — the result is zero
/// profit at zero size.
pub fn binary_search(
    pool: &PoolState,
    levels: &Vec<DepthLevel>,
    upper: u128,
    direction: SwapDirection,
    shape: LegOrder,
    cfg: &Config,
) -> (r: Profit)
    requires
        pool_wf(*pool),
        config_wf(*cfg),
        walkable(levels@),
        upper as int <= qp_cap(),
    ensures
        (r.profit as int, r.amount as int) == search_result(
            shape,
            sqrt_p(*pool),
            liq(*pool),
            cfg.fee_bps as int,
            levels@,
            direction,
            cfg.base_one as int,
            upper as int,
        ),
        r.profit >= 0,
        r.direction == direction,
        r.profit > 0 ==> 1 <= r.amount <= upper && profit_eval_spec(
            shape,
            sqrt_p(*pool),
            liq(*pool),
            cfg.fee_bps as int,
            levels@,
            r.amount as int,
            direction,
            cfg.base_one as int,
        ) == Ok::<int, ArbError>(r.profit as int),
        r.profit == 0 ==> r.amount == 0,
        (forall|s: int|
            1 <= s <= upper ==> !positive_profit_at(
                shape,
                sqrt_p(*pool),
                liq(*pool),
                cfg.fee_bps as int,
                levels@,
                s,
                direction,
                cfg.base_one as int,
            )) ==> r.profit == 0 && r.amount == 0,
        shape == LegOrder::AmmFirst ==> r.name@ == "Uniswap"@,
        shape == LegOrder::BookFirst ==> r.name@ == "Binance"@,
{
    let ghost p: int = sqrt_p(*pool);
    let ghost l: int = liq(*pool);
    let ghost fee: int = cfg.fee_bps as int;
    let ghost b1: int = cfg.base_one as int;
    let ghost lv = levels@;
    let mut left: u128 = 1;
    let mut right: u128 = upper;
    let mut max_profit: i128 = 0;
    let mut best: u128 = 0;
    // the halving proves its own termination; the cap guards the step
    // count even against a domain the unimodality assumption misjudges
    let mut iters: u32 = 0;
    while left <= right && iters < 200
        invariant
            1 <= left,
            right <= upper,
            upper as int <= qp_cap(),
            max_profit >= 0,
            max_profit > 0 ==> 1 <= best <= upper && profit_eval_spec(
                shape,
                p,
                l,
                fee,
                lv,
                best as int,
                direction,
                b1,
            ) == Ok::<int, ArbError>(max_profit as int),
            max_profit == 0 ==> best == 0,
            pool_wf(*pool),
            config_wf(*cfg),
            walkable(lv),
            levels@ == lv,
            p == sqrt_p(*pool),
            l == liq(*pool),
            fee == cfg.fee_bps as int,
            b1 == cfg.base_one as int,
            iters <= search_cap(),
            search_from(
                shape,
                p,
                l,
                fee,
                lv,
                direction,
                b1,
                left as int,
                right as int,
                max_profit as int,
                best as int,
                iters as int,
            ) == search_result(shape, p, l, fee, lv, direction, b1, upper as int),
        decreases right + 1 - left,
    {
        let mid = left + (right - left) / 2;
        let ret = match shape {
            LegOrder::AmmFirst => profit_amm_first(pool, levels, mid, direction, cfg),
            LegOrder::BookFirst => profit_book_first(pool, levels, mid, direction, cfg),
        };
        match ret {
            Ok(v) => {
                if v > max_profit {
                    right = mid - 1;
                    max_profit = v;
                    best = mid;
                } else {
                    left = mid + 1;
                }
            },
            Err(_e) => {
                left = mid + 1;
            },
        }
        iters = iters + 1;
    }
    proof {
        if max_profit > 0 {
            assert(positive_profit_at(shape, p, l, fee, lv, best as int, direction, b1));
        }
    }
    let name = match shape {
        LegOrder::AmmFirst => String::from_str("Uniswap"),
        LegOrder::BookFirst => String::from_str("Binance"),
    };
    Profit { profit: max_profit, amount: best, direction, name }
}

} // verus!
