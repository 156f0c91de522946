//! The arbitrage detector: one synchronous cycle over an immutable pair
//! of snapshots. Compare the pool's spot price against the book's best
//! bid and best ask, bound each profitable direction by the book's
//! depth, search for the best size, and report at most one record per
//! direction. Every failure is local to its direction; none aborts the
//! cycle.

use vstd::prelude::*;
use vstd::string::{StrSliceExecFns, StringExecFns};

use crate::book::{
    accum_spec, book_wf, lemma_accumulate_bounded, lemma_accumulate_bounded_value,
    lemma_sum_q_le_qp, qp_cap, BookSide, DepthBook,
};
use crate::errors::ArbError;
use crate::evaluate::walkable;
use crate::optimize::{binary_search, positive_profit_at, profit_eval_spec, search_result, LegOrder};
use crate::pool::{
    liq, pool_wf, spot_bpq, spot_price, spot_qpb, sqrt_p, PoolState,
};
use crate::types::{config_wf, Config, PriceDifference, Profit, SwapDirection, TokensPrice};
use crate::u256::{
    lemma_pow_facts, p128, p160, p256, p96, u256_from_u128, u256_is_zero, u256_lt, u256_shl96,
    u256_to_u128, u256_val,
};
use vstd::arithmetic::div_mod::lemma_small_mod;

verus! {

/// The spot price the cycle gates on: quote atoms per whole base unit,
/// net of the fee.
pub open spec fn pool_spot(pool: PoolState, cfg: Config) -> int {
    spot_qpb(sqrt_p(pool), cfg.base_one as int, cfg.fee_bps as int)
}

/// Whether the snapshot can be priced at all: both pool words usable
/// and both spot directions representable.
pub open spec fn snapshot_ok(pool: PoolState, cfg: Config) -> bool {
    &&& pool_wf(pool)
    &&& spot_qpb(sqrt_p(pool), cfg.base_one as int, cfg.fee_bps as int) < p128()
    &&& spot_bpq(sqrt_p(pool), cfg.quote_one as int, cfg.fee_bps as int) < p128()
}

/// The sell-pool direction opens when the pool pays more per base unit
/// than the best bid.
pub open spec fn gate_base_to_quote(pool: PoolState, book: DepthBook, cfg: Config) -> bool {
    &&& snapshot_ok(pool, cfg)
    &&& book.bids@.len() > 0
    &&& pool_spot(pool, cfg) > book.bids@[0].price
}

/// The buy-pool direction opens when the pool charges less per base
/// unit than the best ask.
pub open spec fn gate_quote_to_base(pool: PoolState, book: DepthBook, cfg: Config) -> bool {
    &&& snapshot_ok(pool, cfg)
    &&& book.asks@.len() > 0
    &&& pool_spot(pool, cfg) < book.asks@[0].price
}

/// The search domain of the sell-pool direction: ask quantity within
/// the pool's price.
pub open spec fn bound_base_to_quote(pool: PoolState, book: DepthBook, cfg: Config) -> Option<
    (int, int),
> {
    accum_spec(book.asks@, pool_spot(pool, cfg), false, cfg.base_one as int, BookSide::Asks)
}

/// The search domain of the buy-pool direction: bid value, in quote,
/// within the pool's price.
pub open spec fn bound_quote_to_base(pool: PoolState, book: DepthBook, cfg: Config) -> Option<
    (int, int),
> {
    accum_spec(book.bids@, pool_spot(pool, cfg), true, cfg.base_one as int, BookSide::Bids)
}

/// What the modelled size search returns for the sell-pool direction:
/// the AMM-first evaluator over the ask levels, sizes up to `upper`.
pub open spec fn search_base_to_quote(
    pool: PoolState,
    book: DepthBook,
    cfg: Config,
    upper: int,
) -> (int, int) {
    search_result(
        LegOrder::AmmFirst,
        sqrt_p(pool),
        liq(pool),
        cfg.fee_bps as int,
        book.asks@,
        SwapDirection::BaseToQuote,
        cfg.base_one as int,
        upper,
    )
}

/// The same for the buy-pool direction: the AMM-first evaluator over
/// the bid levels.
pub open spec fn search_quote_to_base(
    pool: PoolState,
    book: DepthBook,
    cfg: Config,
    upper: int,
) -> (int, int) {
    search_result(
        LegOrder::AmmFirst,
        sqrt_p(pool),
        liq(pool),
        cfg.fee_bps as int,
        book.bids@,
        SwapDirection::QuoteToBase,
        cfg.base_one as int,
        upper,
    )
}

/// One detection cycle: zero, one or two profit records, at most one
/// per direction, each carrying the exact profit its size evaluates to.
/// A direction is skipped — never fatally — when its gate is shut, its
/// depth walk fails, or no size in its domain is profitable.
pub fn detect(pool: &PoolState, book: &DepthBook, cfg: &Config) -> (r: Vec<Profit>)
    requires
        book_wf(*book),
        config_wf(*cfg),
    ensures
        r@.len() <= 2,
        forall|i: int| 0 <= i < r@.len() ==> (#[trigger] r@[i]).profit > 0,
        forall|i: int, j: int|
            0 <= i < j < r@.len() ==> r@[i].direction != r@[j].direction,
        forall|i: int|
            0 <= i < r@.len() && (#[trigger] r@[i]).direction == SwapDirection::BaseToQuote
                ==> gate_base_to_quote(*pool, *book, *cfg) && (bound_base_to_quote(
                *pool,
                *book,
                *cfg,
            ) matches Some(tk) && 1 <= r@[i].amount <= tk.0 && (r@[i].profit as int, r@[i].amount
                as int) == search_base_to_quote(*pool, *book, *cfg, tk.0)) && profit_eval_spec(
                LegOrder::AmmFirst,
                sqrt_p(*pool),
                liq(*pool),
                cfg.fee_bps as int,
                book.asks@,
                r@[i].amount as int,
                SwapDirection::BaseToQuote,
                cfg.base_one as int,
            ) == Ok::<int, ArbError>(r@[i].profit as int),
        forall|i: int|
            0 <= i < r@.len() && (#[trigger] r@[i]).direction == SwapDirection::QuoteToBase
                ==> gate_quote_to_base(*pool, *book, *cfg) && (bound_quote_to_base(
                *pool,
                *book,
                *cfg,
            ) matches Some(tk) && 1 <= r@[i].amount <= tk.0 && (r@[i].profit as int, r@[i].amount
                as int) == search_quote_to_base(*pool, *book, *cfg, tk.0)) && profit_eval_spec(
                LegOrder::AmmFirst,
                sqrt_p(*pool),
                liq(*pool),
                cfg.fee_bps as int,
                book.bids@,
                r@[i].amount as int,
                SwapDirection::QuoteToBase,
                cfg.base_one as int,
            ) == Ok::<int, ArbError>(r@[i].profit as int),
        (bound_base_to_quote(*pool, *book, *cfg) matches Some(tk) && (forall|s: int|
            1 <= s <= tk.0 ==> !positive_profit_at(
                LegOrder::AmmFirst,
                sqrt_p(*pool),
                liq(*pool),
                cfg.fee_bps as int,
                book.asks@,
                s,
                SwapDirection::BaseToQuote,
                cfg.base_one as int,
            ))) ==> (forall|i: int|
            0 <= i < r@.len() ==> (#[trigger] r@[i]).direction != SwapDirection::BaseToQuote),
        (bound_quote_to_base(*pool, *book, *cfg) matches Some(tk) && (forall|s: int|
            1 <= s <= tk.0 ==> !positive_profit_at(
                LegOrder::AmmFirst,
                sqrt_p(*pool),
                liq(*pool),
                cfg.fee_bps as int,
                book.bids@,
                s,
                SwapDirection::QuoteToBase,
                cfg.base_one as int,
            ))) ==> (forall|i: int|
            0 <= i < r@.len() ==> (#[trigger] r@[i]).direction != SwapDirection::QuoteToBase),
        (gate_base_to_quote(*pool, *book, *cfg) && (bound_base_to_quote(*pool, *book, *cfg)
            matches Some(tk) && search_base_to_quote(*pool, *book, *cfg, tk.0).0 > 0)) ==> exists|
            i: int,
        |
            0 <= i < r@.len() && (#[trigger] r@[i]).direction == SwapDirection::BaseToQuote,
        (gate_quote_to_base(*pool, *book, *cfg) && (bound_quote_to_base(*pool, *book, *cfg)
            matches Some(tk) && search_quote_to_base(*pool, *book, *cfg, tk.0).0 > 0)) ==> exists|
            i: int,
        |
            0 <= i < r@.len() && (#[trigger] r@[i]).direction == SwapDirection::QuoteToBase,
{
    let mut out: Vec<Profit> = Vec::new();
    let ghost mut a_record: int = -1;
    let ghost mut b_record: int = -1;
    proof {
        lemma_pow_facts();
    }
    let threshold = u256_shl96(u256_from_u128(0x10000000000000000));
    proof {
        lemma_small_mod((0x10000000000000000 * p96()) as nat, p256() as nat);
    }
    if u256_is_zero(pool.sqrt_price) {
        return out;
    }
    if !u256_lt(pool.sqrt_price, threshold) {
        return out;
    }
    let liq_small = match u256_to_u128(pool.liquidity) {
        None => {
            return out;
        },
        Some(v) => v,
    };
    if liq_small == 0 {
        return out;
    }
    let spot = match spot_price(pool, cfg) {
        Err(_) => {
            return out;
        },
        Ok(t) => t,
    };
    if book.bids.len() > 0 {
        let best_bid_price = book.bids[0].price;
        if spot.quote_per_base > best_bid_price {
            match book.accumulate_until(BookSide::Asks, spot.quote_per_base, false, cfg.base_one) {
                Err(_) => {},
                Ok(tk) => {
                    proof {
                        lemma_accumulate_bounded(
                            book.asks@,
                            pool_spot(*pool, *cfg),
                            cfg.base_one as int,
                            BookSide::Asks,
                        );
                        lemma_sum_q_le_qp(book.asks@);
                        assert(walkable(book.asks@));
                    }
                    let res = binary_search(
                        pool,
                        &book.asks,
                        tk.0,
                        SwapDirection::BaseToQuote,
                        LegOrder::AmmFirst,
                        cfg,
                    );
                    if res.profit > 0 {
                        out.push(res);
                        proof {
                            a_record = out@.len() - 1;
                            assert(out@[a_record].direction == SwapDirection::BaseToQuote);
                        }
                    }
                },
            }
        }
    }
    if book.asks.len() > 0 {
        let best_ask_price = book.asks[0].price;
        if spot.quote_per_base < best_ask_price {
            match book.accumulate_until(BookSide::Bids, spot.quote_per_base, true, cfg.base_one) {
                Err(_) => {},
                Ok(tk) => {
                    proof {
                        lemma_accumulate_bounded_value(
                            book.bids@,
                            pool_spot(*pool, *cfg),
                            cfg.base_one as int,
                            BookSide::Bids,
                        );
                        assert(walkable(book.bids@));
                    }
                    let res = binary_search(
                        pool,
                        &book.bids,
                        tk.0,
                        SwapDirection::QuoteToBase,
                        LegOrder::AmmFirst,
                        cfg,
                    );
                    if res.profit > 0 {
                        out.push(res);
                        proof {
                            b_record = out@.len() - 1;
                            assert(out@[b_record].direction == SwapDirection::QuoteToBase);
                        }
                    }
                },
            }
        }
    }
    proof {
        if a_record >= 0 {
            assert(0 <= a_record < out@.len());
            assert(out@[a_record].direction == SwapDirection::BaseToQuote);
        }
        if b_record >= 0 {
            assert(0 <= b_record < out@.len());
            assert(out@[b_record].direction == SwapDirection::QuoteToBase);
        }
    }
    out
}

/// The relative gap between two prices, in hundredths of a percent of
/// the larger one.
pub open spec fn gap_in_percent(diff: int, larger: int) -> int {
    if larger == 0 {
        0
    } else {
        diff * 10000 / larger
    }
}

/// How far apart two venues price each asset: one record for the
/// quote-per-base direction and one for the base-per-quote direction,
/// each tagged with the richer venue's name.
pub fn price_difference(a: &TokensPrice, b: &TokensPrice) -> (r: (
    PriceDifference,
    PriceDifference,
))
    ensures
        ({
            let qd = if a.quote_per_base > b.quote_per_base {
                a.quote_per_base - b.quote_per_base
            } else {
                b.quote_per_base - a.quote_per_base
            };
            let ql = if a.quote_per_base > b.quote_per_base {
                a.quote_per_base as int
            } else {
                b.quote_per_base as int
            };
            &&& r.0.difference_usd == qd
            &&& r.0.difference_in_percent == gap_in_percent(qd as int, ql)
            &&& r.0.name@ == (if a.quote_per_base > b.quote_per_base {
                a.name@
            } else {
                b.name@
            })
        }),
        ({
            let bd = if a.base_per_quote > b.base_per_quote {
                a.base_per_quote - b.base_per_quote
            } else {
                b.base_per_quote - a.base_per_quote
            };
            let bl = if a.base_per_quote > b.base_per_quote {
                a.base_per_quote as int
            } else {
                b.base_per_quote as int
            };
            &&& r.1.difference_usd == bd
            &&& r.1.difference_in_percent == gap_in_percent(bd as int, bl)
            &&& r.1.name@ == (if a.base_per_quote > b.base_per_quote {
                a.name@
            } else {
                b.name@
            })
        }),
{
    let quote_side = if a.quote_per_base > b.quote_per_base {
        one_difference(a.quote_per_base - b.quote_per_base, a.quote_per_base, a.name.as_str())
    } else {
        one_difference(b.quote_per_base - a.quote_per_base, b.quote_per_base, b.name.as_str())
    };
    let base_side = if a.base_per_quote > b.base_per_quote {
        one_difference(a.base_per_quote - b.base_per_quote, a.base_per_quote, a.name.as_str())
    } else {
        one_difference(b.base_per_quote - a.base_per_quote, b.base_per_quote, b.name.as_str())
    };
    (quote_side, base_side)
}

/// One direction's gap record, the relative part computed double-width
/// so no operand range is ever exceeded.
fn one_difference(diff: u128, larger: u128, name: &str) -> (r: PriceDifference)
    requires
        diff <= larger,
    ensures
        r.difference_usd == diff,
        r.difference_in_percent == gap_in_percent(diff as int, larger as int),
        r.name@ == name@,
{
    let percent: u128 = if larger == 0 {
        0
    } else {
        let wide = crate::u256::u256_full_mul(
            crate::u256::u256_from_u128(diff),
            crate::u256::u256_from_u128(10000),
        );
        let (q, _rm) = crate::u256::u512_div_mod(
            wide,
            crate::u256::u512_from_u256(crate::u256::u256_from_u128(larger)),
        );
        proof {
            crate::u256::lemma_pow_facts();
            assert(diff * 10000 <= larger * 10000) by (nonlinear_arith)
                requires
                    diff <= larger,
            ;
            vstd::arithmetic::div_mod::lemma_div_is_ordered(
                diff * 10000,
                larger * 10000,
                larger as int,
            );
            vstd::arithmetic::div_mod::lemma_div_multiples_vanish(10000, larger as int);
            assert(larger * 10000 == (larger as int) * 10000) by (nonlinear_arith);
            vstd::arithmetic::div_mod::lemma_div_is_ordered(0, diff * 10000, larger as int);
        }
        match crate::u256::u512_to_u256(q) {
            Some(v) => match crate::u256::u256_to_u128(v) {
                Some(w) => w,
                None => {
                    proof {
                        assert(false);
                    }
                    0
                },
            },
            None => {
                proof {
                    assert(false);
                }
                0
            },
        }
    };
    PriceDifference {
        difference_usd: diff,
        difference_in_percent: percent,
        name: String::from_str(name),
    }
}

} // verus!
