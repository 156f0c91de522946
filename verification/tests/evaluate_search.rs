use binance_uni::book::DepthLevel;
use binance_uni::errors::ArbError;
use binance_uni::evaluate::{buy_base, profit_amm_first, sell_base};
use binance_uni::optimize::{binary_search, LegOrder};
use binance_uni::pool::PoolState;
use binance_uni::types::{Config, SwapDirection};

const ONE_BASE: u128 = 1_000_000_000_000_000_000;
const ONE_QUOTE: u128 = 1_000_000;
const SQRT_P: u128 = 3_543_191_142_285_914_205_922_034;
const LIQ: u128 = 20_000_000_000_000_000_000;

fn cfg() -> Config {
    Config {
        fee_bps: 5,
        base_one: ONE_BASE,
        quote_one: ONE_QUOTE,
    }
}

fn asks() -> Vec<DepthLevel> {
    vec![
        DepthLevel { price: 1995 * ONE_QUOTE, quantity: 5 * ONE_BASE },
        DepthLevel { price: 2050 * ONE_QUOTE, quantity: 10 * ONE_BASE },
    ]
}

#[test]
fn buy_base_splits_last_level() {
    // one level of 50 base atoms priced 200 per 100 atoms: worth 100 quote
    let levels = vec![DepthLevel { price: 200, quantity: 50 }];
    assert_eq!(buy_base(&levels, 30, 100), Ok(15));
    assert_eq!(buy_base(&levels, 100, 100), Ok(50));
    assert_eq!(buy_base(&levels, 101, 100), Err(ArbError::InsufficientDepth));
}

#[test]
fn sell_base_splits_last_level() {
    let levels = vec![DepthLevel { price: 200, quantity: 50 }];
    assert_eq!(sell_base(&levels, 30, 100), Ok(60));
    assert_eq!(sell_base(&levels, 50, 100), Ok(100));
    assert_eq!(sell_base(&levels, 51, 100), Err(ArbError::InsufficientDepth));
}

#[test]
fn amm_first_profit_exact() {
    let pool = PoolState::new(SQRT_P, LIQ);
    let r = profit_amm_first(
        &pool,
        &asks(),
        2_499_999_832_344_860_385,
        SwapDirection::BaseToQuote,
        &cfg(),
    );
    assert_eq!(r, Ok(4_998_528_056_142_121));
}

#[test]
fn amm_first_loss_on_expensive_book() {
    let pool = PoolState::new(SQRT_P, LIQ);
    let expensive = vec![DepthLevel { price: 2050 * ONE_QUOTE, quantity: 10 * ONE_BASE }];
    let r = profit_amm_first(
        &pool,
        &expensive,
        ONE_BASE,
        SwapDirection::BaseToQuote,
        &cfg(),
    );
    assert_eq!(r, Ok(-24_880_229_268_292_683));
}

#[test]
fn search_finds_positive_profit() {
    let pool = PoolState::new(SQRT_P, LIQ);
    let levels = asks();
    let r = binary_search(
        &pool,
        &levels,
        5 * ONE_BASE,
        SwapDirection::BaseToQuote,
        LegOrder::AmmFirst,
        &cfg(),
    );
    assert!(r.profit > 0);
    assert!(r.amount >= 1 && r.amount <= 5 * ONE_BASE);
    assert_eq!(r.name, "Uniswap");
}

#[test]
fn search_reports_zero_when_nothing_profits() {
    // every ask sits above the pool price, so every size loses
    let pool = PoolState::new(SQRT_P, LIQ);
    let expensive = vec![DepthLevel { price: 2050 * ONE_QUOTE, quantity: 10 * ONE_BASE }];
    let r = binary_search(
        &pool,
        &expensive,
        5 * ONE_BASE,
        SwapDirection::BaseToQuote,
        LegOrder::AmmFirst,
        &cfg(),
    );
    assert_eq!(r.profit, 0);
    assert_eq!(r.amount, 0);
}

#[test]
fn search_book_first_is_named_binance() {
    let pool = PoolState::new(SQRT_P, LIQ);
    let levels = asks();
    let r = binary_search(
        &pool,
        &levels,
        1000 * ONE_QUOTE,
        SwapDirection::BaseToQuote,
        LegOrder::BookFirst,
        &cfg(),
    );
    assert_eq!(r.name, "Binance");
    assert!(r.profit >= 0);
}
