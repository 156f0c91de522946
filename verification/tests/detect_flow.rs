use binance_uni::book::{DepthBook, DepthLevel};
use binance_uni::detect::{detect, price_difference};
use binance_uni::errors::ArbError;
use binance_uni::parse::{book_from_response, parse_decimal};
use binance_uni::pool::{spot_price, PoolState};
use binance_uni::types::{Action, BinanceOrdersResponse, Config, SwapDirection, TokensPrice};

const ONE_BASE: u128 = 1_000_000_000_000_000_000;
const ONE_QUOTE: u128 = 1_000_000;
const SQRT_P: u128 = 3_543_191_142_285_914_205_922_034;
const LIQ: u128 = 20_000_000_000_000_000_000;

fn cfg() -> Config {
    Config {
        fee_bps: 5,
        base_one: ONE_BASE,
        quote_one: ONE_QUOTE,
    }
}

fn lvl(price_units: u128, qty_units: u128) -> DepthLevel {
    DepthLevel {
        price: price_units * ONE_QUOTE,
        quantity: qty_units * ONE_BASE,
    }
}

fn sample_book() -> DepthBook {
    DepthBook::new(vec![lvl(1994, 1)], vec![lvl(1995, 5), lvl(2050, 10)]).unwrap()
}

#[test]
fn spot_price_both_directions_exact() {
    let pool = PoolState::new(SQRT_P, LIQ);
    let t = spot_price(&pool, &cfg()).unwrap();
    assert_eq!(t.quote_per_base, 1_999_000_000);
    assert_eq!(t.base_per_quote, 500_250_125_062_531);
    assert_eq!(t.name, "Uniswap");
}

#[test]
fn detect_reports_pool_rich_direction_only() {
    // pool at ~2000 quote per base against a best ask of 1995: selling
    // base to the pool and buying it back on the asks is profitable,
    // bounded by the 5 units of depth; the opposite direction is shut
    let pool = PoolState::new(SQRT_P, LIQ);
    let book = sample_book();
    let r = detect(&pool, &book, &cfg());
    assert_eq!(r.len(), 1);
    assert_eq!(r[0].direction, SwapDirection::BaseToQuote);
    assert!(r[0].profit > 0);
    assert!(r[0].amount <= 5 * ONE_BASE);
    assert_eq!(r[0].profit, 4_998_528_056_142_121);
    assert_eq!(r[0].amount, 2_499_999_832_344_860_385);
    assert_eq!(r[0].name, "Uniswap");
}

#[test]
fn detect_skips_zero_liquidity() {
    let pool = PoolState::new(SQRT_P, 0);
    let r = detect(&pool, &sample_book(), &cfg());
    assert_eq!(r.len(), 0);
}

#[test]
fn detect_skips_empty_bid_side() {
    let pool = PoolState::new(SQRT_P, LIQ);
    let book = DepthBook::new(vec![], vec![lvl(1995, 5), lvl(2050, 10)]).unwrap();
    let r = detect(&pool, &book, &cfg());
    assert_eq!(r.len(), 0);
}

#[test]
fn detect_skips_when_depth_runs_out() {
    // the only ask sits below the pool price and nothing lies beyond it,
    // so the domain walk exhausts the side and the direction is skipped
    let pool = PoolState::new(SQRT_P, LIQ);
    let book = DepthBook::new(vec![lvl(1994, 1)], vec![lvl(1995, 5)]).unwrap();
    let r = detect(&pool, &book, &cfg());
    assert_eq!(r.len(), 0);
}

#[test]
fn parse_decimal_exact_values() {
    assert_eq!(parse_decimal("1995.23", ONE_QUOTE), Some(1_995_230_000));
    assert_eq!(parse_decimal("0.5", ONE_QUOTE), Some(500_000));
    assert_eq!(parse_decimal("5", ONE_BASE), Some(5 * ONE_BASE));
    assert_eq!(parse_decimal("2000.", ONE_QUOTE), Some(2_000_000_000));
}

#[test]
fn parse_decimal_rejects_garbage() {
    assert_eq!(parse_decimal("", ONE_QUOTE), None);
    assert_eq!(parse_decimal(".", ONE_QUOTE), None);
    assert_eq!(parse_decimal("1.2.3", ONE_QUOTE), None);
    assert_eq!(parse_decimal("12a", ONE_QUOTE), None);
    assert_eq!(parse_decimal("-5", ONE_QUOTE), None);
}

#[test]
fn book_from_response_round_trip() {
    let resp = BinanceOrdersResponse {
        asks: vec![
            ("1995".to_string(), "5".to_string()),
            ("2050".to_string(), "10".to_string()),
        ],
        bids: vec![("1994".to_string(), "1".to_string())],
    };
    let book = book_from_response(&resp, &cfg()).unwrap();
    assert_eq!(book.asks.len(), 2);
    assert_eq!(book.asks[0].price, 1995 * ONE_QUOTE);
    assert_eq!(book.asks[0].quantity, 5 * ONE_BASE);
    let pool = PoolState::new(SQRT_P, LIQ);
    let r = detect(&pool, &book, &cfg());
    assert_eq!(r.len(), 1);
    assert_eq!(r[0].profit, 4_998_528_056_142_121);
}

#[test]
fn book_from_response_rejects_bad_number() {
    let resp = BinanceOrdersResponse {
        asks: vec![("oops".to_string(), "5".to_string())],
        bids: vec![],
    };
    let r = book_from_response(&resp, &cfg());
    assert!(matches!(r, Err(ArbError::InvalidSnapshot)));
}

#[test]
fn price_difference_exact() {
    let a = TokensPrice {
        quote_per_base: 2000,
        base_per_quote: 400,
        name: "Uniswap".to_string(),
    };
    let b = TokensPrice {
        quote_per_base: 1995,
        base_per_quote: 500,
        name: "Binance".to_string(),
    };
    let (quote_side, base_side) = price_difference(&a, &b);
    assert_eq!(quote_side.difference_usd, 5);
    assert_eq!(quote_side.difference_in_percent, 25);
    assert_eq!(quote_side.name, "Uniswap");
    assert_eq!(base_side.difference_usd, 100);
    assert_eq!(base_side.difference_in_percent, 2000);
    assert_eq!(base_side.name, "Binance");
}

#[test]
fn action_is_inert() {
    let a = Action::Noop;
    assert_eq!(a, Action::Noop);
}
