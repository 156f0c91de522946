use binance_uni::errors::ArbError;
use binance_uni::pool::{amount_out, price_after_swap, spot_price, PoolState};
use binance_uni::types::{Config, SwapDirection};
use primitive_types::U256;

const Q96: u128 = 1u128 << 96;
const LIQ: u128 = 100_000_000_000_000_000_000;
const ONE_BASE: u128 = 1_000_000_000_000_000_000;

fn pool() -> PoolState {
    PoolState::new(Q96, LIQ)
}

#[test]
fn price_after_swap_base_to_quote_exact() {
    let next = price_after_swap(
        &pool(),
        U256::from(ONE_BASE),
        SwapDirection::BaseToQuote,
    );
    assert_eq!(
        next,
        U256::from_dec_str("78443725261647859003508861719").unwrap()
    );
}

#[test]
fn price_after_swap_quote_to_base_exact() {
    let next = price_after_swap(
        &pool(),
        U256::from(ONE_BASE),
        SwapDirection::QuoteToBase,
    );
    assert_eq!(
        next,
        U256::from_dec_str("80020444139406980969479389839").unwrap()
    );
}

#[test]
fn amount_out_base_to_quote_exact() {
    let next = price_after_swap(
        &pool(),
        U256::from(ONE_BASE),
        SwapDirection::BaseToQuote,
    );
    let out = amount_out(
        U256::from(Q96),
        next,
        U256::from(LIQ),
        SwapDirection::BaseToQuote,
        0,
    );
    assert_eq!(out, Ok(U256::from(990_099_009_900_990_099u128)));
    let with_fee = amount_out(
        U256::from(Q96),
        next,
        U256::from(LIQ),
        SwapDirection::BaseToQuote,
        30,
    );
    assert_eq!(with_fee, Ok(U256::from(987_128_712_871_287_129u128)));
}

#[test]
fn price_moves_monotonically_with_size() {
    let small_down = price_after_swap(&pool(), U256::from(ONE_BASE), SwapDirection::BaseToQuote);
    let large_down = price_after_swap(
        &pool(),
        U256::from(2 * ONE_BASE),
        SwapDirection::BaseToQuote,
    );
    assert!(large_down < small_down);
    let small_up = price_after_swap(&pool(), U256::from(ONE_BASE), SwapDirection::QuoteToBase);
    let large_up = price_after_swap(
        &pool(),
        U256::from(2 * ONE_BASE),
        SwapDirection::QuoteToBase,
    );
    assert!(large_up > small_up);
}

#[test]
fn from_words_accepts_the_160_bit_field() {
    let wide = U256::from(1u64) << 159;
    assert!(PoolState::from_words(wide, LIQ).is_ok());
    let too_wide = U256::from(1u64) << 160;
    assert!(matches!(
        PoolState::from_words(too_wide, LIQ),
        Err(ArbError::InvalidSnapshot)
    ));
    assert!(matches!(
        PoolState::from_words(U256::zero(), LIQ),
        Err(ArbError::InvalidSnapshot)
    ));
    assert!(matches!(
        PoolState::from_words(wide, 0),
        Err(ArbError::InvalidSnapshot)
    ));
}

#[test]
fn spot_price_rejects_prices_beyond_128_bits() {
    // ratio 2^88 with an 18-decimal base: the quote-per-base number
    // cannot be held in 128 bits, so the snapshot is rejected whole
    let pool = PoolState::from_words(U256::from(1u64) << 140, LIQ).unwrap();
    let cfg = Config {
        fee_bps: 5,
        base_one: ONE_BASE,
        quote_one: 1_000_000,
    };
    assert!(matches!(
        spot_price(&pool, &cfg),
        Err(ArbError::InvalidSnapshot)
    ));
}

#[test]
fn spot_price_directions_are_reciprocal() {
    // one fee-reduced price, read both ways: raw price 4, half fee
    // leaves 2 quote atoms per base unit, and exactly 5*10^17 base
    // atoms per quote unit — every division lands exactly, so the
    // product recovers base_one * quote_one with no rounding at all
    let pool = PoolState::from_words(U256::from(1u64) << 97, LIQ).unwrap();
    let cfg = Config {
        fee_bps: 5000,
        base_one: 1,
        quote_one: ONE_BASE,
    };
    let t = spot_price(&pool, &cfg).unwrap();
    assert_eq!(t.quote_per_base, 2);
    assert_eq!(t.base_per_quote, 500_000_000_000_000_000);
    assert_eq!(
        t.quote_per_base * t.base_per_quote,
        cfg.base_one * cfg.quote_one
    );
}

#[test]
fn fee_free_round_trip_never_gains() {
    let p = pool();
    let x = U256::from(ONE_BASE);
    let p1 = price_after_swap(&p, x, SwapDirection::BaseToQuote);
    let y = amount_out(
        U256::from(Q96),
        p1,
        U256::from(LIQ),
        SwapDirection::BaseToQuote,
        0,
    )
    .unwrap();
    let mid = PoolState::new(p1.as_u128(), LIQ);
    let p2 = price_after_swap(&mid, y, SwapDirection::QuoteToBase);
    let z = amount_out(p1, p2, U256::from(LIQ), SwapDirection::QuoteToBase, 0).unwrap();
    assert!(z <= x);
}
