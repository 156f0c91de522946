use binance_uni::book::{BookSide, DepthBook, DepthLevel};
use binance_uni::errors::ArbError;

const ONE_BASE: u128 = 1_000_000_000_000_000_000;
const ONE_QUOTE: u128 = 1_000_000;

fn lvl(price_units: u128, qty_units: u128) -> DepthLevel {
    DepthLevel {
        price: price_units * ONE_QUOTE,
        quantity: qty_units * ONE_BASE,
    }
}

fn sample_book() -> DepthBook {
    DepthBook::new(
        vec![lvl(1994, 1)],
        vec![lvl(1995, 5), lvl(2050, 10)],
    )
    .unwrap()
}

#[test]
fn new_rejects_unsorted_asks() {
    let r = DepthBook::new(vec![], vec![lvl(2050, 1), lvl(1995, 1)]);
    assert!(matches!(r, Err(ArbError::InvalidSnapshot)));
}

#[test]
fn new_rejects_zero_price() {
    let r = DepthBook::new(vec![DepthLevel { price: 0, quantity: 1 }], vec![]);
    assert!(matches!(r, Err(ArbError::InvalidSnapshot)));
}

#[test]
fn new_rejects_unsorted_bids() {
    let r = DepthBook::new(vec![lvl(1990, 1), lvl(1994, 1)], vec![]);
    assert!(matches!(r, Err(ArbError::InvalidSnapshot)));
}

#[test]
fn accumulate_stops_at_limit() {
    let book = sample_book();
    let r = book.accumulate_until(BookSide::Asks, 1999 * ONE_QUOTE, false, ONE_BASE);
    assert_eq!(r, Ok((5 * ONE_BASE, 1)));
}

#[test]
fn accumulate_value_in_quote() {
    // the 1994 bid lies within the limit and is worth 1994 quote units;
    // the 900 bid crosses it and stops the walk
    let book = DepthBook::new(vec![lvl(1994, 1), lvl(900, 1)], vec![]).unwrap();
    let r = book.accumulate_until(BookSide::Bids, 1000 * ONE_QUOTE, true, ONE_BASE);
    assert_eq!(r, Ok((1994 * ONE_QUOTE, 1)));
}

#[test]
fn accumulate_insufficient_depth() {
    let book = sample_book();
    // every ask sits within a 3000 limit, so the walk exhausts the side
    let r = book.accumulate_until(BookSide::Asks, 3000 * ONE_QUOTE, false, ONE_BASE);
    assert_eq!(r, Err(ArbError::InsufficientDepth));
}

#[test]
fn accumulate_never_exceeds_side_quantity() {
    let book = sample_book();
    let total: u128 = 15 * ONE_BASE;
    for limit_units in [1000u128, 1995, 2000, 2049] {
        if let Ok((t, _)) =
            book.accumulate_until(BookSide::Asks, limit_units * ONE_QUOTE, false, ONE_BASE)
        {
            assert!(t <= total);
        }
    }
}

#[test]
fn accumulate_empty_side_is_insufficient() {
    let book = DepthBook::new(vec![], vec![lvl(1995, 5)]).unwrap();
    let r = book.accumulate_until(BookSide::Bids, 1000 * ONE_QUOTE, false, ONE_BASE);
    assert_eq!(r, Err(ArbError::InsufficientDepth));
}
