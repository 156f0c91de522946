//! Plain data types of the detection core: configuration, the two-way
//! price record, the per-direction profit report, and the raw order-book
//! snapshot as the exchange delivers it.

use vstd::prelude::*;

verus! {

/// Actions the strategy could emit. Detection only signals, it never
/// trades, so doing nothing is the only action.
#[derive(Clone, Copy, PartialEq, Eq, Structural, Debug)]
pub enum Action {
    Noop,
}

/// Which asset enters the pool first. `BaseToQuote` sells base into the
/// pool (the square-root price falls); `QuoteToBase` sells quote into the
/// pool (it rises).
#[derive(Clone, Copy, PartialEq, Eq, Structural, Debug)]
pub enum SwapDirection {
    BaseToQuote,
    QuoteToBase,
}

/// Per-cycle configuration, injected at construction time.
///
/// `base_one` is the number of base-asset atoms in one whole base unit;
/// `quote_one` the same for the quote asset. Order-book prices and the
/// pool's spot price are both expressed as quote atoms per `base_one`
/// base atoms, so the two venues compare directly. `fee_bps` is the pool
/// fee in basis points, subtracted once from every reported price and
/// swap output.
#[derive(Clone, Copy, PartialEq, Eq, Structural, Debug)]
pub struct Config {
    pub fee_bps: u32,
    pub base_one: u128,
    pub quote_one: u128,
}

/// The bounds under which the price math is exact in 128-bit results.
pub open spec fn config_wf(cfg: Config) -> bool {
    &&& 1 <= cfg.base_one <= 1000000000000000000
    &&& 1 <= cfg.quote_one <= 1000000000000000000
    &&& cfg.fee_bps < 10000
}

/// One venue price, net of fees, expressed in both directions so no
/// caller needs to invert it: `quote_per_base` is quote atoms per whole
/// base unit, and `base_per_quote` is base atoms per whole quote unit —
/// the scaled reciprocal of the same fee-reduced price, never a second
/// independently fee-reduced number.
pub struct TokensPrice {
    pub quote_per_base: u128,
    pub base_per_quote: u128,
    pub name: String,
}

/// One candidate trade: the net profit a size yields, denominated in the
/// round trip's starting asset (base for `BaseToQuote`, quote for
/// `QuoteToBase`), and the venue whose leg was simulated first.
pub struct Profit {
    pub profit: i128,
    pub amount: u128,
    pub direction: SwapDirection,
    pub name: String,
}

/// How far apart two venues price the same asset: the absolute gap, and
/// the gap relative to the richer venue in hundredths of a percent.
pub struct PriceDifference {
    pub difference_usd: u128,
    pub difference_in_percent: u128,
    pub name: String,
}

/// A depth-of-book snapshot as the exchange's wire format delivers it:
/// each level a `(price, quantity)` pair of decimal strings.
pub struct BinanceOrdersResponse {
    pub asks: Vec<(String, String)>,
    pub bids: Vec<(String, String)>,
}

} // verus!
