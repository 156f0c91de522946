//! Cross-venue arbitrage sizing between a constant-liquidity pool and an
//! order-book exchange: exact 256-bit price math, a depth-of-book walk,
//! profit simulation of the two-leg round trip, and a size search.

pub mod book;
pub mod detect;
pub mod errors;
pub mod evaluate;
pub mod fixed;
pub mod optimize;
pub mod parse;
pub mod pool;
pub mod types;
pub mod u256;
