//! Portfolio rebalancing library.
//!
//! The pipeline has three stages, each a pure function over in-memory
//! values:
//! - [`extract`]: tolerant extraction of a cash balance and a list of
//!   holdings from a loosely structured, comma-delimited brokerage export;
//! - [`orders`]: computation of the signed rebalancing delta per target
//!   fund and generation of buy/sell orders for material deltas;
//! - [`render`]: rendering of the orders as a small CSV table.
//!
//! All currency amounts are exact fixed-point decimals ([`dec::Dec`]);
//! no binary floating point is involved anywhere.

pub mod dec;
pub mod extract;
pub mod orders;
pub mod paths;
pub mod render;
