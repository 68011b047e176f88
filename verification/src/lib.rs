//! A fungible asset ledger and a weighted multi-asset liquidity pool engine.
//!
//! Every amount is a `u64`; products are taken in `u128` and anything that does
//! not fit back into 64 bits is reported as an arithmetic overflow.
//!
//! - `error`: why an operation is refused.
//! - `fixed`: fixed-point multiplication, division, square root and power,
//!   each rounding up.
//! - `swap`: the pricing formulas of a pool.
//! - `product`: the proof that no swap lowers the weighted product of the
//!   reserves.
//! - `book`, `ledger`: balances per account and asset, with conservation.
//! - `address`: pool identifiers.
//! - `pool`, `registry`: pools, and the operations that create, fund, redeem
//!   and trade against them.

pub mod error;
pub mod fixed;
pub mod swap;
pub mod product;
pub mod book;
pub mod ledger;
pub mod address;
pub mod pool;
pub mod registry;
