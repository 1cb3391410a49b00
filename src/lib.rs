//! An in-memory limit order book for a single asset: price-time priority
//! matching of GoodTillCancel and FillAndKill orders, with cancel, modify
//! and per-level snapshots.

pub mod error;
pub mod laws;
pub mod level;
pub mod order;
pub mod orderbook;
pub mod trade;
