//! A single-market limit-order matching core.
//!
//! Orders rest in price levels; an incoming order is matched against the
//! opposite side in price priority, and within one price level in arrival
//! order. Every matching step is specified and verified: sizes only
//! decrease, fills conserve quantity, and the walk respects price and time
//! priority.

pub mod orderbook;

pub mod engine;
