//! A verified limit order book fed by an exchange's asynchronous market-data
//! feed.
//!
//! The library models the feed's values as plain data: prices and quantities
//! are fixed-point integers (the number of ticks), sequence numbers are
//! `u64`. The wire format, the transports and the asynchronous runtime live
//! outside the library; they hand it snapshots and deltas and drive the
//! synchronizer's state machine through its event handlers.

pub mod connection;
pub mod ledger;
pub mod order_book;
pub mod sync;
