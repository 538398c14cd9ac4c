//! A verified order-book exchange core: a custody ledger, a trading-pair
//! registry, and a price-time-priority matching engine for limit and market
//! orders. All amounts are unsigned 64-bit integers; every arithmetic step is
//! proved free of overflow or reported as an `Overflow` error, and the ledger
//! invariant (locked funds exactly cover the open orders) is proved to hold
//! after every operation.

pub mod artifact;
pub mod exchange;
pub mod matching;
pub mod queries;
pub mod laws;
pub mod ledger;
pub mod types;
