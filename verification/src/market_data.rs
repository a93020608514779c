//! Public market-data events.

pub mod market_update;
