//! Accounting and pricing engine of a constant-product automated market
//! maker: a registry of trading-pair pools, a balance ledger, and the
//! arithmetic for provisioning and withdrawing liquidity and for swapping
//! one asset for another, with every operation's outcome pinned down by a
//! verified contract.

pub mod engine;
pub mod errors;
pub mod events;
pub mod laws;
pub mod ledger;
pub mod math;
pub mod pool;
