use vstd::prelude::*;

verus! {

/// Notifications the engine records, one per successful state-changing
/// operation, in the order the operations committed. Asset pairs appear in
/// canonical order.
#[derive(Clone, Copy, Debug, PartialEq, Eq, Structural)]
pub enum Event {
    LiquidityPoolCreated { creator: u64, asset_a: u64, asset_b: u64 },
    LiquidityAdded {
        provider: u64,
        asset_a: u64,
        asset_b: u64,
        amount_a: u64,
        amount_b: u64,
        shares: u64,
    },
    LiquidityRemoved {
        provider: u64,
        asset_a: u64,
        asset_b: u64,
        amount_a: u64,
        amount_b: u64,
        shares: u64,
    },
    Swapped { trader: u64, asset_in: u64, asset_out: u64, amount_in: u64, amount_out: u64 },
}

} // verus!
