use vstd::prelude::*;

verus! {

/// The engine's error taxonomy. Every failing entry point reports exactly
/// one of these and leaves all state unchanged.
#[derive(Clone, Copy, Debug, PartialEq, Eq, Structural)]
pub enum Error {
    /// A share request is zero or exceeds what is outstanding or owned, or a
    /// liquidity provision would mint zero shares.
    InsufficientLiquidity,
    /// The operation would drive a reserve or a caller balance below zero,
    /// or drain one side of a pool completely.
    InsufficientReserves,
    /// Minting liquidity shares would overflow the share count.
    LiquidityOverflow,
    /// Growing a reserve would overflow it.
    ReserveOverflow,
    /// The input asset is invalid: equal to its counterpart, not part of the
    /// addressed pool, or the pool does not exist.
    InvalidAssetIn,
    /// The proposed liquidity token is invalid: it names one of the pool's
    /// own assets or is already the liquidity token of another pool.
    InvalidAssetOut,
    /// A computed amount falls below the caller-specified minimum.
    InsufficientAmountOut,
    /// An arithmetic step would leave the integer domain.
    ArithmeticOverflow,
    /// The pricing formula's denominator is zero: the pool is unfunded.
    DivisionByZero,
    /// A pool for the canonical pair already exists.
    LiquidityPoolAlreadyExists,
}

} // verus!
