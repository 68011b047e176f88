use vstd::prelude::*;

verus! {

/// Why an operation was rejected. A rejected operation changes no state.
#[derive(Clone, Copy, PartialEq, Eq, Structural, Debug)]
pub enum Error {
    /// More tokens were bound than a pool may hold.
    MaxTokens,
    /// The per-token arrays differ in length, or fewer than two tokens were given.
    InvalidTokenLength,
    /// A token was bound twice.
    DuplicateToken,
    /// An amount or a weight was zero.
    InvalidAmount,
    /// A pool over the same token set already exists.
    PoolExists,
    /// No pool has the given identifier, or the token is not bound to it.
    PoolNotFound,
    /// The paying account holds less than the amount.
    InsufficientBalance,
    /// The account holds fewer pool shares than it wants to redeem.
    InsufficientShares,
    /// The pool cannot pay the amount out and stay funded.
    InsufficientLiquidity,
    /// The account holds nothing of the asset.
    ZeroBalance,
    /// The computed amount is worse than the caller's bound.
    SlippageExceeded,
    /// The spot price after the trade is above the caller's limit.
    PriceLimitExceeded,
    /// A quantity does not fit into 64 bits.
    ArithmeticOverflow,
    /// A divisor was zero.
    DivisionByZero,
}

} // verus!
