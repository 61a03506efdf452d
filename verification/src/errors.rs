use vstd::prelude::*;

verus! {

/// Lifecycle state of a market as observed at a given time.
///
/// `Open` and `Ended` are two views of the same stored phase: a market
/// that has not been resolved, cancelled or distributed is `Open` before
/// its end time and `Ended` from the end time on.  `Resolved` becomes
/// `PayoutReady` once the dispute window after the resolution time has
/// elapsed.  `Distributed` and `Cancelled` are terminal.
#[derive(Clone, Copy, PartialEq, Eq, Debug)]
pub enum MarketState {
    Open,
    Ended,
    Resolved,
    PayoutReady,
    Distributed,
    Cancelled,
}

/// A typed failure of the settlement engine.  Every operation surfaces
/// its failures through this type; none are swallowed.
#[derive(Clone, Copy, PartialEq, Eq, Debug)]
pub enum Error {
    /// No market exists under the given identifier.
    MarketNotFound,
    /// The operation is illegal in the market's current lifecycle state;
    /// carries the expected state and the actual state, in that order.
    InvalidMarketState(MarketState, MarketState),
    /// A time window for the operation has already closed.
    DeadlinePassed,
    /// A time gate for the operation has not yet opened.
    DeadlineNotReached,
    /// The source account lacks the balance for the transfer.
    InsufficientFunds,
    /// The caller is not authorized for the operation.
    UnauthorizedCaller,
    /// The outcome label is not in the market's declared set.
    UnknownOutcome,
    /// Neither the primary nor the fallback oracle yielded a value.
    OracleUnavailable,
    /// The market's fee was already collected.
    FeesAlreadyCollected,
    /// The requested amount exceeds the vault's unwithdrawn balance.
    InsufficientVaultBalance,
    /// A staked amount must be strictly positive.
    ZeroAmount,
    /// The market's pool has not reached its minimum size.
    BelowMinimumPool,
    /// The declared outcome set is invalid: fewer than two labels, or
    /// duplicate labels.
    InvalidOutcomes,
}

} // verus!
