use vstd::prelude::*;
use crate::engine::{distribute_err, place_bet_err, Engine};
use crate::errors::{Error, MarketState};
use crate::market::{label_index, stakes_total, Market, Phase};

verus! {

/// Conservation of value.  For any sequence of bets followed by a
/// completed distribution, the sum of all user payouts plus the fee
/// and the rounding residual credited to the vault equals the total
/// pool exactly: a distributed market's `total_distributed` and
/// `fees_credited` account for its whole pool, which is itself exactly
/// the sum of the recorded stakes.
pub proof fn lemma_distribution_conserves_pool(m: Market)
    requires
        m.wf(),
        m.phase == Phase::Distributed,
    ensures
        m.total_distributed + m.fees_credited == m.total_pool,
        m.total_pool == stakes_total(m.stakes@),
{
}

/// No double payout.  A distribution on an already-distributed market
/// is refused outright; by the contract of `distribute_payouts`, the
/// refused call pays nothing and changes nothing, so funds are
/// distributed only once.
pub proof fn lemma_second_distribution_refused(e: Engine, market_id: u64, now: u64)
    requires
        e.wf(),
        market_id < e.markets@.len(),
        e.markets@[market_id as int].phase == Phase::Distributed,
    ensures
        distribute_err(e, market_id, now) == Some(
            Error::InvalidMarketState(MarketState::PayoutReady, MarketState::Distributed),
        ),
{
}

/// Deadline enforcement.  A bet at or after the bet deadline is
/// rejected with `DeadlinePassed`; a bet strictly before it, on a
/// declared outcome, with a positive stake covered by the bettor's
/// balance, is owed success.  By the contract of `place_bet`, a
/// rejected bet leaves every balance and the pool ledger unchanged.
pub proof fn lemma_bet_deadline_enforced(
    e: Engine,
    user: u64,
    market_id: u64,
    label: Seq<char>,
    amount: u64,
    now: u64,
)
    requires
        e.wf(),
        market_id < e.markets@.len(),
        e.markets@[market_id as int].phase == Phase::Active,
        user != e.custody,
    ensures
        now >= e.markets@[market_id as int].bet_deadline ==> place_bet_err(
            e,
            user,
            market_id,
            label,
            amount,
            now,
        ) == Some(Error::DeadlinePassed),
        now < e.markets@[market_id as int].bet_deadline && label_index(
            e.markets@[market_id as int].outcomes@,
            label,
        ) != -1 && amount > 0 && e.ledger.bal(e.markets@[market_id as int].token, user) >= amount
            ==> place_bet_err(e, user, market_id, label, amount, now) is None,
{
}

/// Dispute-window gating.  A distribution attempted before
/// `resolution_time + dispute_window` has elapsed fails with
/// `DeadlineNotReached`; the identical call at or after that instant
/// is owed success.
pub proof fn lemma_dispute_window_gates_payout(e: Engine, market_id: u64, now: u64)
    requires
        e.wf(),
        market_id < e.markets@.len(),
        e.markets@[market_id as int].phase == Phase::Resolved,
    ensures
        (now as int) < e.markets@[market_id as int].resolution_time + e.markets@[
            market_id as int
        ].dispute_window ==> distribute_err(e, market_id, now) == Some(Error::DeadlineNotReached),
        (now as int) >= e.markets@[market_id as int].resolution_time + e.markets@[
            market_id as int
        ].dispute_window ==> distribute_err(e, market_id, now) is None,
{
}

/// Cancellation refund.  A cancelled market holds no stake at all —
/// every bettor's stake was returned exactly, by the contract of
/// `cancel_event` — and no fee was or can ever be collected on it.
pub proof fn lemma_cancelled_holds_nothing(m: Market)
    requires
        m.wf(),
        m.phase == Phase::Cancelled,
    ensures
        m.total_pool == 0,
        m.stakes@.len() == 0,
        m.collected_fee is None,
        m.fees_credited == 0,
        m.total_distributed == 0,
{
}

} // verus!
