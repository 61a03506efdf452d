use vstd::prelude::*;
use crate::errors::{Error, MarketState};
use crate::market::{
    fee_of, find_label, find_stake, label_index, lemma_entry_le_total, lemma_fee_le_pool,
    lemma_obligation_bounds, lemma_payout_prefix_le_net, lemma_payout_zero_wt, lemma_prefix_step,
    lemma_share_le_net, lemma_stake_at, lemma_stake_push, lemma_stake_update,
    lemma_stakes_prefix_le, lemma_stakes_total_nonneg, lemma_winning_entry_le,
    lemma_winning_le_total, obligation, owed_to, payout_total, refund_to, same_config,
    same_settlement, share, stake_of, stakes_total, unique_labels, winning_total, Market, Phase,
    StakeEntry,
};
use crate::oracle::{oracle_outcome, oracle_outcome_spec, OracleConfig};
use crate::token::{lemma_bal_le_supply, TokenLedger};
use crate::vault::{lemma_vault_bal_nonneg, FeeVault};
use vstd::arithmetic::mul::lemma_mul_upper_bound;

verus! {

/// The default dispute window: one day, in seconds.
pub const DEFAULT_DISPUTE_WINDOW: u64 = 86400;

/// The default protocol fee rate: two percent, in basis points.
pub const DEFAULT_FEE_RATE_BPS: u64 = 200;

/// What the markets in `ms` may still owe out of custody in `token`.
pub open spec fn obligations(ms: Seq<Market>, token: u64) -> int
    decreases ms.len(),
{
    if ms.len() == 0 {
        0
    } else {
        obligations(ms.drop_last(), token) + if ms.last().token == token {
            obligation(ms.last())
        } else {
            0
        }
    }
}

pub proof fn lemma_obligations_nonneg(ms: Seq<Market>, token: u64)
    requires
        forall|i: int| 0 <= i < ms.len() ==> (#[trigger] ms[i]).wf(),
    ensures
        obligations(ms, token) >= 0,
    decreases ms.len(),
{
    if ms.len() > 0 {
        assert(forall|i: int| 0 <= i < ms.drop_last().len() ==> ms.drop_last()[i] == ms[i]);
        lemma_obligations_nonneg(ms.drop_last(), token);
        lemma_obligation_bounds(ms.last());
    }
}

/// One market's obligation is within the total over its token.
pub proof fn lemma_obligation_le_obligations(ms: Seq<Market>, i: int, token: u64)
    requires
        forall|j: int| 0 <= j < ms.len() ==> (#[trigger] ms[j]).wf(),
        0 <= i < ms.len(),
        ms[i].token == token,
    ensures
        obligation(ms[i]) <= obligations(ms, token),
    decreases ms.len(),
{
    assert(forall|j: int| 0 <= j < ms.drop_last().len() ==> ms.drop_last()[j] == ms[j]);
    if i == ms.len() - 1 {
        lemma_obligations_nonneg(ms.drop_last(), token);
    } else {
        lemma_obligation_le_obligations(ms.drop_last(), i, token);
        lemma_obligation_bounds(ms.last());
    }
}

/// Replacing the market at `i` changes each token's obligations by that
/// market's contribution alone.
pub proof fn lemma_obligations_update(ms: Seq<Market>, i: int, m: Market, token: u64)
    requires
        0 <= i < ms.len(),
    ensures
        obligations(ms.update(i, m), token) == obligations(ms, token) - (if ms[i].token == token {
            obligation(ms[i])
        } else {
            0
        }) + (if m.token == token {
            obligation(m)
        } else {
            0
        }),
    decreases ms.len(),
{
    let u = ms.update(i, m);
    if i == ms.len() - 1 {
        assert(u.drop_last() =~= ms.drop_last());
    } else {
        assert(u.last() == ms.last());
        assert(u.drop_last() =~= ms.drop_last().update(i, m));
        lemma_obligations_update(ms.drop_last(), i, m, token);
    }
}

/// Appending a market adds its contribution alone.
pub proof fn lemma_obligations_push(ms: Seq<Market>, m: Market, token: u64)
    ensures
        obligations(ms.push(m), token) == obligations(ms, token) + if m.token == token {
            obligation(m)
        } else {
            0
        },
{
    assert(ms.push(m).drop_last() =~= ms);
}

/// The settlement engine: every market, the pool custody account, the
/// fee vault and the model of the value-token ledger, under one
/// invariant.  Each operation is a single serialized unit of work: its
/// guard conditions and its mutation happen together, so two bets, or a
/// bet racing a resolution, are ordered by the guards alone.
pub struct Engine {
    /// The administrator: the only caller that may create and resolve
    /// markets, cancel events and move fees.
    pub admin: u64,
    /// The account that holds every market's pooled stake and the
    /// vault's unwithdrawn fees.
    pub custody: u64,
    pub ledger: TokenLedger,
    pub vault: FeeVault,
    pub markets: Vec<Market>,
}

impl Engine {
    /// The engine's invariant: every market is well formed and sits at
    /// its identifier; no bettor is the custody account itself; and in
    /// every token, custody covers the vault's unwithdrawn fees plus
    /// everything the markets may still owe.
    pub open spec fn wf(self) -> bool {
        &&& self.ledger.wf()
        &&& self.vault.wf()
        &&& forall|i: int|
            0 <= i < self.markets@.len() ==> (#[trigger] self.markets@[i]).wf()
                && self.markets@[i].id == i
        &&& forall|i: int, k: int|
            0 <= i < self.markets@.len() && 0 <= k < self.markets@[i].stakes@.len() ==> (
            #[trigger] self.markets@[i].stakes@[k]).bettor != self.custody
        &&& forall|t: u64|
            self.vault.bal(t) + #[trigger] obligations(self.markets@, t) <= self.ledger.bal(
                t,
                self.custody,
            )
    }

    /// A fresh engine with no markets, no balances and an empty vault.
    pub fn new(admin: u64, custody: u64) -> (r: Engine)
        ensures
            r.wf(),
            r.admin == admin,
            r.custody == custody,
            r.markets@.len() == 0,
            forall|t: u64, o: u64| r.ledger.bal(t, o) == 0,
            forall|t: u64| r.vault.bal(t) == 0,
    {
        let r = Engine {
            admin,
            custody,
            ledger: TokenLedger::new(),
            vault: FeeVault::new(),
            markets: Vec::new(),
        };
        r
    }

    /// Issues `amount` of `token` to `owner`; stands in for the token
    /// administrator's mint.  The supply bound is the machine limit
    /// that keeps every later transfer free of overflow.
    pub fn mint(&mut self, token: u64, owner: u64, amount: u64)
        requires
            old(self).wf(),
            old(self).ledger.supply(token) + amount <= u64::MAX,
        ensures
            final(self).wf(),
            final(self).ledger.bal(token, owner) == old(self).ledger.bal(token, owner) + amount,
            forall|t: u64, o: u64|
                !(t == token && o == owner) ==> final(self).ledger.bal(t, o) == old(
                    self,
                ).ledger.bal(t, o),
            final(self).markets@ == old(self).markets@,
            final(self).vault == old(self).vault,
            final(self).admin == old(self).admin,
            final(self).custody == old(self).custody,
    {
        self.ledger.mint(token, owner, amount);
    }

    /// The balance of `owner` in `token`.
    pub fn balance_of(&self, token: u64, owner: u64) -> (r: u64)
        requires
            self.wf(),
        ensures
            r == self.ledger.bal(token, owner),
    {
        self.ledger.balance(token, owner)
    }

    /// The vault's unwithdrawn fee balance in `token`.
    pub fn vault_balance(&self, token: u64) -> (r: u64)
        requires
            self.wf(),
        ensures
            r == self.vault.bal(token),
    {
        self.vault.balance(token)
    }

    /// The market stored under `market_id`, if any.
    pub fn get_market(&self, market_id: u64) -> (r: Option<&Market>)
        ensures
            match r {
                Some(m) => market_id < self.markets@.len() && *m == self.markets@[
                    market_id as int
                ],
                None => market_id >= self.markets@.len(),
            },
    {
        if market_id < self.markets.len() as u64 {
            Some(&self.markets[market_id as usize])
        } else {
            None
        }
    }
}

/// The bet deadline a new market is created with: `end_time` less the
/// requested margin, clamped to creation time; `end_time` itself when
/// no margin is requested.
pub open spec fn deadline_of(now: u64, end_time: u64, mins_before_end: Option<u64>) -> int {
    match mins_before_end {
        None => end_time as int,
        Some(m) => if (m as int) * 60 >= end_time - now {
            now as int
        } else {
            end_time - (m as int) * 60
        },
    }
}

/// The dispute window a new market is created with.
pub open spec fn window_of(dispute_window_seconds: Option<u64>) -> u64 {
    match dispute_window_seconds {
        Some(w) => w,
        None => DEFAULT_DISPUTE_WINDOW,
    }
}

/// The minimum pool size a new market is created with.
pub open spec fn min_pool_of(min_pool_size: Option<u64>) -> u64 {
    match min_pool_size {
        Some(p) => p,
        None => 0,
    }
}

impl Engine {
    /// Opens a new market.  Validation and the lifecycle start are one
    /// step: a market whose outcomes and time bounds pass validation is
    /// immediately open for bets.  The market is bound to `token` for
    /// its entire lifetime.  Returns the new market's identifier.
    pub fn create_market(
        &mut self,
        caller: u64,
        question: String,
        outcomes: Vec<String>,
        duration_days: u64,
        oracle: OracleConfig,
        fallback_oracle: Option<OracleConfig>,
        resolution_timeout: u64,
        token: u64,
        min_pool_size: Option<u64>,
        bet_deadline_mins_before_end: Option<u64>,
        dispute_window_seconds: Option<u64>,
        now: u64,
    ) -> (r: Result<u64, Error>)
        requires
            old(self).wf(),
            now + duration_days * 86400 <= u64::MAX,
        ensures
            final(self).wf(),
            caller != old(self).admin ==> r == Err::<u64, Error>(Error::UnauthorizedCaller)
                && *final(self) == *old(self),
            caller == old(self).admin && !(outcomes@.len() >= 2 && unique_labels(outcomes@)) ==> r
                == Err::<u64, Error>(Error::InvalidOutcomes) && *final(self) == *old(self),
            caller == old(self).admin && outcomes@.len() >= 2 && unique_labels(outcomes@) ==> {
                let id = old(self).markets@.len() as u64;
                let end_time = (now + duration_days * 86400) as u64;
                &&& r == Ok::<u64, Error>(id)
                &&& final(self).markets@.len() == old(self).markets@.len() + 1
                &&& final(self).markets@[id as int].question == question
                &&& final(self).markets@[id as int].outcomes@ == outcomes@
                &&& final(self).markets@[id as int].token == token
                &&& final(self).markets@[id as int].creation_time == now
                &&& final(self).markets@[id as int].end_time == end_time
                &&& final(self).markets@[id as int].bet_deadline == deadline_of(
                    now,
                    end_time,
                    bet_deadline_mins_before_end,
                )
                &&& final(self).markets@[id as int].oracle == oracle
                &&& final(self).markets@[id as int].fallback_oracle == fallback_oracle
                &&& final(self).markets@[id as int].resolution_timeout == resolution_timeout
                &&& final(self).markets@[id as int].dispute_window == window_of(
                    dispute_window_seconds,
                )
                &&& final(self).markets@[id as int].min_pool_size == min_pool_of(min_pool_size)
                &&& final(self).markets@[id as int].fee_rate_bps == DEFAULT_FEE_RATE_BPS
                &&& final(self).markets@[id as int].phase == Phase::Active
                &&& final(self).markets@[id as int].total_pool == 0
                &&& final(self).markets@[id as int].stakes@.len() == 0
                &&& !final(self).markets@[id as int].winning_any()
                &&& forall|j: int|
                    0 <= j < old(self).markets@.len() ==> final(self).markets@[j] == old(
                        self,
                    ).markets@[j]
            },
            final(self).ledger == old(self).ledger,
            final(self).vault == old(self).vault,
            final(self).admin == old(self).admin,
            final(self).custody == old(self).custody,
    {
        if caller != self.admin {
            return Err(Error::UnauthorizedCaller);
        }
        let n_outcomes = outcomes.len();
        if n_outcomes < 2 {
            return Err(Error::InvalidOutcomes);
        }
        // Reject duplicate labels.
        let mut a: usize = 0;
        while a < n_outcomes
            invariant
                *self == *old(self),
                self.wf(),
                caller == self.admin,
                n_outcomes == outcomes@.len(),
                a <= n_outcomes,
                forall|i: int, j: int| 0 <= i < j < a ==> outcomes@[i]@ != outcomes@[j]@,
                forall|i: int, j: int|
                    0 <= i < a && i < j < n_outcomes ==> outcomes@[i]@ != outcomes@[j]@,
            decreases n_outcomes - a,
        {
            let mut b: usize = a + 1;
            while b < n_outcomes
                invariant
                    *self == *old(self),
                    self.wf(),
                    caller == self.admin,
                    n_outcomes == outcomes@.len(),
                    a < n_outcomes,
                    a + 1 <= b <= n_outcomes,
                    forall|j: int| a < j < b ==> outcomes@[a as int]@ != outcomes@[j]@,
                decreases n_outcomes - b,
            {
                if outcomes[a].eq(&outcomes[b]) {
                    return Err(Error::InvalidOutcomes);
                }
                b += 1;
            }
            a += 1;
        }
        let end128 = (now as u128) + (duration_days as u128) * 86400;
        let end_time = end128 as u64;
        let bet_deadline = match bet_deadline_mins_before_end {
            None => end_time,
            Some(m) => {
                let margin = (m as u128) * 60;
                if margin >= ((end_time - now) as u128) {
                    now
                } else {
                    end_time - (margin as u64)
                }
            },
        };
        let dispute_window = match dispute_window_seconds {
            Some(w) => w,
            None => DEFAULT_DISPUTE_WINDOW,
        };
        let min_pool = match min_pool_size {
            Some(p) => p,
            None => 0,
        };
        let mut winning: Vec<bool> = Vec::new();
        let mut k: usize = 0;
        while k < n_outcomes
            invariant
                *self == *old(self),
                k <= n_outcomes,
                winning@.len() == k,
                forall|j: int| 0 <= j < k ==> !winning@[j],
            decreases n_outcomes - k,
        {
            winning.push(false);
            k += 1;
        }
        let id = self.markets.len() as u64;
        let m = Market {
            id,
            question,
            outcomes,
            token,
            creation_time: now,
            end_time,
            bet_deadline,
            oracle,
            fallback_oracle,
            resolution_timeout,
            dispute_window,
            min_pool_size: min_pool,
            fee_rate_bps: DEFAULT_FEE_RATE_BPS,
            phase: Phase::Active,
            winning,
            resolution_time: 0,
            stakes: Vec::new(),
            total_pool: 0,
            collected_fee: None,
            fees_credited: 0,
            total_distributed: 0,
        };
        let ghost ms0 = self.markets@;
        let ghost gm = m;
        self.markets.push(m);
        proof {
            assert(gm.wf());
            assert forall|t: u64|
                self.vault.bal(t) + #[trigger] obligations(self.markets@, t) <= self.ledger.bal(
                    t,
                    self.custody,
                ) by {
                lemma_obligations_push(ms0, gm, t);
                assert(obligation(gm) == 0);
                assert(self.vault.bal(t) + obligations(ms0, t) <= self.ledger.bal(
                    t,
                    self.custody,
                ));
            }
            assert forall|i: int, k2: int|
                0 <= i < self.markets@.len() && 0 <= k2
                    < self.markets@[i].stakes@.len() implies (#[trigger] self.markets@[i].stakes@[
                k2
            ]).bettor != self.custody by {
                assert(i < ms0.len());
            }
        }
        Ok(id)
    }
}

/// The failure `place_bet` reports, or `None` when the bet is owed
/// success: the first failing guard, in the order the guards run.
pub open spec fn place_bet_err(
    e: Engine,
    user: u64,
    market_id: u64,
    label: Seq<char>,
    amount: u64,
    now: u64,
) -> Option<Error> {
    if market_id >= e.markets@.len() {
        Some(Error::MarketNotFound)
    } else if user == e.custody {
        Some(Error::UnauthorizedCaller)
    } else {
        let m = e.markets@[market_id as int];
        if m.phase != Phase::Active {
            Some(Error::InvalidMarketState(MarketState::Open, m.state_at(now)))
        } else if now >= m.bet_deadline {
            Some(Error::DeadlinePassed)
        } else if label_index(m.outcomes@, label) == -1 {
            Some(Error::UnknownOutcome)
        } else if amount == 0 {
            Some(Error::ZeroAmount)
        } else if e.ledger.bal(m.token, user) < amount {
            Some(Error::InsufficientFunds)
        } else {
            None
        }
    }
}

impl Engine {
    /// Records a bet of `amount` by `user` on the outcome labelled
    /// `outcome`.  The stake moves into custody before the pool ledger
    /// is touched; on any failure neither the ledger nor any balance
    /// changes.  A repeated bet on the same outcome accumulates into
    /// the bettor's single running stake.
    pub fn place_bet(
        &mut self,
        user: u64,
        market_id: u64,
        outcome: &String,
        amount: u64,
        now: u64,
    ) -> (r: Result<(), Error>)
        requires
            old(self).wf(),
        ensures
            final(self).wf(),
            final(self).admin == old(self).admin,
            final(self).custody == old(self).custody,
            match place_bet_err(*old(self), user, market_id, outcome@, amount, now) {
                Some(e) => r == Err::<(), Error>(e) && *final(self) == *old(self),
                None => {
                    let mid = market_id as int;
                    let m0 = old(self).markets@[mid];
                    let ix = label_index(m0.outcomes@, outcome@);
                    &&& r == Ok::<(), Error>(())
                    &&& final(self).ledger.bal(m0.token, user) == old(self).ledger.bal(
                        m0.token,
                        user,
                    ) - amount
                    &&& final(self).ledger.bal(m0.token, old(self).custody) == old(self).ledger.bal(
                        m0.token,
                        old(self).custody,
                    ) + amount
                    &&& forall|t: u64, o: u64|
                        !(t == m0.token && (o == user || o == old(self).custody)) ==> final(self)
                            .ledger.bal(t, o) == old(self).ledger.bal(t, o)
                    &&& final(self).vault == old(self).vault
                    &&& final(self).markets@.len() == old(self).markets@.len()
                    &&& forall|j: int|
                        0 <= j < old(self).markets@.len() && j != mid ==> final(self).markets@[j]
                            == old(self).markets@[j]
                    &&& same_config(m0, final(self).markets@[mid])
                    &&& same_settlement(m0, final(self).markets@[mid])
                    &&& final(self).markets@[mid].total_pool == m0.total_pool + amount
                    &&& forall|b: u64, ox: usize|
                        stake_of(final(self).markets@[mid].stakes@, b, ox) == stake_of(
                            m0.stakes@,
                            b,
                            ox,
                        ) + if b == user && ox == ix {
                            amount as int
                        } else {
                            0
                        }
                },
            },
    {
        if market_id >= self.markets.len() as u64 {
            return Err(Error::MarketNotFound);
        }
        if user == self.custody {
            return Err(Error::UnauthorizedCaller);
        }
        let mid = market_id as usize;
        if !(matches!(self.markets[mid].phase, Phase::Active)) {
            let actual = self.markets[mid].observed_state(now);
            return Err(Error::InvalidMarketState(MarketState::Open, actual));
        }
        if now >= self.markets[mid].bet_deadline {
            return Err(Error::DeadlinePassed);
        }
        let ix = match find_label(&self.markets[mid].outcomes, outcome) {
            Some(ix) => ix,
            None => {
                return Err(Error::UnknownOutcome);
            },
        };
        if amount == 0 {
            return Err(Error::ZeroAmount);
        }
        let tok = self.markets[mid].token;
        let custody = self.custody;
        let ghost ms0 = self.markets@;
        let ghost led0 = self.ledger;
        let ghost m0 = self.markets@[mid as int];
        proof {
            // The pool is covered by custody, so the grown pool still
            // fits the machine word once the stake has moved in.
            lemma_obligation_le_obligations(ms0, mid as int, tok);
            lemma_vault_bal_nonneg(self.vault.entries@, tok);
        }
        match self.ledger.transfer(tok, user, custody, amount) {
            Ok(()) => {},
            Err(e) => {
                return Err(e);
            },
        }
        proof {
            lemma_bal_le_supply(self.ledger.entries@, tok, custody);
            assert(m0.total_pool + amount <= u64::MAX);
        }
        let mut m = self.markets.remove(mid);
        let ghost s0 = m.stakes@;
        match find_stake(&m.stakes, user, ix) {
            Some(si) => {
                let cur = m.stakes[si].amount;
                proof {
                    lemma_entry_le_total(s0, si as int);
                }
                let e = m.stakes.remove(si);
                let e2 = StakeEntry { bettor: user, outcome: ix, amount: cur + amount };
                m.stakes.insert(si, e2);
                proof {
                    assert(m.stakes@ =~= s0.update(si as int, e2));
                    assert forall|b: u64, ox: usize| true implies stake_of(m.stakes@, b, ox)
                        == stake_of(s0, b, ox) + if b == user && ox == ix {
                        amount as int
                    } else {
                        0
                    } by {
                        lemma_stake_update(s0, si as int, e2, b, ox);
                        if !(b == user && ox == ix) {
                        } else {
                            lemma_stake_at(s0, si as int);
                        }
                    }
                    lemma_stake_update(s0, si as int, e2, user, ix);
                    assert forall|a: int, b: int|
                        0 <= a < b < m.stakes@.len() implies !(m.stakes@[a].bettor
                        == m.stakes@[b].bettor && m.stakes@[a].outcome == m.stakes@[b].outcome) by {
                        assert(s0[a].bettor == m.stakes@[a].bettor && s0[a].outcome
                            == m.stakes@[a].outcome);
                        assert(s0[b].bettor == m.stakes@[b].bettor && s0[b].outcome
                            == m.stakes@[b].outcome);
                    }
                }
            },
            None => {
                let e2 = StakeEntry { bettor: user, outcome: ix, amount };
                m.stakes.push(e2);
                proof {
                    assert forall|b: u64, ox: usize| true implies stake_of(m.stakes@, b, ox)
                        == stake_of(s0, b, ox) + if b == user && ox == ix {
                        amount as int
                    } else {
                        0
                    } by {
                        lemma_stake_push(s0, e2, b, ox);
                    }
                    lemma_stake_push(s0, e2, user, ix);
                    assert forall|a: int, b: int|
                        0 <= a < b < m.stakes@.len() implies !(m.stakes@[a].bettor
                        == m.stakes@[b].bettor && m.stakes@[a].outcome == m.stakes@[b].outcome) by {
                        if b < m.stakes@.len() - 1 {
                            assert(s0[a] == m.stakes@[a] && s0[b] == m.stakes@[b]);
                        } else {
                            assert(s0[a] == m.stakes@[a]);
                        }
                    }
                }
            },
        }
        m.total_pool = m.total_pool + amount;
        let ghost m1 = m;
        self.markets.insert(mid, m);
        proof {
            assert(self.markets@ =~= ms0.update(mid as int, m1));
            assert(m1.wf());
            assert forall|t: u64|
                self.vault.bal(t) + #[trigger] obligations(self.markets@, t) <= self.ledger.bal(
                    t,
                    self.custody,
                ) by {
                lemma_obligations_update(ms0, mid as int, m1, t);
                assert(old(self).vault.bal(t) + obligations(ms0, t) <= led0.bal(t, custody));
            }
            assert forall|i: int, k2: int|
                0 <= i < self.markets@.len() && 0 <= k2
                    < self.markets@[i].stakes@.len() implies (#[trigger] self.markets@[i].stakes@[
                k2
            ]).bettor != self.custody by {
                if i != mid as int {
                    assert(self.markets@[i] == ms0[i]);
                }
            }
        }
        Ok(())
    }
}

/// The failure `resolve_market_manual` reports, or `None` when the
/// resolution is owed success.
pub open spec fn resolve_manual_err(
    e: Engine,
    caller: u64,
    market_id: u64,
    label: Seq<char>,
    now: u64,
) -> Option<Error> {
    if market_id >= e.markets@.len() {
        Some(Error::MarketNotFound)
    } else if caller != e.admin {
        Some(Error::UnauthorizedCaller)
    } else {
        let m = e.markets@[market_id as int];
        if m.phase != Phase::Active {
            Some(Error::InvalidMarketState(MarketState::Ended, m.state_at(now)))
        } else if now < m.end_time {
            Some(Error::DeadlineNotReached)
        } else if label_index(m.outcomes@, label) == -1 {
            Some(Error::UnknownOutcome)
        } else if m.total_pool < m.min_pool_size {
            Some(Error::BelowMinimumPool)
        } else {
            None
        }
    }
}

/// The failure `resolve_market_oracle` reports, or `None` when the
/// resolution is owed success.
pub open spec fn resolve_oracle_err(
    e: Engine,
    market_id: u64,
    primary_obs: Option<i128>,
    fallback_obs: Option<i128>,
    now: u64,
) -> Option<Error> {
    if market_id >= e.markets@.len() {
        Some(Error::MarketNotFound)
    } else {
        let m = e.markets@[market_id as int];
        if m.phase != Phase::Active {
            Some(Error::InvalidMarketState(MarketState::Ended, m.state_at(now)))
        } else if now < m.end_time {
            Some(Error::DeadlineNotReached)
        } else if m.total_pool < m.min_pool_size {
            Some(Error::BelowMinimumPool)
        } else if oracle_outcome_spec(
            m.oracle,
            m.fallback_oracle,
            primary_obs,
            fallback_obs,
            now,
            m.end_time,
            m.resolution_timeout,
        ) is Err {
            Some(Error::OracleUnavailable)
        } else {
            None
        }
    }
}

/// What a successful resolution writes: the one-hot winning set at
/// `ix`, the resolution time, and the `Resolved` phase; everything
/// else, the pool ledger included, stays.
pub open spec fn resolved_market(e: Engine, market_id: u64, ix: int, now: u64, e2: Engine) -> bool {
    let mid = market_id as int;
    let m0 = e.markets@[mid];
    &&& e2.markets@.len() == e.markets@.len()
    &&& forall|j: int|
        0 <= j < e.markets@.len() && j != mid ==> e2.markets@[j] == e.markets@[j]
    &&& same_config(m0, e2.markets@[mid])
    &&& e2.markets@[mid].stakes@ == m0.stakes@
    &&& e2.markets@[mid].total_pool == m0.total_pool
    &&& e2.markets@[mid].phase == Phase::Resolved
    &&& e2.markets@[mid].resolution_time == now
    &&& e2.markets@[mid].winning@.len() == m0.outcomes@.len()
    &&& forall|j: int| 0 <= j < m0.outcomes@.len() ==> (e2.markets@[mid].winning@[j] <==> j == ix)
    &&& e2.markets@[mid].collected_fee is None
    &&& e2.markets@[mid].fees_credited == 0
    &&& e2.markets@[mid].total_distributed == 0
    &&& e2.ledger == e.ledger
    &&& e2.vault == e.vault
    &&& e2.admin == e.admin
    &&& e2.custody == e.custody
}

impl Engine {
    /// Writes the one-hot winning set `ix` into the market at `mid` and
    /// moves it to `Resolved` at `now`.
    fn apply_resolution(&mut self, mid: usize, ix: usize, now: u64)
        requires
            old(self).wf(),
            mid < old(self).markets@.len(),
            old(self).markets@[mid as int].phase == Phase::Active,
            (ix as int) < old(self).markets@[mid as int].outcomes@.len(),
        ensures
            final(self).wf(),
            resolved_market(*old(self), mid as u64, ix as int, now, *final(self)),
    {
        let ghost ms0 = self.markets@;
        let ghost m0 = self.markets@[mid as int];
        let mut m = self.markets.remove(mid);
        let n = m.outcomes.len();
        let mut winning: Vec<bool> = Vec::new();
        let mut k: usize = 0;
        while k < n
            invariant
                k <= n,
                winning@.len() == k,
                forall|j: int| 0 <= j < k ==> (winning@[j] <==> j == ix),
            decreases n - k,
        {
            winning.push(k == ix);
            k += 1;
        }
        m.winning = winning;
        m.phase = Phase::Resolved;
        m.resolution_time = now;
        let ghost m1 = m;
        self.markets.insert(mid, m);
        proof {
            assert(self.markets@ =~= ms0.update(mid as int, m1));
            assert(m1.winning@[ix as int]);
            assert(m1.wf());
            assert forall|t: u64|
                self.vault.bal(t) + #[trigger] obligations(self.markets@, t) <= self.ledger.bal(
                    t,
                    self.custody,
                ) by {
                lemma_obligations_update(ms0, mid as int, m1, t);
                assert(old(self).vault.bal(t) + obligations(ms0, t) <= old(self).ledger.bal(
                    t,
                    old(self).custody,
                ));
            }
            assert forall|i: int, k2: int|
                0 <= i < self.markets@.len() && 0 <= k2
                    < self.markets@[i].stakes@.len() implies (#[trigger] self.markets@[i].stakes@[
                k2
            ]).bettor != self.custody by {
                if i != mid as int {
                    assert(self.markets@[i] == ms0[i]);
                } else {
                    assert(self.markets@[i].stakes@ == ms0[i].stakes@);
                }
            }
        }
    }

    /// Resolves a market by administrative decision: the given outcome
    /// label becomes the winning outcome, bypassing the oracle.
    /// Requires the market to have ended, unresolved, with its minimum
    /// pool reached.
    pub fn resolve_market_manual(
        &mut self,
        caller: u64,
        market_id: u64,
        outcome: &String,
        now: u64,
    ) -> (r: Result<(), Error>)
        requires
            old(self).wf(),
        ensures
            final(self).wf(),
            match resolve_manual_err(*old(self), caller, market_id, outcome@, now) {
                Some(e) => r == Err::<(), Error>(e) && *final(self) == *old(self),
                None => r == Ok::<(), Error>(()) && resolved_market(
                    *old(self),
                    market_id,
                    label_index(old(self).markets@[market_id as int].outcomes@, outcome@),
                    now,
                    *final(self),
                ),
            },
    {
        if market_id >= self.markets.len() as u64 {
            return Err(Error::MarketNotFound);
        }
        if caller != self.admin {
            return Err(Error::UnauthorizedCaller);
        }
        let mid = market_id as usize;
        if !(matches!(self.markets[mid].phase, Phase::Active)) {
            let actual = self.markets[mid].observed_state(now);
            return Err(Error::InvalidMarketState(MarketState::Ended, actual));
        }
        if now < self.markets[mid].end_time {
            return Err(Error::DeadlineNotReached);
        }
        let ix = match find_label(&self.markets[mid].outcomes, outcome) {
            Some(ix) => ix,
            None => {
                return Err(Error::UnknownOutcome);
            },
        };
        if self.markets[mid].total_pool < self.markets[mid].min_pool_size {
            return Err(Error::BelowMinimumPool);
        }
        self.apply_resolution(mid, ix, now);
        Ok(())
    }

    /// Resolves a market from oracle observations: the primary
    /// observation decides against the primary configuration's
    /// threshold; without one, the fallback decides once the
    /// resolution timeout has elapsed.  When neither yields a value the
    /// market stays as it was, awaiting a retry or a manual
    /// resolution.  Returns the winning outcome's index.
    pub fn resolve_market_oracle(
        &mut self,
        market_id: u64,
        primary_obs: Option<i128>,
        fallback_obs: Option<i128>,
        now: u64,
    ) -> (r: Result<usize, Error>)
        requires
            old(self).wf(),
        ensures
            final(self).wf(),
            match resolve_oracle_err(*old(self), market_id, primary_obs, fallback_obs, now) {
                Some(e) => r == Err::<usize, Error>(e) && *final(self) == *old(self),
                None => {
                    let m0 = old(self).markets@[market_id as int];
                    let decided = oracle_outcome_spec(
                        m0.oracle,
                        m0.fallback_oracle,
                        primary_obs,
                        fallback_obs,
                        now,
                        m0.end_time,
                        m0.resolution_timeout,
                    );
                    &&& decided is Ok
                    &&& r == Ok::<usize, Error>(decided.unwrap())
                    &&& resolved_market(
                        *old(self),
                        market_id,
                        decided.unwrap() as int,
                        now,
                        *final(self),
                    )
                },
            },
    {
        if market_id >= self.markets.len() as u64 {
            return Err(Error::MarketNotFound);
        }
        let mid = market_id as usize;
        if !(matches!(self.markets[mid].phase, Phase::Active)) {
            let actual = self.markets[mid].observed_state(now);
            return Err(Error::InvalidMarketState(MarketState::Ended, actual));
        }
        if now < self.markets[mid].end_time {
            return Err(Error::DeadlineNotReached);
        }
        if self.markets[mid].total_pool < self.markets[mid].min_pool_size {
            return Err(Error::BelowMinimumPool);
        }
        let ix = match oracle_outcome(
            &self.markets[mid].oracle,
            &self.markets[mid].fallback_oracle,
            primary_obs,
            fallback_obs,
            now,
            self.markets[mid].end_time,
            self.markets[mid].resolution_timeout,
        ) {
            Ok(ix) => ix,
            Err(_) => {
                return Err(Error::OracleUnavailable);
            },
        };
        self.apply_resolution(mid, ix, now);
        Ok(ix)
    }
}

/// The failure `collect_fees` reports, or `None` when the collection
/// is owed success.
pub open spec fn collect_fees_err(e: Engine, caller: u64, market_id: u64, now: u64) -> Option<
    Error,
> {
    if market_id >= e.markets@.len() {
        Some(Error::MarketNotFound)
    } else if caller != e.admin {
        Some(Error::UnauthorizedCaller)
    } else {
        let m = e.markets@[market_id as int];
        if !(m.phase == Phase::Resolved || m.phase == Phase::Distributed) {
            Some(Error::InvalidMarketState(MarketState::Resolved, m.state_at(now)))
        } else if m.collected_fee is Some {
            Some(Error::FeesAlreadyCollected)
        } else {
            None
        }
    }
}

impl Engine {
    /// Computes the market's protocol fee, `total_pool * fee_rate_bps
    /// / 10000`, and moves it from the pool's custody into the vault's
    /// unwithdrawn balance.  At most once per market: a second call
    /// fails with `FeesAlreadyCollected`.  Never possible on a
    /// cancelled market.  Returns the fee.
    pub fn collect_fees(&mut self, caller: u64, market_id: u64, now: u64) -> (r: Result<
        u64,
        Error,
    >)
        requires
            old(self).wf(),
        ensures
            final(self).wf(),
            match collect_fees_err(*old(self), caller, market_id, now) {
                Some(e) => r == Err::<u64, Error>(e) && *final(self) == *old(self),
                None => {
                    let mid = market_id as int;
                    let m0 = old(self).markets@[mid];
                    let f = fee_of(m0.total_pool as int, m0.fee_rate_bps as int);
                    &&& r == Ok::<u64, Error>(f as u64)
                    &&& final(self).vault.bal(m0.token) == old(self).vault.bal(m0.token) + f
                    &&& forall|t: u64|
                        t != m0.token ==> final(self).vault.bal(t) == old(self).vault.bal(t)
                    &&& final(self).ledger == old(self).ledger
                    &&& final(self).markets@.len() == old(self).markets@.len()
                    &&& forall|j: int|
                        0 <= j < old(self).markets@.len() && j != mid ==> final(self).markets@[j]
                            == old(self).markets@[j]
                    &&& same_config(m0, final(self).markets@[mid])
                    &&& final(self).markets@[mid].stakes@ == m0.stakes@
                    &&& final(self).markets@[mid].total_pool == m0.total_pool
                    &&& final(self).markets@[mid].winning@ == m0.winning@
                    &&& final(self).markets@[mid].phase == m0.phase
                    &&& final(self).markets@[mid].resolution_time == m0.resolution_time
                    &&& final(self).markets@[mid].collected_fee == Some(f as u64)
                    &&& final(self).markets@[mid].fees_credited == f
                    &&& final(self).markets@[mid].total_distributed == 0
                    &&& final(self).admin == old(self).admin
                    &&& final(self).custody == old(self).custody
                },
            },
    {
        if market_id >= self.markets.len() as u64 {
            return Err(Error::MarketNotFound);
        }
        if caller != self.admin {
            return Err(Error::UnauthorizedCaller);
        }
        let mid = market_id as usize;
        let resolved = matches!(self.markets[mid].phase, Phase::Resolved);
        let distributed = matches!(self.markets[mid].phase, Phase::Distributed);
        if !(resolved || distributed) {
            let actual = self.markets[mid].observed_state(now);
            return Err(Error::InvalidMarketState(MarketState::Resolved, actual));
        }
        if self.markets[mid].collected_fee.is_some() {
            return Err(Error::FeesAlreadyCollected);
        }
        let ghost ms0 = self.markets@;
        let ghost m0 = self.markets@[mid as int];
        let pool = self.markets[mid].total_pool;
        let bps = self.markets[mid].fee_rate_bps;
        let tok = self.markets[mid].token;
        proof {
            lemma_mul_upper_bound(pool as int, u64::MAX as int, bps as int, 10000);
        }
        let fee128 = (pool as u128) * (bps as u128) / 10000;
        proof {
            lemma_fee_le_pool(pool as int, bps as int);
        }
        let fee = fee128 as u64;
        proof {
            lemma_obligation_le_obligations(ms0, mid as int, tok);
            lemma_bal_le_supply(self.ledger.entries@, tok, self.custody);
            lemma_stakes_total_nonneg(m0.stakes@);
        }
        self.vault.credit(tok, fee);
        let mut m = self.markets.remove(mid);
        m.collected_fee = Some(fee);
        m.fees_credited = fee;
        let ghost m1 = m;
        self.markets.insert(mid, m);
        proof {
            assert(self.markets@ =~= ms0.update(mid as int, m1));
            assert(m1.wf());
            assert forall|t: u64|
                self.vault.bal(t) + #[trigger] obligations(self.markets@, t) <= self.ledger.bal(
                    t,
                    self.custody,
                ) by {
                lemma_obligations_update(ms0, mid as int, m1, t);
                assert(old(self).vault.bal(t) + obligations(ms0, t) <= old(self).ledger.bal(
                    t,
                    old(self).custody,
                ));
            }
            assert forall|i: int, k2: int|
                0 <= i < self.markets@.len() && 0 <= k2
                    < self.markets@[i].stakes@.len() implies (#[trigger] self.markets@[i].stakes@[
                k2
            ]).bettor != self.custody by {
                if i != mid as int {
                    assert(self.markets@[i] == ms0[i]);
                } else {
                    assert(self.markets@[i].stakes@ == ms0[i].stakes@);
                }
            }
        }
        Ok(fee)
    }

    /// Withdraws `amount` of collected fees in `token` to the
    /// administrator.  The withdrawable amount can never exceed the
    /// accumulated, not-yet-withdrawn vault balance.  Returns the
    /// withdrawn amount.
    pub fn withdraw_fees(&mut self, caller: u64, token: u64, amount: u64) -> (r: Result<
        u64,
        Error,
    >)
        requires
            old(self).wf(),
        ensures
            final(self).wf(),
            caller != old(self).admin ==> r == Err::<u64, Error>(Error::UnauthorizedCaller)
                && *final(self) == *old(self),
            caller == old(self).admin && amount > old(self).vault.bal(token) ==> r == Err::<
                u64,
                Error,
            >(Error::InsufficientVaultBalance) && *final(self) == *old(self),
            caller == old(self).admin && amount <= old(self).vault.bal(token) ==> {
                &&& r == Ok::<u64, Error>(amount)
                &&& final(self).vault.bal(token) == old(self).vault.bal(token) - amount
                &&& forall|t: u64| t != token ==> final(self).vault.bal(t) == old(self).vault.bal(t)
                &&& final(self).markets@ == old(self).markets@
                &&& if old(self).admin == old(self).custody {
                    final(self).ledger == old(self).ledger
                } else {
                    final(self).ledger.bal(token, old(self).custody) == old(self).ledger.bal(
                        token,
                        old(self).custody,
                    ) - amount && final(self).ledger.bal(token, old(self).admin) == old(
                        self,
                    ).ledger.bal(token, old(self).admin) + amount && forall|t: u64, o: u64|
                        !(t == token && (o == old(self).custody || o == old(self).admin))
                            ==> final(self).ledger.bal(t, o) == old(self).ledger.bal(t, o)
                }
                &&& final(self).admin == old(self).admin
                &&& final(self).custody == old(self).custody
            },
    {
        if caller != self.admin {
            return Err(Error::UnauthorizedCaller);
        }
        let available = self.vault.balance(token);
        if amount > available {
            return Err(Error::InsufficientVaultBalance);
        }
        proof {
            lemma_obligations_nonneg(self.markets@, token);
        }
        let res = self.ledger.transfer(token, self.custody, self.admin, amount);
        proof {
            assert(res is Ok);
        }
        self.vault.debit(token, amount);
        proof {
            assert forall|t: u64|
                self.vault.bal(t) + #[trigger] obligations(self.markets@, t) <= self.ledger.bal(
                    t,
                    self.custody,
                ) by {
                assert(old(self).vault.bal(t) + obligations(ms_of(*old(self)), t) <= old(
                    self,
                ).ledger.bal(t, old(self).custody));
                assert(obligations(self.markets@, t) == obligations(ms_of(*old(self)), t));
            }
        }
        Ok(amount)
    }
}

/// The markets of an engine, as a sequence.
pub open spec fn ms_of(e: Engine) -> Seq<Market> {
    e.markets@
}

/// The failure `cancel_event` reports, or `None` when the cancellation
/// is owed success.  Cancellation is legal only while the market is
/// open or ended: once resolved, already-decided payouts cannot be
/// clawed back.
pub open spec fn cancel_err(e: Engine, caller: u64, market_id: u64, now: u64) -> Option<Error> {
    if market_id >= e.markets@.len() {
        Some(Error::MarketNotFound)
    } else if caller != e.admin {
        Some(Error::UnauthorizedCaller)
    } else if e.markets@[market_id as int].phase != Phase::Active {
        Some(
            Error::InvalidMarketState(
                MarketState::Open,
                e.markets@[market_id as int].state_at(now),
            ),
        )
    } else {
        None
    }
}

impl Engine {
    /// Cancels an open or ended market: every bettor's recorded stake
    /// is returned exactly, the pool ledger is zeroed, and the market
    /// becomes `Cancelled`, a terminal state on which no fee is ever
    /// collected.  `reason` is recorded nowhere; it only documents the
    /// administrator's call.
    pub fn cancel_event(
        &mut self,
        caller: u64,
        market_id: u64,
        reason: Option<String>,
        now: u64,
    ) -> (r: Result<(), Error>)
        requires
            old(self).wf(),
        ensures
            final(self).wf(),
            match cancel_err(*old(self), caller, market_id, now) {
                Some(e) => r == Err::<(), Error>(e) && *final(self) == *old(self),
                None => {
                    let mid = market_id as int;
                    let m0 = old(self).markets@[mid];
                    &&& r == Ok::<(), Error>(())
                    &&& forall|o: u64|
                        o != old(self).custody ==> final(self).ledger.bal(m0.token, o) == old(
                            self,
                        ).ledger.bal(m0.token, o) + refund_to(m0.stakes@, o)
                    &&& final(self).ledger.bal(m0.token, old(self).custody) == old(
                        self,
                    ).ledger.bal(m0.token, old(self).custody) - m0.total_pool
                    &&& forall|t: u64, o: u64|
                        t != m0.token ==> final(self).ledger.bal(t, o) == old(self).ledger.bal(
                            t,
                            o,
                        )
                    &&& final(self).vault == old(self).vault
                    &&& final(self).markets@.len() == old(self).markets@.len()
                    &&& forall|j: int|
                        0 <= j < old(self).markets@.len() && j != mid ==> final(self).markets@[j]
                            == old(self).markets@[j]
                    &&& same_config(m0, final(self).markets@[mid])
                    &&& final(self).markets@[mid].phase == Phase::Cancelled
                    &&& final(self).markets@[mid].stakes@.len() == 0
                    &&& final(self).markets@[mid].total_pool == 0
                    &&& final(self).markets@[mid].collected_fee is None
                    &&& final(self).markets@[mid].fees_credited == 0
                    &&& final(self).markets@[mid].total_distributed == 0
                    &&& final(self).admin == old(self).admin
                    &&& final(self).custody == old(self).custody
                },
            },
    {
        if market_id >= self.markets.len() as u64 {
            return Err(Error::MarketNotFound);
        }
        if caller != self.admin {
            return Err(Error::UnauthorizedCaller);
        }
        let mid = market_id as usize;
        if !(matches!(self.markets[mid].phase, Phase::Active)) {
            let actual = self.markets[mid].observed_state(now);
            return Err(Error::InvalidMarketState(MarketState::Open, actual));
        }
        let custody = self.custody;
        let ghost ms0 = self.markets@;
        let ghost led0 = self.ledger;
        let ghost m0 = self.markets@[mid as int];
        proof {
            lemma_obligation_le_obligations(ms0, mid as int, m0.token);
            lemma_vault_bal_nonneg(self.vault.entries@, m0.token);
            assert(m0.total_pool <= led0.bal(m0.token, custody));
        }
        let mut m = self.markets.remove(mid);
        let tok = m.token;
        let n = m.stakes.len();
        let mut k: usize = 0;
        while k < n
            invariant
                self.markets@ == ms0.remove(mid as int),
                self.vault == old(self).vault,
                self.admin == old(self).admin,
                self.custody == custody,
                self.ledger.wf(),
                m == ms0[mid as int],
                m0 == ms0[mid as int],
                m0.wf(),
                mid < ms0.len(),
                tok == m0.token,
                n == m0.stakes@.len(),
                k <= n,
                forall|j: int|
                    0 <= j < m0.stakes@.len() ==> (#[trigger] m0.stakes@[j]).bettor != custody,
                m0.total_pool == stakes_total(m0.stakes@),
                m0.total_pool <= led0.bal(tok, custody),
                self.ledger.bal(tok, custody) == led0.bal(tok, custody) - stakes_total(
                    m0.stakes@.subrange(0, k as int),
                ),
                forall|o: u64|
                    o != custody ==> self.ledger.bal(tok, o) == led0.bal(tok, o) + refund_to(
                        m0.stakes@.subrange(0, k as int),
                        o,
                    ),
                forall|t: u64, o: u64| t != tok ==> self.ledger.bal(t, o) == led0.bal(t, o),
                forall|t: u64| self.ledger.supply(t) == led0.supply(t),
            decreases n - k,
        {
            let b = m.stakes[k].bettor;
            let a = m.stakes[k].amount;
            proof {
                lemma_prefix_step(m0.stakes@, k as int);
                lemma_stakes_prefix_le(m0.stakes@, k as int + 1);
                lemma_stakes_prefix_le(m0.stakes@, k as int);
                assert(m0.stakes@[k as int].bettor != custody);
            }
            let res = self.ledger.transfer(tok, custody, b, a);
            proof {
                assert(res is Ok);
                assert forall|o: u64|
                    o != custody implies self.ledger.bal(tok, o) == led0.bal(tok, o) + refund_to(
                    m0.stakes@.subrange(0, k as int + 1),
                    o,
                ) by {
                    lemma_prefix_step(m0.stakes@, k as int);
                }
            }
            k += 1;
        }
        proof {
            assert(m0.stakes@.subrange(0, n as int) =~= m0.stakes@);
        }
        m.stakes.clear();
        m.total_pool = 0;
        m.phase = Phase::Cancelled;
        let ghost m1 = m;
        self.markets.insert(mid, m);
        proof {
            assert(self.markets@ =~= ms0.update(mid as int, m1));
            assert(m1.wf());
            assert forall|t: u64|
                self.vault.bal(t) + #[trigger] obligations(self.markets@, t) <= self.ledger.bal(
                    t,
                    self.custody,
                ) by {
                lemma_obligations_update(ms0, mid as int, m1, t);
                assert(old(self).vault.bal(t) + obligations(ms0, t) <= led0.bal(t, custody));
            }
            assert forall|i: int, k2: int|
                0 <= i < self.markets@.len() && 0 <= k2
                    < self.markets@[i].stakes@.len() implies (#[trigger] self.markets@[i].stakes@[
                k2
            ]).bettor != self.custody by {
                if i != mid as int {
                    assert(self.markets@[i] == ms0[i]);
                }
            }
        }
        Ok(())
    }
}

/// The failure `distribute_payouts` reports, or `None` when the
/// distribution is owed success.  A market already distributed fails
/// cleanly: the second call pays nothing and changes nothing.
pub open spec fn distribute_err(e: Engine, market_id: u64, now: u64) -> Option<Error> {
    if market_id >= e.markets@.len() {
        Some(Error::MarketNotFound)
    } else {
        let m = e.markets@[market_id as int];
        if m.phase != Phase::Resolved {
            Some(Error::InvalidMarketState(MarketState::PayoutReady, m.state_at(now)))
        } else if (now as int) < m.resolution_time + m.dispute_window {
            Some(Error::DeadlineNotReached)
        } else {
            None
        }
    }
}

/// The fee a distribution settles with: the one already collected, or
/// the one it computes and collects itself.
pub open spec fn settled_fee(m: Market) -> int {
    match m.collected_fee {
        Some(f) => f as int,
        None => fee_of(m.total_pool as int, m.fee_rate_bps as int),
    }
}

impl Engine {
    /// Distributes the net pool of a resolved market, pro rata, to the
    /// bettors on its winning outcomes, once the dispute window has
    /// elapsed.  Collects the fee first if not yet collected.  Each
    /// winner receives `stake * net_pool / winning_stake`, rounded
    /// down; the rounding residual is credited to the fee vault, never
    /// discarded.  With no winning stake the whole net pool goes to the
    /// vault and zero is distributed, and the market still ends
    /// `Distributed`.  Returns the total amount distributed.
    pub fn distribute_payouts(&mut self, market_id: u64, now: u64) -> (r: Result<u64, Error>)
        requires
            old(self).wf(),
        ensures
            final(self).wf(),
            match distribute_err(*old(self), market_id, now) {
                Some(e) => r == Err::<u64, Error>(e) && *final(self) == *old(self),
                None => {
                    let mid = market_id as int;
                    let m0 = old(self).markets@[mid];
                    let f = settled_fee(m0);
                    let net = m0.total_pool - f;
                    let wt = winning_total(m0.stakes@, m0.winning@);
                    let total = payout_total(m0.stakes@, m0.winning@, net, wt);
                    &&& r == Ok::<u64, Error>(total as u64)
                    &&& forall|o: u64|
                        o != old(self).custody ==> final(self).ledger.bal(m0.token, o) == old(
                            self,
                        ).ledger.bal(m0.token, o) + owed_to(m0.stakes@, m0.winning@, net, wt, o)
                    &&& final(self).ledger.bal(m0.token, old(self).custody) == old(
                        self,
                    ).ledger.bal(m0.token, old(self).custody) - total
                    &&& forall|t: u64, o: u64|
                        t != m0.token ==> final(self).ledger.bal(t, o) == old(self).ledger.bal(
                            t,
                            o,
                        )
                    &&& final(self).vault.bal(m0.token) == old(self).vault.bal(m0.token) + (
                    m0.total_pool - m0.fees_credited - total)
                    &&& forall|t: u64|
                        t != m0.token ==> final(self).vault.bal(t) == old(self).vault.bal(t)
                    &&& final(self).markets@.len() == old(self).markets@.len()
                    &&& forall|j: int|
                        0 <= j < old(self).markets@.len() && j != mid ==> final(self).markets@[j]
                            == old(self).markets@[j]
                    &&& same_config(m0, final(self).markets@[mid])
                    &&& final(self).markets@[mid].stakes@ == m0.stakes@
                    &&& final(self).markets@[mid].total_pool == m0.total_pool
                    &&& final(self).markets@[mid].winning@ == m0.winning@
                    &&& final(self).markets@[mid].resolution_time == m0.resolution_time
                    &&& final(self).markets@[mid].phase == Phase::Distributed
                    &&& final(self).markets@[mid].collected_fee == Some(f as u64)
                    &&& final(self).markets@[mid].total_distributed == total
                    &&& final(self).markets@[mid].fees_credited == m0.total_pool - total
                    &&& final(self).admin == old(self).admin
                    &&& final(self).custody == old(self).custody
                },
            },
    {
        if market_id >= self.markets.len() as u64 {
            return Err(Error::MarketNotFound);
        }
        let mid = market_id as usize;
        if !(matches!(self.markets[mid].phase, Phase::Resolved)) {
            let actual = self.markets[mid].observed_state(now);
            return Err(Error::InvalidMarketState(MarketState::PayoutReady, actual));
        }
        if (now as u128) < (self.markets[mid].resolution_time as u128) + (
        self.markets[mid].dispute_window as u128) {
            return Err(Error::DeadlineNotReached);
        }
        let custody = self.custody;
        let ghost ms0 = self.markets@;
        let ghost led0 = self.ledger;
        let ghost vault0 = self.vault;
        let ghost m0 = self.markets@[mid as int];
        proof {
            assert(m0.wf());
            lemma_obligation_le_obligations(ms0, mid as int, m0.token);
            lemma_vault_bal_nonneg(vault0.entries@, m0.token);
            lemma_bal_le_supply(led0.entries@, m0.token, custody);
            lemma_stakes_total_nonneg(m0.stakes@);
        }
        let mut m = self.markets.remove(mid);
        let tok = m.token;
        let pool = m.total_pool;
        let bps = m.fee_rate_bps;
        // Settle the fee first when it has not been collected yet.
        let fee: u64 = match m.collected_fee {
            Some(f) => f,
            None => {
                proof {
                    lemma_mul_upper_bound(pool as int, u64::MAX as int, bps as int, 10000);
                }
                let raw_fee = (pool as u128) * (bps as u128) / 10000;
                proof {
                    lemma_fee_le_pool(pool as int, bps as int);
                }
                let f = raw_fee as u64;
                self.vault.credit(tok, f);
                f
            },
        };
        proof {
            lemma_fee_le_pool(pool as int, bps as int);
            assert(fee == settled_fee(m0));
            assert(fee <= pool);
            assert(m0.fees_credited == m0.collected_fee_amount());
            assert(self.vault.bal(tok) == vault0.bal(tok) + fee - m0.fees_credited);
            assert(forall|t: u64| t != tok ==> self.vault.bal(t) == vault0.bal(t));
        }
        let ghost vault1 = self.vault;
        let net = pool - fee;
        proof {
            assert(net <= obligation(m0));
            assert((net as int) <= led0.bal(tok, custody));
        }
        // The winning stake.
        let n = m.stakes.len();
        let wt = m.winning_stake();
        let mut total: u64 = 0;
        if wt == 0 {
            // Nobody holds a winning stake: the whole net pool is a
            // residual, credited to the vault, and zero is distributed.
            self.vault.credit(tok, net);
            proof {
                assert forall|o: u64| true implies owed_to(
                    m0.stakes@,
                    m0.winning@,
                    net as int,
                    0,
                    o,
                ) == 0 by {
                    lemma_payout_zero_wt(m0.stakes@, m0.winning@, net as int, o);
                }
                lemma_payout_zero_wt(m0.stakes@, m0.winning@, net as int, 0);
            }
        } else {
            let mut k2: usize = 0;
            while k2 < n
                invariant
                    self.markets@ == ms0.remove(mid as int),
                    self.admin == old(self).admin,
                    self.custody == custody,
                    self.ledger.wf(),
                    self.vault == vault1,
                    m == ms0[mid as int],
                    m0 == ms0[mid as int],
                    m0.wf(),
                    mid < ms0.len(),
                    tok == m0.token,
                    pool == m0.total_pool,
                    fee == settled_fee(m0),
                    fee <= pool,
                    net == pool - fee,
                    n == m0.stakes@.len(),
                    k2 <= n,
                    wt == winning_total(m0.stakes@, m0.winning@),
                    wt > 0,
                    forall|j: int|
                        0 <= j < m0.stakes@.len() ==> (#[trigger] m0.stakes@[j]).bettor != custody,
                    (net as int) <= led0.bal(tok, custody),
                    total == payout_total(
                        m0.stakes@.subrange(0, k2 as int),
                        m0.winning@,
                        net as int,
                        wt as int,
                    ),
                    total <= net,
                    self.ledger.bal(tok, custody) == led0.bal(tok, custody) - total,
                    forall|o: u64|
                        o != custody ==> self.ledger.bal(tok, o) == led0.bal(tok, o) + owed_to(
                            m0.stakes@.subrange(0, k2 as int),
                            m0.winning@,
                            net as int,
                            wt as int,
                            o,
                        ),
                    forall|t: u64, o: u64| t != tok ==> self.ledger.bal(t, o) == led0.bal(t, o),
                    forall|t: u64| self.ledger.supply(t) == led0.supply(t),
                decreases n - k2,
            {
                let b = m.stakes[k2].bettor;
                let a = m.stakes[k2].amount;
                let ox = m.stakes[k2].outcome;
                proof {
                    lemma_prefix_step(m0.stakes@, k2 as int);
                }
                if m.winning[ox] {
                    proof {
                        lemma_winning_entry_le(m0.stakes@, m0.winning@, k2 as int);
                        lemma_share_le_net(a as int, net as int, wt as int);
                        lemma_mul_upper_bound(a as int, u64::MAX as int, net as int, u64::MAX as int);
                    }
                    let s128 = (a as u128) * (net as u128) / (wt as u128);
                    let s_k = s128 as u64;
                    proof {
                        assert(s_k == share(a as int, net as int, wt as int));
                        lemma_payout_prefix_le_net(m0.stakes@, m0.winning@, net as int, k2 as int + 1);
                        assert(total + s_k <= net);
                        assert(m0.stakes@[k2 as int].bettor != custody);
                    }
                    let res = self.ledger.transfer(tok, custody, b, s_k);
                    proof {
                        assert(res is Ok);
                        assert forall|o: u64|
                            o != custody implies self.ledger.bal(tok, o) == led0.bal(tok, o)
                            + owed_to(
                            m0.stakes@.subrange(0, k2 as int + 1),
                            m0.winning@,
                            net as int,
                            wt as int,
                            o,
                        ) by {
                            lemma_prefix_step(m0.stakes@, k2 as int);
                        }
                    }
                    total = total + s_k;
                }
                k2 += 1;
            }
            proof {
                assert(m0.stakes@.subrange(0, n as int) =~= m0.stakes@);
                assert(total == payout_total(m0.stakes@, m0.winning@, net as int, wt as int));
            }
            // The rounding residual is credited to the vault, never
            // discarded.
            let residual = net - total;
            proof {
                assert(vault0.bal(tok) + obligations(ms0, tok) <= led0.bal(tok, custody));
                assert(obligation(m0) <= obligations(ms0, tok));
                assert(obligation(m0) == pool - m0.fees_credited);
                lemma_bal_le_supply(led0.entries@, tok, custody);
                assert(self.vault.bal(tok) + residual <= u64::MAX);
            }
            self.vault.credit(tok, residual);
        }
        proof {
            assert(self.vault.bal(tok) == vault0.bal(tok) + (pool - m0.fees_credited - total));
            assert(forall|t: u64| t != tok ==> self.vault.bal(t) == vault0.bal(t));
        }
        m.collected_fee = Some(fee);
        m.fees_credited = pool - total;
        m.total_distributed = total;
        m.phase = Phase::Distributed;
        let ghost m1 = m;
        self.markets.insert(mid, m);
        proof {
            assert(self.markets@ =~= ms0.update(mid as int, m1));
            let wix = choose|i: int| 0 <= i < m0.winning@.len() && m0.winning@[i];
            assert(m1.winning@[wix]);
            assert(m1.winning_any());
            assert(m1.total_distributed + m1.fees_credited == m1.total_pool);
            assert(m1.wf());
            assert forall|t: u64|
                self.vault.bal(t) + #[trigger] obligations(self.markets@, t) <= self.ledger.bal(
                    t,
                    self.custody,
                ) by {
                lemma_obligations_update(ms0, mid as int, m1, t);
                assert(old(self).vault.bal(t) + obligations(ms0, t) <= led0.bal(t, custody));
                if t == tok {
                    assert(obligation(m0) == pool - m0.fees_credited);
                    assert(self.vault.bal(tok) == vault0.bal(tok) + (pool - m0.fees_credited
                        - total));
                    assert(self.ledger.bal(tok, custody) == led0.bal(tok, custody) - total);
                } else {
                    assert(self.vault.bal(t) == vault0.bal(t));
                    assert(self.ledger.bal(t, custody) == led0.bal(t, custody));
                }
            }
            assert forall|i: int, k3: int|
                0 <= i < self.markets@.len() && 0 <= k3
                    < self.markets@[i].stakes@.len() implies (#[trigger] self.markets@[i].stakes@[
                k3
            ]).bettor != self.custody by {
                if i != mid as int {
                    assert(self.markets@[i] == ms0[i]);
                } else {
                    assert(self.markets@[i].stakes@ == ms0[i].stakes@);
                }
            }
        }
        Ok(total)
    }
}

} // verus!
