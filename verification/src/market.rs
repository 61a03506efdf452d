use vstd::prelude::*;
use vstd::arithmetic::div_mod::{
    lemma_div_is_ordered, lemma_div_multiples_vanish, lemma_fundamental_div_mod,
    lemma_mod_division_less_than_divisor, lemma_multiply_divide_le,
};
use vstd::arithmetic::mul::{lemma_mul_inequality, lemma_mul_is_commutative, lemma_mul_nonnegative};
use crate::errors::MarketState;
use crate::oracle::OracleConfig;

verus! {

/// The stored lifecycle phase of a market.  `Open` and `Ended`, and
/// `Resolved` and `PayoutReady`, are told apart by the clock, not by a
/// stored write; see `Market::state_at`.
#[derive(Clone, Copy, PartialEq, Eq, Debug)]
pub enum Phase {
    Active,
    Resolved,
    Distributed,
    Cancelled,
}

/// One bettor's accumulated stake on one outcome of one market.  Bets
/// by the same bettor on the same outcome accumulate here rather than
/// forming unbounded bet records.
pub struct StakeEntry {
    pub bettor: u64,
    pub outcome: usize,
    pub amount: u64,
}

/// The sum of all stakes in `s`: the market's total pool.
pub open spec fn stakes_total(s: Seq<StakeEntry>) -> int
    decreases s.len(),
{
    if s.len() == 0 {
        0
    } else {
        stakes_total(s.drop_last()) + s.last().amount as int
    }
}

/// The stake `s` records for `bettor` on `outcome`; zero when no entry
/// exists.
pub open spec fn stake_of(s: Seq<StakeEntry>, bettor: u64, outcome: usize) -> int
    decreases s.len(),
{
    if s.len() == 0 {
        0
    } else if s.last().bettor == bettor && s.last().outcome == outcome {
        s.last().amount as int
    } else {
        stake_of(s.drop_last(), bettor, outcome)
    }
}

/// No two entries record the same bettor on the same outcome.
pub open spec fn unique_stakes(s: Seq<StakeEntry>) -> bool {
    forall|i: int, j: int|
        0 <= i < j < s.len() ==> !(s[i].bettor == s[j].bettor && s[i].outcome == s[j].outcome)
}

/// The sum of the stakes in `s` that sit on a winning outcome under the
/// flags `w`.
pub open spec fn winning_total(s: Seq<StakeEntry>, w: Seq<bool>) -> int
    decreases s.len(),
{
    if s.len() == 0 {
        0
    } else {
        winning_total(s.drop_last(), w) + if s.last().outcome < w.len() && w[
            s.last().outcome as int
        ] {
            s.last().amount as int
        } else {
            0
        }
    }
}

/// The pro-rata share of the net pool owed for a winning stake of
/// `amount`: `amount * net / wt`, rounded down.
pub open spec fn share(amount: int, net: int, wt: int) -> int {
    if wt <= 0 {
        0
    } else {
        amount * net / wt
    }
}

/// The total paid out over all winning stakes in `s`.
pub open spec fn payout_total(s: Seq<StakeEntry>, w: Seq<bool>, net: int, wt: int) -> int
    decreases s.len(),
{
    if s.len() == 0 {
        0
    } else {
        payout_total(s.drop_last(), w, net, wt) + if s.last().outcome < w.len() && w[
            s.last().outcome as int
        ] {
            share(s.last().amount as int, net, wt)
        } else {
            0
        }
    }
}

/// The total paid out to the account `acct` over its winning stakes in
/// `s`: zero for every account with no winning stake.
pub open spec fn owed_to(s: Seq<StakeEntry>, w: Seq<bool>, net: int, wt: int, acct: u64) -> int
    decreases s.len(),
{
    if s.len() == 0 {
        0
    } else {
        owed_to(s.drop_last(), w, net, wt, acct) + if s.last().bettor == acct && s.last().outcome
            < w.len() && w[s.last().outcome as int] {
            share(s.last().amount as int, net, wt)
        } else {
            0
        }
    }
}

/// The total stake `s` records for the account `acct`, over all
/// outcomes: what a cancellation refunds to it.
pub open spec fn refund_to(s: Seq<StakeEntry>, acct: u64) -> int
    decreases s.len(),
{
    if s.len() == 0 {
        0
    } else {
        refund_to(s.drop_last(), acct) + if s.last().bettor == acct {
            s.last().amount as int
        } else {
            0
        }
    }
}

/// The protocol fee on a pool at a rate in basis points.
pub open spec fn fee_of(pool: int, fee_rate_bps: int) -> int {
    pool * fee_rate_bps / 10000
}

/// The index of the first label in `s` whose characters are `l`, or -1
/// when none matches.
pub open spec fn label_index(s: Seq<String>, l: Seq<char>) -> int
    decreases s.len(),
{
    if s.len() == 0 {
        -1
    } else if s[0]@ == l {
        0
    } else if label_index(s.drop_first(), l) == -1 {
        -1
    } else {
        label_index(s.drop_first(), l) + 1
    }
}

/// No two labels read the same.
pub open spec fn unique_labels(s: Seq<String>) -> bool {
    forall|i: int, j: int| 0 <= i < j < s.len() ==> s[i]@ != s[j]@
}

/// A single prediction market: its question, outcome labels, clock
/// bounds, oracle configuration, pool ledger and settlement record.
pub struct Market {
    pub id: u64,
    pub question: String,
    pub outcomes: Vec<String>,
    /// The value token every stake, refund and payout of this market
    /// moves in; fixed at creation for the market's whole lifetime.
    pub token: u64,
    pub creation_time: u64,
    pub end_time: u64,
    /// Bets are accepted strictly before this instant; at most `end_time`.
    pub bet_deadline: u64,
    pub oracle: OracleConfig,
    pub fallback_oracle: Option<OracleConfig>,
    /// Seconds after `end_time` before the fallback oracle may decide.
    pub resolution_timeout: u64,
    /// Seconds after `resolution_time` before payout may run.
    pub dispute_window: u64,
    pub min_pool_size: u64,
    pub fee_rate_bps: u64,
    pub phase: Phase,
    /// One flag per outcome; the winning-outcome set.  Empty (all
    /// false) until resolution, immutable thereafter.
    pub winning: Vec<bool>,
    pub resolution_time: u64,
    /// The pool ledger: accumulated stakes per bettor and outcome.
    pub stakes: Vec<StakeEntry>,
    pub total_pool: u64,
    /// The protocol fee, once computed; computed at most once.
    pub collected_fee: Option<u64>,
    /// Everything this market has credited to the fee vault: the fee
    /// plus any rounding residual of the distribution.
    pub fees_credited: u64,
    pub total_distributed: u64,
}

impl Market {
    /// Whether any outcome has been recorded as winning.
    pub open spec fn winning_any(self) -> bool {
        exists|i: int| 0 <= i < self.winning@.len() && self.winning@[i]
    }

    /// The lifecycle state observed at `now`.
    pub open spec fn state_at(self, now: u64) -> MarketState {
        match self.phase {
            Phase::Active => if now < self.end_time {
                MarketState::Open
            } else {
                MarketState::Ended
            },
            Phase::Resolved => if (now as int) < self.resolution_time + self.dispute_window {
                MarketState::Resolved
            } else {
                MarketState::PayoutReady
            },
            Phase::Distributed => MarketState::Distributed,
            Phase::Cancelled => MarketState::Cancelled,
        }
    }

    /// The lifecycle state observed at `now`, computed.
    pub fn observed_state(&self, now: u64) -> (r: MarketState)
        ensures
            r == self.state_at(now),
    {
        match self.phase {
            Phase::Active => if now < self.end_time {
                MarketState::Open
            } else {
                MarketState::Ended
            },
            Phase::Resolved => if (now as u128) < (self.resolution_time as u128) + (
            self.dispute_window as u128) {
                MarketState::Resolved
            } else {
                MarketState::PayoutReady
            },
            Phase::Distributed => MarketState::Distributed,
            Phase::Cancelled => MarketState::Cancelled,
        }
    }

    /// The stake accumulated by `bettor` on the outcome at `outcome`;
    /// zero when the bettor holds none.
    pub fn bettor_stake(&self, bettor: u64, outcome: usize) -> (r: u64)
        requires
            self.wf(),
        ensures
            r == stake_of(self.stakes@, bettor, outcome),
    {
        match find_stake(&self.stakes, bettor, outcome) {
            Some(i) => self.stakes[i].amount,
            None => 0,
        }
    }

    /// The sum of the stakes on winning outcomes: the pool the net
    /// payout is split over.  Zero until the market is resolved.
    pub fn winning_stake(&self) -> (r: u64)
        requires
            self.wf(),
        ensures
            r == winning_total(self.stakes@, self.winning@),
    {
        let n = self.stakes.len();
        let mut wt: u64 = 0;
        let mut k: usize = 0;
        while k < n
            invariant
                self.wf(),
                n == self.stakes@.len(),
                k <= n,
                wt == winning_total(self.stakes@.subrange(0, k as int), self.winning@),
                wt <= stakes_total(self.stakes@.subrange(0, k as int)),
                stakes_total(self.stakes@.subrange(0, k as int)) <= self.total_pool,
            decreases n - k,
        {
            proof {
                lemma_prefix_step(self.stakes@, k as int);
                lemma_stakes_prefix_le(self.stakes@, k as int + 1);
                lemma_winning_le_total(self.stakes@.subrange(0, k as int + 1), self.winning@);
            }
            let ox = self.stakes[k].outcome;
            if self.winning[ox] {
                wt = wt + self.stakes[k].amount;
            }
            k += 1;
        }
        proof {
            assert(self.stakes@.subrange(0, n as int) =~= self.stakes@);
        }
        wt
    }

    /// The sum of the stakes on losing outcomes.
    pub fn losing_stake(&self) -> (r: u64)
        requires
            self.wf(),
        ensures
            r == stakes_total(self.stakes@) - winning_total(self.stakes@, self.winning@),
    {
        proof {
            lemma_winning_le_total(self.stakes@, self.winning@);
        }
        self.total_pool - self.winning_stake()
    }

    /// The fee recorded as collected so far, as an amount.
    pub open spec fn collected_fee_amount(self) -> int {
        match self.collected_fee {
            Some(f) => f as int,
            None => 0,
        }
    }

    /// The market's internal invariant.  Among other things: the pool
    /// equals the sum of the recorded stakes; the winning set is
    /// non-empty exactly in the resolved and distributed phases; a
    /// distributed market's payouts and vault credits account for its
    /// whole pool; a cancelled market holds no stake and never
    /// collected a fee.
    pub open spec fn wf(self) -> bool {
        &&& self.outcomes@.len() >= 2
        &&& unique_labels(self.outcomes@)
        &&& self.winning@.len() == self.outcomes@.len()
        &&& self.bet_deadline <= self.end_time
        &&& self.creation_time <= self.end_time
        &&& self.fee_rate_bps <= 10000
        &&& unique_stakes(self.stakes@)
        &&& forall|i: int|
            0 <= i < self.stakes@.len() ==> (#[trigger] self.stakes@[i]).amount > 0
                && (self.stakes@[i].outcome as int) < self.outcomes@.len()
        &&& self.total_pool == stakes_total(self.stakes@)
        &&& (self.phase == Phase::Active ==> !self.winning_any() && self.collected_fee is None
            && self.fees_credited == 0 && self.total_distributed == 0)
        &&& (self.phase == Phase::Resolved ==> self.winning_any() && self.total_distributed == 0
            && self.fees_credited == self.collected_fee_amount())
        &&& (self.phase == Phase::Distributed ==> self.winning_any() && self.collected_fee is Some
            && self.total_distributed + self.fees_credited == self.total_pool)
        &&& (self.phase == Phase::Cancelled ==> !self.winning_any() && self.stakes@.len() == 0
            && self.total_pool == 0 && self.collected_fee is None && self.fees_credited == 0
            && self.total_distributed == 0)
        &&& (match self.collected_fee {
            Some(f) => f == fee_of(self.total_pool as int, self.fee_rate_bps as int)
                && self.phase != Phase::Active && self.phase != Phase::Cancelled,
            None => true,
        })
    }
}

/// What a market may still owe out of custody: its whole pool while
/// bets and refunds are live, the pool net of the collected fee once
/// resolved, and nothing once distributed or cancelled (the fee itself
/// is then owed by the vault, not the market).
pub open spec fn obligation(m: Market) -> int {
    match m.phase {
        Phase::Active => m.total_pool as int,
        Phase::Resolved => m.total_pool - m.collected_fee_amount(),
        Phase::Distributed => 0,
        Phase::Cancelled => 0,
    }
}

pub proof fn lemma_stakes_total_nonneg(s: Seq<StakeEntry>)
    ensures
        stakes_total(s) >= 0,
    decreases s.len(),
{
    if s.len() > 0 {
        lemma_stakes_total_nonneg(s.drop_last());
    }
}

/// Each entry's stake is at most the total.
pub proof fn lemma_entry_le_total(s: Seq<StakeEntry>, i: int)
    requires
        0 <= i < s.len(),
    ensures
        s[i].amount <= stakes_total(s),
    decreases s.len(),
{
    if i == s.len() - 1 {
        lemma_stakes_total_nonneg(s.drop_last());
    } else {
        assert(s.drop_last()[i] == s[i]);
        lemma_entry_le_total(s.drop_last(), i);
    }
}

/// With unique stakes, the stake of the pair at index `i` is the
/// recorded amount of that entry.
pub proof fn lemma_stake_at(s: Seq<StakeEntry>, i: int)
    requires
        unique_stakes(s),
        0 <= i < s.len(),
    ensures
        stake_of(s, s[i].bettor, s[i].outcome) == s[i].amount,
    decreases s.len(),
{
    if i < s.len() - 1 {
        assert(s.drop_last()[i] == s[i]);
        lemma_stake_at(s.drop_last(), i);
    }
}

/// A pair no entry records has stake zero.
pub proof fn lemma_stake_absent(s: Seq<StakeEntry>, bettor: u64, outcome: usize)
    requires
        forall|i: int| 0 <= i < s.len() ==> !(s[i].bettor == bettor && s[i].outcome == outcome),
    ensures
        stake_of(s, bettor, outcome) == 0,
    decreases s.len(),
{
    if s.len() > 0 {
        lemma_stake_absent(s.drop_last(), bettor, outcome);
    }
}

/// Replacing the entry at `i` by one for the same pair changes that
/// pair's stake, no other stake, and the total by the difference.
pub proof fn lemma_stake_update(s: Seq<StakeEntry>, i: int, e: StakeEntry, bettor: u64, outcome: usize)
    requires
        unique_stakes(s),
        0 <= i < s.len(),
        s[i].bettor == e.bettor,
        s[i].outcome == e.outcome,
    ensures
        stake_of(s.update(i, e), bettor, outcome) == if bettor == e.bettor && outcome == e.outcome {
            e.amount as int
        } else {
            stake_of(s, bettor, outcome)
        },
        stakes_total(s.update(i, e)) == stakes_total(s) + e.amount - s[i].amount,
    decreases s.len(),
{
    let u = s.update(i, e);
    if i == s.len() - 1 {
        assert(u.drop_last() =~= s.drop_last());
    } else {
        assert(u.last() == s.last());
        assert(u.drop_last() =~= s.drop_last().update(i, e));
        lemma_stake_update(s.drop_last(), i, e, bettor, outcome);
    }
}

/// Appending an entry for a pair not yet recorded adds its amount.
pub proof fn lemma_stake_push(s: Seq<StakeEntry>, e: StakeEntry, bettor: u64, outcome: usize)
    ensures
        stake_of(s.push(e), bettor, outcome) == if bettor == e.bettor && outcome == e.outcome {
            e.amount as int
        } else {
            stake_of(s, bettor, outcome)
        },
        stakes_total(s.push(e)) == stakes_total(s) + e.amount,
{
    assert(s.push(e).drop_last() =~= s);
}

/// The two seq facts from which every prefix sum over `s.subrange(0, k)`
/// extends by the contribution of `s[k]`, by definitional unfolding.
pub proof fn lemma_prefix_step(s: Seq<StakeEntry>, k: int)
    requires
        0 <= k < s.len(),
    ensures
        s.subrange(0, k + 1).drop_last() =~= s.subrange(0, k),
        s.subrange(0, k + 1).last() == s[k],
        s.subrange(0, k + 1).len() == k + 1,
{
}

/// A prefix of the stakes sums to at most the whole.
pub proof fn lemma_stakes_prefix_le(s: Seq<StakeEntry>, j: int)
    requires
        0 <= j <= s.len(),
    ensures
        0 <= stakes_total(s.subrange(0, j)),
        stakes_total(s.subrange(0, j)) <= stakes_total(s),
    decreases s.len() - j,
{
    lemma_stakes_total_nonneg(s.subrange(0, j));
    if j == s.len() {
        assert(s.subrange(0, j) =~= s);
    } else {
        lemma_prefix_step(s, j);
        lemma_stakes_prefix_le(s, j + 1);
    }
}

/// A prefix of the winning stake sums to at most the whole winning
/// stake.
pub proof fn lemma_winning_prefix_le(s: Seq<StakeEntry>, w: Seq<bool>, j: int)
    requires
        0 <= j <= s.len(),
    ensures
        winning_total(s.subrange(0, j), w) <= winning_total(s, w),
    decreases s.len() - j,
{
    if j == s.len() {
        assert(s.subrange(0, j) =~= s);
    } else {
        lemma_prefix_step(s, j);
        lemma_winning_prefix_le(s, w, j + 1);
    }
}

/// A single winning entry's stake is at most the winning total.
pub proof fn lemma_winning_entry_le(s: Seq<StakeEntry>, w: Seq<bool>, i: int)
    requires
        0 <= i < s.len(),
        s[i].outcome < w.len() && w[s[i].outcome as int],
    ensures
        s[i].amount <= winning_total(s, w),
    decreases s.len(),
{
    if i == s.len() - 1 {
        lemma_winning_le_total(s.drop_last(), w);
        lemma_stakes_total_nonneg(s.drop_last());
    } else {
        assert(s.drop_last()[i] == s[i]);
        lemma_winning_entry_le(s.drop_last(), w, i);
        lemma_winning_le_total(s, w);
    }
}

/// With no winning stake at all, nothing is paid out and nothing is
/// owed to anyone.
pub proof fn lemma_payout_zero_wt(s: Seq<StakeEntry>, w: Seq<bool>, net: int, acct: u64)
    ensures
        payout_total(s, w, net, 0) == 0,
        owed_to(s, w, net, 0, acct) == 0,
    decreases s.len(),
{
    if s.len() > 0 {
        lemma_payout_zero_wt(s.drop_last(), w, net, acct);
    }
}

/// The payouts over any prefix of the stakes stay within the net pool.
pub proof fn lemma_payout_prefix_le_net(s: Seq<StakeEntry>, w: Seq<bool>, net: int, j: int)
    requires
        net >= 0,
        winning_total(s, w) > 0,
        0 <= j <= s.len(),
    ensures
        0 <= payout_total(s.subrange(0, j), w, net, winning_total(s, w)),
        payout_total(s.subrange(0, j), w, net, winning_total(s, w)) <= net,
{
    let wt = winning_total(s, w);
    let p = s.subrange(0, j);
    lemma_payout_le(p, w, net, wt);
    lemma_winning_prefix_le(s, w, j);
    lemma_winning_le_total(p, w);
    lemma_mul_inequality(winning_total(p, w), wt, net);
    lemma_div_is_ordered(winning_total(p, w) * net, wt * net, wt);
    lemma_mul_is_commutative(wt, net);
    lemma_div_multiples_vanish(net, wt);
}

pub proof fn lemma_winning_le_total(s: Seq<StakeEntry>, w: Seq<bool>)
    ensures
        0 <= winning_total(s, w),
        winning_total(s, w) <= stakes_total(s),
    decreases s.len(),
{
    if s.len() > 0 {
        lemma_winning_le_total(s.drop_last(), w);
    }
}

/// Floor division distributes superadditively over a sum of
/// numerators: `x/d + y/d <= (x+y)/d`.
pub proof fn lemma_div_superadd(x: int, y: int, d: int)
    requires
        x >= 0,
        y >= 0,
        d > 0,
    ensures
        x / d + y / d <= (x + y) / d,
{
    lemma_fundamental_div_mod(x, d);
    lemma_fundamental_div_mod(y, d);
    lemma_mod_division_less_than_divisor(x, d);
    lemma_mod_division_less_than_divisor(y, d);
    assert(d * (x / d) + d * (y / d) <= x + y);
    assert(d * (x / d + y / d) == d * (x / d) + d * (y / d)) by (nonlinear_arith);
    lemma_div_is_ordered(d * (x / d + y / d), x + y, d);
    lemma_div_multiples_vanish(x / d + y / d, d);
}

/// A winning stake's share never exceeds the net pool.
pub proof fn lemma_share_le_net(amount: int, net: int, wt: int)
    requires
        0 <= amount <= wt,
        net >= 0,
    ensures
        0 <= share(amount, net, wt) <= net,
{
    if wt > 0 {
        lemma_mul_nonnegative(amount, net);
        lemma_div_is_ordered(0, amount * net, wt);
        lemma_mul_inequality(amount, wt, net);
        lemma_mul_is_commutative(wt, net);
        lemma_multiply_divide_le(amount * net, wt, net);
    }
}

/// The payouts over any set of stakes stay within the proportional
/// bound: their sum is at most the share of their winning total.
pub proof fn lemma_payout_le(s: Seq<StakeEntry>, w: Seq<bool>, net: int, wt: int)
    requires
        net >= 0,
        wt > 0,
    ensures
        0 <= payout_total(s, w, net, wt),
        payout_total(s, w, net, wt) <= winning_total(s, w) * net / wt,
    decreases s.len(),
{
    lemma_winning_le_total(s, w);
    if s.len() == 0 {
        lemma_div_is_ordered(0, winning_total(s, w) * net, wt);
        lemma_mul_nonnegative(winning_total(s, w), net);
    } else {
        let d = s.drop_last();
        lemma_payout_le(d, w, net, wt);
        lemma_winning_le_total(d, w);
        if s.last().outcome < w.len() && w[s.last().outcome as int] {
            let a = s.last().amount as int;
            lemma_mul_nonnegative(winning_total(d, w), net);
            lemma_mul_nonnegative(a, net);
            lemma_div_superadd(winning_total(d, w) * net, a * net, wt);
            assert(winning_total(d, w) * net + a * net == (winning_total(d, w) + a) * net)
                by (nonlinear_arith);
        } else {
            lemma_mul_nonnegative(winning_total(d, w), net);
        }
    }
}

/// The fee never exceeds the pool it is taken from.
pub proof fn lemma_fee_le_pool(pool: int, fee_rate_bps: int)
    requires
        pool >= 0,
        0 <= fee_rate_bps <= 10000,
    ensures
        0 <= fee_of(pool, fee_rate_bps),
        fee_of(pool, fee_rate_bps) <= pool,
{
    lemma_mul_nonnegative(pool, fee_rate_bps);
    lemma_div_is_ordered(0, pool * fee_rate_bps, 10000);
    lemma_mul_inequality(fee_rate_bps, 10000, pool);
    lemma_mul_is_commutative(pool, fee_rate_bps);
    lemma_mul_is_commutative(10000, pool);
    lemma_multiply_divide_le(pool * fee_rate_bps, 10000, pool);
}

/// A well-formed market can still owe only a non-negative amount, and
/// never more than its pool.
pub proof fn lemma_obligation_bounds(m: Market)
    requires
        m.wf(),
    ensures
        0 <= obligation(m),
        obligation(m) <= m.total_pool,
{
    lemma_stakes_total_nonneg(m.stakes@);
    match m.collected_fee {
        Some(f) => {
            lemma_fee_le_pool(m.total_pool as int, m.fee_rate_bps as int);
        },
        None => {},
    }
}

/// The first matching label, found by scanning, is what `label_index`
/// names.
pub proof fn lemma_label_index_at(s: Seq<String>, l: Seq<char>, k: int)
    requires
        0 <= k < s.len(),
        s[k]@ == l,
        forall|j: int| 0 <= j < k ==> s[j]@ != l,
    ensures
        label_index(s, l) == k,
    decreases s.len(),
{
    if k > 0 {
        assert(forall|j: int| 0 <= j < k - 1 ==> s.drop_first()[j]@ != l);
        assert(s.drop_first()[k - 1]@ == l);
        lemma_label_index_at(s.drop_first(), l, k - 1);
    }
}

/// When no label matches, `label_index` is -1.
pub proof fn lemma_label_index_absent(s: Seq<String>, l: Seq<char>)
    requires
        forall|i: int| 0 <= i < s.len() ==> s[i]@ != l,
    ensures
        label_index(s, l) == -1,
    decreases s.len(),
{
    if s.len() > 0 {
        assert(forall|j: int| 0 <= j < s.len() - 1 ==> s.drop_first()[j]@ != l);
        lemma_label_index_absent(s.drop_first(), l);
    }
}

/// The market configuration that never changes after creation.
pub open spec fn same_config(a: Market, b: Market) -> bool {
    &&& b.id == a.id
    &&& b.question == a.question
    &&& b.outcomes@ == a.outcomes@
    &&& b.token == a.token
    &&& b.creation_time == a.creation_time
    &&& b.end_time == a.end_time
    &&& b.bet_deadline == a.bet_deadline
    &&& b.oracle == a.oracle
    &&& b.fallback_oracle == a.fallback_oracle
    &&& b.resolution_timeout == a.resolution_timeout
    &&& b.dispute_window == a.dispute_window
    &&& b.min_pool_size == a.min_pool_size
    &&& b.fee_rate_bps == a.fee_rate_bps
}

/// The settlement record: what resolution, fee collection and
/// distribution write.
pub open spec fn same_settlement(a: Market, b: Market) -> bool {
    &&& b.phase == a.phase
    &&& b.winning@ == a.winning@
    &&& b.resolution_time == a.resolution_time
    &&& b.collected_fee == a.collected_fee
    &&& b.fees_credited == a.fees_credited
    &&& b.total_distributed == a.total_distributed
}

/// Finds the entry of `bettor` on `outcome`, if one exists.
pub fn find_stake(stakes: &Vec<StakeEntry>, bettor: u64, outcome: usize) -> (r: Option<usize>)
    requires
        unique_stakes(stakes@),
    ensures
        match r {
            Some(i) => i < stakes@.len() && stakes@[i as int].bettor == bettor && stakes@[
                i as int
            ].outcome == outcome && stake_of(stakes@, bettor, outcome) == stakes@[i as int].amount,
            None => stake_of(stakes@, bettor, outcome) == 0 && forall|j: int|
                0 <= j < stakes@.len() ==> !(stakes@[j].bettor == bettor && stakes@[j].outcome
                    == outcome),
        },
{
    let n = stakes.len();
    let mut k: usize = 0;
    while k < n
        invariant
            n == stakes@.len(),
            k <= n,
            unique_stakes(stakes@),
            forall|j: int| 0 <= j < k ==> !(stakes@[j].bettor == bettor && stakes@[j].outcome
                == outcome),
        decreases n - k,
    {
        if stakes[k].bettor == bettor && stakes[k].outcome == outcome {
            proof {
                lemma_stake_at(stakes@, k as int);
            }
            return Some(k);
        }
        k += 1;
    }
    proof {
        lemma_stake_absent(stakes@, bettor, outcome);
    }
    None
}

/// Finds the index of `label` among the market's outcome labels.
pub fn find_label(outcomes: &Vec<String>, label: &String) -> (r: Option<usize>)
    ensures
        match r {
            Some(ix) => label_index(outcomes@, label@) == ix && ix < outcomes@.len()
                && outcomes@[ix as int]@ == label@,
            None => label_index(outcomes@, label@) == -1,
        },
{
    let n = outcomes.len();
    let mut k: usize = 0;
    while k < n
        invariant
            n == outcomes@.len(),
            k <= n,
            forall|j: int| 0 <= j < k ==> outcomes@[j]@ != label@,
        decreases n - k,
    {
        if outcomes[k].eq(label) {
            proof {
                lemma_label_index_at(outcomes@, label@, k as int);
            }
            return Some(k);
        }
        k += 1;
    }
    proof {
        lemma_label_index_absent(outcomes@, label@);
    }
    None
}

} // verus!
