use predictify_hybrid::engine::Engine;
use predictify_hybrid::errors::{Error, MarketState};
use predictify_hybrid::oracle::{Comparison, OracleConfig, OracleProvider};

const ADMIN: u64 = 1;
const CUSTODY: u64 = 2;
const TOKEN: u64 = 10;
const DAY: u64 = 86400;

fn gt_oracle(threshold: i128) -> OracleConfig {
    OracleConfig {
        provider: OracleProvider::Reflector,
        oracle_address: 99,
        feed_id: String::from("RAIN"),
        threshold,
        comparison: Comparison::GreaterThan,
    }
}

fn setup_with(
    fallback: Option<OracleConfig>,
    min_pool: Option<u64>,
    deadline_mins: Option<u64>,
) -> (Engine, u64) {
    let mut engine = Engine::new(ADMIN, CUSTODY);
    let market_id = engine
        .create_market(
            ADMIN,
            String::from("Will it rain?"),
            vec![String::from("yes"), String::from("no")],
            30,
            gt_oracle(1),
            fallback,
            3600,
            TOKEN,
            min_pool,
            deadline_mins,
            None,
            0,
        )
        .unwrap();
    (engine, market_id)
}

fn setup() -> (Engine, u64) {
    setup_with(None, None, None)
}

fn end_time(engine: &Engine, market_id: u64) -> u64 {
    engine.get_market(market_id).unwrap().end_time
}

#[test]
fn test_fee_computation() {
    // Pool of 20_000_000 units at 200 bps (2%) yields a fee of
    // 400_000 and a net pool of 19_600_000.
    let (mut engine, market_id) = setup();
    engine.mint(TOKEN, 3, 10_000_000);
    engine.mint(TOKEN, 4, 10_000_000);
    engine
        .place_bet(3, market_id, &String::from("yes"), 10_000_000, 1)
        .unwrap();
    engine
        .place_bet(4, market_id, &String::from("no"), 10_000_000, 1)
        .unwrap();
    let end = end_time(&engine, market_id);
    engine
        .resolve_market_manual(ADMIN, market_id, &String::from("yes"), end)
        .unwrap();
    let fee = engine.collect_fees(ADMIN, market_id, end).unwrap();
    assert_eq!(fee, 400_000);
    assert_eq!(engine.vault_balance(TOKEN), 400_000);
    // Pro-rata split: the sole winner receives the entire net pool.
    let distributed = engine.distribute_payouts(market_id, end + DAY).unwrap();
    assert_eq!(distributed, 19_600_000);
    assert_eq!(engine.balance_of(TOKEN, 3), 19_600_000);
    assert_eq!(engine.balance_of(TOKEN, 4), 0);
}

#[test]
fn test_collect_fees_twice() {
    let (mut engine, market_id) = setup();
    engine.mint(TOKEN, 3, 10_000_000);
    engine
        .place_bet(3, market_id, &String::from("yes"), 10_000_000, 1)
        .unwrap();
    let end = end_time(&engine, market_id);
    engine
        .resolve_market_manual(ADMIN, market_id, &String::from("yes"), end)
        .unwrap();
    let fee = engine.collect_fees(ADMIN, market_id, end).unwrap();
    assert_eq!(fee, 200_000);
    assert_eq!(
        engine.collect_fees(ADMIN, market_id, end),
        Err(Error::FeesAlreadyCollected)
    );
    // The vault was credited once.
    assert_eq!(engine.vault_balance(TOKEN), 200_000);
    // Distribution settles with the already-collected fee.
    let distributed = engine.distribute_payouts(market_id, end + DAY).unwrap();
    assert_eq!(distributed, 9_800_000);
    assert_eq!(
        engine.collect_fees(ADMIN, market_id, end + DAY),
        Err(Error::FeesAlreadyCollected)
    );
}

#[test]
fn test_conservation_with_rounding() {
    // Three winners with stakes that do not divide the net pool
    // evenly: payouts + vault credits == total pool, exactly.
    let (mut engine, market_id) = setup();
    for (user, stake) in [(3, 1_000_003), (4, 2_000_001), (5, 3_000_007)] {
        engine.mint(TOKEN, user, stake);
        engine
            .place_bet(user, market_id, &String::from("yes"), stake, 1)
            .unwrap();
    }
    engine.mint(TOKEN, 6, 4_000_009);
    engine
        .place_bet(6, market_id, &String::from("no"), 4_000_009, 1)
        .unwrap();
    let pool = engine.get_market(market_id).unwrap().total_pool;
    assert_eq!(pool, 10_000_020);
    let end = end_time(&engine, market_id);
    engine
        .resolve_market_manual(ADMIN, market_id, &String::from("yes"), end)
        .unwrap();
    let distributed = engine.distribute_payouts(market_id, end + DAY).unwrap();
    let vault = engine.vault_balance(TOKEN);
    assert_eq!(distributed + vault, pool);
    // The market's own record agrees.
    let m = engine.get_market(market_id).unwrap();
    assert_eq!(m.total_distributed, distributed);
    assert_eq!(m.fees_credited, vault);
    // Every paid-out unit landed with a winner.
    let paid: u64 = engine.balance_of(TOKEN, 3) + engine.balance_of(TOKEN, 4)
        + engine.balance_of(TOKEN, 5);
    assert_eq!(paid, distributed);
    assert_eq!(engine.balance_of(TOKEN, 6), 0);
}

#[test]
fn test_no_double_payout() {
    let (mut engine, market_id) = setup();
    engine.mint(TOKEN, 3, 10_000_000);
    engine.mint(TOKEN, 4, 10_000_000);
    engine
        .place_bet(3, market_id, &String::from("yes"), 10_000_000, 1)
        .unwrap();
    engine
        .place_bet(4, market_id, &String::from("no"), 10_000_000, 1)
        .unwrap();
    let end = end_time(&engine, market_id);
    engine
        .resolve_market_manual(ADMIN, market_id, &String::from("yes"), end)
        .unwrap();
    let first = engine.distribute_payouts(market_id, end + DAY).unwrap();
    assert_eq!(first, 19_600_000);
    let winner_balance = engine.balance_of(TOKEN, 3);
    // The second call distributes nothing and changes nothing.
    assert_eq!(
        engine.distribute_payouts(market_id, end + DAY),
        Err(Error::InvalidMarketState(
            MarketState::PayoutReady,
            MarketState::Distributed
        ))
    );
    assert_eq!(engine.balance_of(TOKEN, 3), winner_balance);
    assert_eq!(engine.vault_balance(TOKEN), 400_000);
}

#[test]
fn test_bet_deadline_boundary() {
    // The bet deadline is 60 minutes before the end time here.
    let (mut engine, market_id) = setup_with(None, None, Some(60));
    let end = end_time(&engine, market_id);
    let deadline = engine.get_market(market_id).unwrap().bet_deadline;
    assert_eq!(deadline, end - 3600);
    engine.mint(TOKEN, 3, 30_000_000);
    // Strictly before the deadline: accepted.
    engine
        .place_bet(3, market_id, &String::from("yes"), 10_000_000, deadline - 1)
        .unwrap();
    // At the deadline, and after it: rejected.
    assert_eq!(
        engine.place_bet(3, market_id, &String::from("yes"), 10_000_000, deadline),
        Err(Error::DeadlinePassed)
    );
    assert_eq!(
        engine.place_bet(3, market_id, &String::from("yes"), 10_000_000, deadline + 1),
        Err(Error::DeadlinePassed)
    );
    assert_eq!(engine.balance_of(TOKEN, 3), 20_000_000);
}

#[test]
fn test_dispute_window_gating() {
    // Resolution at T with a window of 86400: distribution at T+1
    // fails, at T+86401 it succeeds.
    let (mut engine, market_id) = setup();
    engine.mint(TOKEN, 3, 10_000_000);
    engine
        .place_bet(3, market_id, &String::from("yes"), 10_000_000, 1)
        .unwrap();
    let t = end_time(&engine, market_id) + 5;
    engine
        .resolve_market_manual(ADMIN, market_id, &String::from("yes"), t)
        .unwrap();
    assert_eq!(
        engine.distribute_payouts(market_id, t + 1),
        Err(Error::DeadlineNotReached)
    );
    assert_eq!(
        engine.distribute_payouts(market_id, t + DAY - 1),
        Err(Error::DeadlineNotReached)
    );
    let distributed = engine.distribute_payouts(market_id, t + DAY + 1).unwrap();
    assert_eq!(distributed, 9_800_000);
}

#[test]
fn test_insufficient_funds_leaves_all_unchanged() {
    let (mut engine, market_id) = setup();
    engine.mint(TOKEN, 3, 5_000_000);
    assert_eq!(
        engine.place_bet(3, market_id, &String::from("yes"), 10_000_000, 1),
        Err(Error::InsufficientFunds)
    );
    assert_eq!(engine.balance_of(TOKEN, 3), 5_000_000);
    assert_eq!(engine.balance_of(TOKEN, CUSTODY), 0);
    assert_eq!(engine.get_market(market_id).unwrap().total_pool, 0);
}

#[test]
fn test_no_fee_on_cancelled_market() {
    let (mut engine, market_id) = setup();
    engine.mint(TOKEN, 3, 10_000_000);
    engine
        .place_bet(3, market_id, &String::from("yes"), 10_000_000, 1)
        .unwrap();
    engine.cancel_event(ADMIN, market_id, None, 2).unwrap();
    // Every stake is back, the pool is zero, and no fee can ever be
    // collected.
    assert_eq!(engine.balance_of(TOKEN, 3), 10_000_000);
    assert_eq!(engine.get_market(market_id).unwrap().total_pool, 0);
    assert!(engine.collect_fees(ADMIN, market_id, 3).is_err());
    assert!(engine.distribute_payouts(market_id, 3).is_err());
    assert_eq!(engine.vault_balance(TOKEN), 0);
}

#[test]
fn test_cancel_refunds_several_bettors() {
    let (mut engine, market_id) = setup();
    for (user, stake, outcome) in
        [(3, 1_000_000, "yes"), (4, 2_000_000, "no"), (5, 3_000_000, "yes")]
    {
        engine.mint(TOKEN, user, stake);
        engine
            .place_bet(user, market_id, &String::from(outcome), stake, 1)
            .unwrap();
        assert_eq!(engine.balance_of(TOKEN, user), 0);
    }
    engine.cancel_event(ADMIN, market_id, None, 2).unwrap();
    assert_eq!(engine.balance_of(TOKEN, 3), 1_000_000);
    assert_eq!(engine.balance_of(TOKEN, 4), 2_000_000);
    assert_eq!(engine.balance_of(TOKEN, 5), 3_000_000);
    assert_eq!(engine.balance_of(TOKEN, CUSTODY), 0);
}

#[test]
fn test_accumulating_stake_and_split_payout() {
    // A repeated bet accumulates; two winners split pro rata.
    let (mut engine, market_id) = setup();
    engine.mint(TOKEN, 3, 10_000_000);
    engine.mint(TOKEN, 4, 10_000_000);
    engine.mint(TOKEN, 5, 10_000_000);
    engine
        .place_bet(3, market_id, &String::from("yes"), 4_000_000, 1)
        .unwrap();
    engine
        .place_bet(3, market_id, &String::from("yes"), 6_000_000, 2)
        .unwrap();
    engine
        .place_bet(4, market_id, &String::from("yes"), 10_000_000, 3)
        .unwrap();
    engine
        .place_bet(5, market_id, &String::from("no"), 10_000_000, 4)
        .unwrap();
    let end = end_time(&engine, market_id);
    engine
        .resolve_market_manual(ADMIN, market_id, &String::from("yes"), end)
        .unwrap();
    let distributed = engine.distribute_payouts(market_id, end + DAY).unwrap();
    // Pool 30M, fee 600k, net 29.4M, winners hold 10M each of 20M.
    assert_eq!(distributed, 29_400_000);
    assert_eq!(engine.balance_of(TOKEN, 3), 14_700_000);
    assert_eq!(engine.balance_of(TOKEN, 4), 14_700_000);
    assert_eq!(engine.balance_of(TOKEN, 5), 0);
}

#[test]
fn test_zero_winning_stake_still_distributes() {
    // Nobody bet on the winning outcome: zero is distributed, the
    // market still ends Distributed, and the whole net pool stays
    // accounted in the vault.
    let (mut engine, market_id) = setup();
    engine.mint(TOKEN, 3, 10_000_000);
    engine
        .place_bet(3, market_id, &String::from("no"), 10_000_000, 1)
        .unwrap();
    let end = end_time(&engine, market_id);
    engine
        .resolve_market_manual(ADMIN, market_id, &String::from("yes"), end)
        .unwrap();
    let distributed = engine.distribute_payouts(market_id, end + DAY).unwrap();
    assert_eq!(distributed, 0);
    assert_eq!(engine.vault_balance(TOKEN), 10_000_000);
    assert_eq!(engine.balance_of(TOKEN, 3), 0);
}

#[test]
fn test_oracle_resolution_primary() {
    let (mut engine, market_id) = setup();
    engine.mint(TOKEN, 3, 10_000_000);
    engine
        .place_bet(3, market_id, &String::from("yes"), 10_000_000, 1)
        .unwrap();
    let end = end_time(&engine, market_id);
    // Observed 5 > threshold 1: the first outcome ("yes") wins.
    let ix = engine
        .resolve_market_oracle(market_id, Some(5), None, end)
        .unwrap();
    assert_eq!(ix, 0);
    let m = engine.get_market(market_id).unwrap();
    assert!(m.winning[0]);
    assert!(!m.winning[1]);
}

#[test]
fn test_oracle_resolution_comparison_fails() {
    let (mut engine, market_id) = setup();
    let end = end_time(&engine, market_id);
    // Observed 0 is not > 1: the second outcome ("no") wins.
    let ix = engine
        .resolve_market_oracle(market_id, Some(0), None, end)
        .unwrap();
    assert_eq!(ix, 1);
}

#[test]
fn test_oracle_unavailable_then_fallback() {
    let fallback = OracleConfig {
        provider: OracleProvider::Pyth,
        oracle_address: 98,
        feed_id: String::from("RAIN2"),
        threshold: 7,
        comparison: Comparison::LessThan,
    };
    let (mut engine, market_id) = setup_with(Some(fallback), None, None);
    let end = end_time(&engine, market_id);
    // No primary value, timeout (3600s) not yet elapsed: unavailable,
    // the market stays as it was.
    assert_eq!(
        engine.resolve_market_oracle(market_id, None, Some(3), end + 10),
        Err(Error::OracleUnavailable)
    );
    // After the timeout the fallback decides: 3 < 7, "yes" wins.
    let ix = engine
        .resolve_market_oracle(market_id, None, Some(3), end + 3600)
        .unwrap();
    assert_eq!(ix, 0);
}

#[test]
fn test_oracle_unavailable_without_fallback_leaves_market_ended() {
    let (mut engine, market_id) = setup();
    let end = end_time(&engine, market_id);
    assert_eq!(
        engine.resolve_market_oracle(market_id, None, None, end + DAY),
        Err(Error::OracleUnavailable)
    );
    // Manual resolution is still possible.
    engine
        .resolve_market_manual(ADMIN, market_id, &String::from("no"), end + DAY)
        .unwrap();
}

#[test]
fn test_resolution_guards() {
    let (mut engine, market_id) = setup();
    let end = end_time(&engine, market_id);
    // Before the end time: not yet.
    assert_eq!(
        engine.resolve_market_manual(ADMIN, market_id, &String::from("yes"), end - 1),
        Err(Error::DeadlineNotReached)
    );
    // Unknown label.
    assert_eq!(
        engine.resolve_market_manual(ADMIN, market_id, &String::from("maybe"), end),
        Err(Error::UnknownOutcome)
    );
    engine
        .resolve_market_manual(ADMIN, market_id, &String::from("yes"), end)
        .unwrap();
    // A market with a non-empty winning set cannot be resolved again.
    assert!(engine
        .resolve_market_manual(ADMIN, market_id, &String::from("no"), end + 1)
        .is_err());
    assert!(engine
        .resolve_market_oracle(market_id, Some(5), None, end + 1)
        .is_err());
}

#[test]
fn test_below_minimum_pool() {
    let (mut engine, market_id) = setup_with(None, Some(50_000_000), None);
    engine.mint(TOKEN, 3, 10_000_000);
    engine
        .place_bet(3, market_id, &String::from("yes"), 10_000_000, 1)
        .unwrap();
    let end = end_time(&engine, market_id);
    assert_eq!(
        engine.resolve_market_manual(ADMIN, market_id, &String::from("yes"), end),
        Err(Error::BelowMinimumPool)
    );
    // The market can still be cancelled and everyone refunded.
    engine.cancel_event(ADMIN, market_id, None, end).unwrap();
    assert_eq!(engine.balance_of(TOKEN, 3), 10_000_000);
}

#[test]
fn test_pool_ledger_views() {
    let (mut engine, market_id) = setup();
    engine.mint(TOKEN, 3, 10_000_000);
    engine.mint(TOKEN, 4, 5_000_000);
    engine
        .place_bet(3, market_id, &String::from("yes"), 6_000_000, 1)
        .unwrap();
    engine
        .place_bet(3, market_id, &String::from("no"), 4_000_000, 1)
        .unwrap();
    engine
        .place_bet(4, market_id, &String::from("no"), 5_000_000, 1)
        .unwrap();
    let m = engine.get_market(market_id).unwrap();
    assert_eq!(m.bettor_stake(3, 0), 6_000_000);
    assert_eq!(m.bettor_stake(3, 1), 4_000_000);
    assert_eq!(m.bettor_stake(4, 1), 5_000_000);
    assert_eq!(m.bettor_stake(4, 0), 0);
    // Unresolved: the winning set is empty.
    assert_eq!(m.winning_stake(), 0);
    assert_eq!(m.losing_stake(), 15_000_000);
    let end = m.end_time;
    engine
        .resolve_market_manual(ADMIN, market_id, &String::from("no"), end)
        .unwrap();
    let m = engine.get_market(market_id).unwrap();
    assert_eq!(m.winning_stake(), 9_000_000);
    assert_eq!(m.losing_stake(), 6_000_000);
}

#[test]
fn test_vault_withdrawal_bounds() {
    let (mut engine, market_id) = setup();
    engine.mint(TOKEN, 3, 100_000_000);
    engine
        .place_bet(3, market_id, &String::from("yes"), 100_000_000, 1)
        .unwrap();
    let end = end_time(&engine, market_id);
    engine
        .resolve_market_manual(ADMIN, market_id, &String::from("yes"), end)
        .unwrap();
    let fee = engine.collect_fees(ADMIN, market_id, end).unwrap();
    assert_eq!(fee, 2_000_000);
    assert_eq!(
        engine.withdraw_fees(ADMIN, TOKEN, fee + 1),
        Err(Error::InsufficientVaultBalance)
    );
    assert_eq!(engine.withdraw_fees(ADMIN, TOKEN, 500_000), Ok(500_000));
    assert_eq!(engine.vault_balance(TOKEN), 1_500_000);
    assert_eq!(engine.withdraw_fees(ADMIN, TOKEN, 1_500_000), Ok(1_500_000));
    assert_eq!(engine.vault_balance(TOKEN), 0);
    assert_eq!(engine.balance_of(TOKEN, ADMIN), 2_000_000);
}
