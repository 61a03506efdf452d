use predictify_hybrid::engine::Engine;
use predictify_hybrid::errors::Error;
use predictify_hybrid::market::Phase;
use predictify_hybrid::oracle::{Comparison, OracleConfig, OracleProvider};

const ADMIN: u64 = 1;
const CUSTODY: u64 = 2;
const TOKEN: u64 = 10;
const DAY: u64 = 86400;

fn rain_oracle() -> OracleConfig {
    OracleConfig {
        provider: OracleProvider::Reflector,
        oracle_address: 99,
        feed_id: String::from("RAIN"),
        threshold: 1,
        comparison: Comparison::GreaterThan,
    }
}

/// An engine with one market: "Will it rain?" with outcomes "yes" and
/// "no", thirty days long, created at time zero.  Returns the engine
/// and the market id.
fn setup() -> (Engine, u64) {
    let mut engine = Engine::new(ADMIN, CUSTODY);
    let market_id = engine
        .create_market(
            ADMIN,
            String::from("Will it rain?"),
            vec![String::from("yes"), String::from("no")],
            30,
            rain_oracle(),
            None,
            3600,
            TOKEN,
            None,
            None,
            None,
            0,
        )
        .unwrap();
    (engine, market_id)
}

fn end_time(engine: &Engine, market_id: u64) -> u64 {
    engine.get_market(market_id).unwrap().end_time
}

#[test]
fn test_bet_placement_with_custom_token() {
    let (mut engine, market_id) = setup();
    let user = 3;
    let bet_amount = 10_000_000; // 1 token

    // Mint tokens to user
    engine.mint(TOKEN, user, 100_000_000); // 10 tokens

    // Place bet
    engine
        .place_bet(user, market_id, &String::from("yes"), bet_amount, 1)
        .unwrap();

    // Verify balance decreased
    assert_eq!(engine.balance_of(TOKEN, user), 90_000_000);

    // Verify custody balance increased
    assert_eq!(engine.balance_of(TOKEN, CUSTODY), bet_amount);
}

#[test]
fn test_insufficient_balance() {
    let (mut engine, market_id) = setup();
    let user = 3;
    let bet_amount = 10_000_000;

    // Mint LESS tokens than bet amount
    engine.mint(TOKEN, user, 5_000_000); // 0.5 tokens

    // Attempt to place bet
    let result = engine.place_bet(user, market_id, &String::from("yes"), bet_amount, 1);

    // Should return an error from the failed transfer
    assert!(result.is_err());
}

#[test]
fn test_payout_distribution_flow() {
    let (mut engine, market_id) = setup();
    let user_winner = 3;
    let user_loser = 4;
    let bet_amount = 10_000_000;

    // Mint tokens
    engine.mint(TOKEN, user_winner, 100_000_000);
    engine.mint(TOKEN, user_loser, 100_000_000);

    // Place bets
    engine
        .place_bet(user_winner, market_id, &String::from("yes"), bet_amount, 1)
        .unwrap();
    engine
        .place_bet(user_loser, market_id, &String::from("no"), bet_amount, 1)
        .unwrap();

    // Advance time to end market but NOT past dispute window
    let end = end_time(&engine, market_id);

    // Resolve market manually (Admin decides "yes")
    engine
        .resolve_market_manual(ADMIN, market_id, &String::from("yes"), end + 1)
        .unwrap();

    // Verify market is resolved but no payout distributed yet
    let market_after = engine.get_market(market_id).unwrap();
    assert!(market_after.winning.iter().any(|w| *w));
    assert_eq!(engine.balance_of(TOKEN, user_winner), 90_000_000);

    // Distribute payouts after the dispute window (24h default)
    let total_distributed = engine
        .distribute_payouts(market_id, end + DAY + 1)
        .unwrap();
    assert!(total_distributed > 0);

    // Winner staked 10M, Loser staked 10M. Total pool 20M.
    // Fee 2% = 400k. Payout pool = 19.6M.
    // Winner share = 100%. Payout = 19.6M.
    // Final balance = 90M + 19.6M = 109.6M
    assert_eq!(engine.balance_of(TOKEN, user_winner), 109_600_000);

    // Loser gets nothing
    assert_eq!(engine.balance_of(TOKEN, user_loser), 90_000_000);
}

#[test]
fn test_switch_token_support() {
    // Each market is bound to its value token at creation for its
    // whole lifetime; a second market may be bound to another token,
    // and the two settle independently.
    let (mut engine, market1) = setup();

    // 1. Betting on the first market moves Token 1
    let user1 = 3;
    engine.mint(TOKEN, user1, 10_000_000);
    engine
        .place_bet(user1, market1, &String::from("yes"), 10_000_000, 1)
        .unwrap();
    assert_eq!(engine.balance_of(TOKEN, user1), 0);

    // 2. Create a second market bound to Token 2
    let token2 = 11;
    let market2 = engine
        .create_market(
            ADMIN,
            String::from("Will it rain tomorrow?"),
            vec![String::from("yes"), String::from("no")],
            30,
            rain_oracle(),
            None,
            3600,
            token2,
            None,
            None,
            None,
            0,
        )
        .unwrap();

    // 3. Betting on the second market moves Token 2
    let user2 = 4;
    engine.mint(token2, user2, 20_000_000);
    engine
        .place_bet(user2, market2, &String::from("no"), 20_000_000, 1)
        .unwrap();

    // Verify balances for Token 2
    assert_eq!(engine.balance_of(token2, user2), 0);
    assert_eq!(engine.balance_of(token2, CUSTODY), 20_000_000);

    // Verify Token 1 balances are unchanged
    assert_eq!(engine.balance_of(TOKEN, CUSTODY), 10_000_000);
}

#[test]
fn test_cancel_refund_custom_token() {
    let (mut engine, market_id) = setup();
    let user = 3;
    let bet_amount = 10_000_000;

    // Mint tokens
    engine.mint(TOKEN, user, 20_000_000);

    // Place bet
    engine
        .place_bet(user, market_id, &String::from("yes"), bet_amount, 1)
        .unwrap();

    // Verify balance before cancellation
    assert_eq!(engine.balance_of(TOKEN, user), 10_000_000);
    assert_eq!(engine.balance_of(TOKEN, CUSTODY), bet_amount);

    // Cancel event
    engine
        .cancel_event(ADMIN, market_id, Some(String::from("Technical issue")), 2)
        .unwrap();

    // Verify balance after cancellation (should be refunded)
    assert_eq!(engine.balance_of(TOKEN, user), 20_000_000);
    assert_eq!(engine.balance_of(TOKEN, CUSTODY), 0);
}

#[test]
fn test_fee_collection_custom_token() {
    let (mut engine, market_id) = setup();
    let user = 3;
    let bet_amount = 100_000_000;

    // Mint tokens
    engine.mint(TOKEN, user, bet_amount);

    // Place bet
    engine
        .place_bet(user, market_id, &String::from("yes"), bet_amount, 1)
        .unwrap();

    // Advance time to end market, then resolve
    let end = end_time(&engine, market_id);
    engine
        .resolve_market_manual(ADMIN, market_id, &String::from("yes"), end + 1)
        .unwrap();

    // Collect fees
    let fee_amount = engine.collect_fees(ADMIN, market_id, end + 1).unwrap();

    // Verify admin balance has not increased yet (fees are in vault)
    assert_eq!(engine.balance_of(TOKEN, ADMIN), 0);

    // Withdraw fees from vault
    let withdrawn_amount = engine.withdraw_fees(ADMIN, TOKEN, fee_amount).unwrap();
    assert_eq!(withdrawn_amount, fee_amount);

    // Verify admin balance increased by withdrawn amount
    assert_eq!(engine.balance_of(TOKEN, ADMIN), fee_amount);
}

#[test]
fn test_market_lifecycle_phases() {
    let (mut engine, market_id) = setup();
    let user = 3;
    engine.mint(TOKEN, user, 10_000_000);
    engine
        .place_bet(user, market_id, &String::from("yes"), 10_000_000, 1)
        .unwrap();
    assert_eq!(engine.get_market(market_id).unwrap().phase, Phase::Active);

    let end = end_time(&engine, market_id);
    engine
        .resolve_market_manual(ADMIN, market_id, &String::from("yes"), end)
        .unwrap();
    assert_eq!(engine.get_market(market_id).unwrap().phase, Phase::Resolved);

    engine.distribute_payouts(market_id, end + DAY).unwrap();
    assert_eq!(
        engine.get_market(market_id).unwrap().phase,
        Phase::Distributed
    );

    // Terminal: no bet, no cancel, no second resolution
    engine.mint(TOKEN, user, 1_000_000);
    assert!(engine
        .place_bet(user, market_id, &String::from("yes"), 1_000_000, end + DAY)
        .is_err());
    assert!(engine.cancel_event(ADMIN, market_id, None, end + DAY).is_err());
    assert!(engine
        .resolve_market_manual(ADMIN, market_id, &String::from("no"), end + DAY)
        .is_err());
}

#[test]
fn test_unknown_market_and_outcome() {
    let (mut engine, market_id) = setup();
    let user = 3;
    engine.mint(TOKEN, user, 10_000_000);
    assert_eq!(
        engine.place_bet(user, 7, &String::from("yes"), 1_000_000, 1),
        Err(Error::MarketNotFound)
    );
    assert_eq!(
        engine.place_bet(user, market_id, &String::from("maybe"), 1_000_000, 1),
        Err(Error::UnknownOutcome)
    );
    assert_eq!(
        engine.place_bet(user, market_id, &String::from("yes"), 0, 1),
        Err(Error::ZeroAmount)
    );
    // Nothing moved
    assert_eq!(engine.balance_of(TOKEN, user), 10_000_000);
    assert_eq!(engine.balance_of(TOKEN, CUSTODY), 0);
}

#[test]
fn test_invalid_outcome_sets() {
    let mut engine = Engine::new(ADMIN, CUSTODY);
    // Fewer than two outcomes
    assert_eq!(
        engine.create_market(
            ADMIN,
            String::from("Will it rain?"),
            vec![String::from("yes")],
            30,
            rain_oracle(),
            None,
            3600,
            TOKEN,
            None,
            None,
            None,
            0,
        ),
        Err(Error::InvalidOutcomes)
    );
    // Duplicate labels
    assert_eq!(
        engine.create_market(
            ADMIN,
            String::from("Will it rain?"),
            vec![String::from("yes"), String::from("yes")],
            30,
            rain_oracle(),
            None,
            3600,
            TOKEN,
            None,
            None,
            None,
            0,
        ),
        Err(Error::InvalidOutcomes)
    );
    // Not the administrator
    assert_eq!(
        engine.create_market(
            5,
            String::from("Will it rain?"),
            vec![String::from("yes"), String::from("no")],
            30,
            rain_oracle(),
            None,
            3600,
            TOKEN,
            None,
            None,
            None,
            0,
        ),
        Err(Error::UnauthorizedCaller)
    );
}

#[test]
fn test_unauthorized_admin_operations() {
    let (mut engine, market_id) = setup();
    let outsider = 7;
    let end = end_time(&engine, market_id);
    assert_eq!(
        engine.resolve_market_manual(outsider, market_id, &String::from("yes"), end + 1),
        Err(Error::UnauthorizedCaller)
    );
    assert_eq!(
        engine.cancel_event(outsider, market_id, None, 1),
        Err(Error::UnauthorizedCaller)
    );
    assert_eq!(
        engine.collect_fees(outsider, market_id, end + 1),
        Err(Error::UnauthorizedCaller)
    );
    assert_eq!(
        engine.withdraw_fees(outsider, TOKEN, 1),
        Err(Error::UnauthorizedCaller)
    );
}
