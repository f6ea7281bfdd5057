use sweat::contract::Contract;
use sweat::types::TokenError;

const EPS: f64 = 0.00001;

fn sweat_the_token() -> u64 {
    1
}
fn sweat_oracle() -> u64 {
    2
}
fn user1() -> u64 {
    3
}
fn user2() -> u64 {
    4
}

#[test]
fn add_remove_oracle() {
    let mut token = Contract::new(sweat_the_token());
    assert!(token.get_oracles().is_empty());
    token.add_oracle(sweat_the_token(), sweat_oracle()).unwrap();
    assert_eq!(vec![sweat_oracle()], token.get_oracles());
    token.remove_oracle(sweat_the_token(), sweat_oracle()).unwrap();
    assert!(token.get_oracles().is_empty());
}

#[test]
fn oracle_fee_test() {
    let mut token = Contract::new(sweat_the_token());
    assert_eq!(0, token.get_steps_since_tge());
    assert!(token.get_oracles().is_empty());
    token.add_oracle(sweat_the_token(), sweat_oracle()).unwrap();
    assert_eq!(vec![sweat_oracle()], token.get_oracles());
    token
        .record_batch(sweat_oracle(), vec![(user1(), 10_000), (user2(), 10_000)], 0)
        .unwrap();
    assert!((9.499_999_991_723_028 - token.ft_balance_of(user1()) as f64 / 1e+18).abs() < EPS);
    assert!((9.499_999_975_169_082 - token.ft_balance_of(user2()) as f64 / 1e+18).abs() < EPS);
    assert!((0.999_999_998_257_479_4 - token.ft_balance_of(sweat_oracle()) as f64 / 1e+18).abs() < EPS);
    assert_eq!(2 * 10_000, token.get_steps_since_tge());
}

#[test]
fn tge_liquid() {
    let mut token = Contract::new(sweat_the_token());
    assert!(token.get_oracles().is_empty());
    token.add_oracle(sweat_the_token(), sweat_oracle()).unwrap();
    token.tge_mint(sweat_the_token(), user1(), 9499999991723028480).unwrap();
    assert!((9.499_999_991_723_028 - token.ft_balance_of(user1()) as f64 / 1e+18).abs() < EPS);
}

#[test]
fn tge_liquid_batch() {
    let mut token = Contract::new(sweat_the_token());
    assert!(token.get_oracles().is_empty());
    token.add_oracle(sweat_the_token(), sweat_oracle()).unwrap();
    token
        .tge_mint_batch(
            sweat_the_token(),
            vec![(user1(), 9499999991723028480), (user2(), 9499999991723028480)],
        )
        .unwrap();
    assert!((9.499_999_991_723_028 - token.ft_balance_of(user1()) as f64 / 1e+18).abs() < EPS);
    assert!((9.499_999_975_169_082 - token.ft_balance_of(user2()) as f64 / 1e+18).abs() < EPS);
}

#[test]
fn burn() {
    let mut token = Contract::new(sweat_the_token());
    assert!(token.get_oracles().is_empty());
    token.add_oracle(sweat_the_token(), sweat_oracle()).unwrap();
    token.tge_mint(sweat_the_token(), user1(), 9499999991723028480).unwrap();
    token.burn(user1(), 9499999991723028480).unwrap();
    assert!((0.0 - token.ft_balance_of(user1()) as f64 / 1e+18).abs() < EPS);
}

#[test]
fn transfer_to_registered() {
    let mut token = Contract::new(sweat_the_token());
    assert!(token.get_oracles().is_empty());
    token.add_oracle(sweat_the_token(), sweat_oracle()).unwrap();
    token
        .tge_mint_batch(
            sweat_the_token(),
            vec![(user1(), 9499999991723028480), (user2(), 9499999991723028480)],
        )
        .unwrap();
    token.ft_transfer(user1(), user2(), 9499999991723028480).unwrap();
    assert!((0.0 - token.ft_balance_of(user1()) as f64 / 1e+18).abs() < EPS);
    assert!((9.499_999_991_723_028 * 2.0 - token.ft_balance_of(user2()) as f64 / 1e+18).abs() < EPS);
}

#[test]
fn test_steps_from_tge() {
    let mut contract = Contract::new(sweat_the_token());
    assert_eq!(0, contract.get_steps_since_tge());
    contract.add_oracle(sweat_the_token(), sweat_oracle()).unwrap();
    contract.record_batch(sweat_oracle(), vec![(user1(), 10_000)], 0).unwrap();
    assert_eq!(10_000, contract.get_steps_since_tge());
    contract.record_batch(sweat_oracle(), vec![(user1(), 15_000)], 0).unwrap();
    assert_eq!(10_000 + 15_000, contract.get_steps_since_tge());
}

#[test]
fn add_oracle_needs_owner() {
    let mut token = Contract::new(sweat_the_token());
    assert_eq!(
        Err(TokenError::Unauthorized),
        token.add_oracle(sweat_oracle(), sweat_oracle())
    );
    assert!(token.get_oracles().is_empty());
}

#[test]
fn remove_oracle_needs_owner() {
    let mut token = Contract::new(sweat_the_token());
    token.add_oracle(sweat_the_token(), sweat_oracle()).unwrap();
    assert_eq!(
        Err(TokenError::Unauthorized),
        token.remove_oracle(sweat_oracle(), sweat_oracle())
    );
    assert_eq!(vec![sweat_oracle()], token.get_oracles());
}

#[test]
fn add_oracle_twice_rejected() {
    let mut token = Contract::new(sweat_the_token());
    token.add_oracle(sweat_the_token(), sweat_oracle()).unwrap();
    assert_eq!(
        Err(TokenError::AlreadyExists),
        token.add_oracle(sweat_the_token(), sweat_oracle())
    );
}

#[test]
fn remove_missing_oracle_rejected() {
    let mut token = Contract::new(sweat_the_token());
    token.add_oracle(sweat_the_token(), sweat_oracle()).unwrap();
    assert_eq!(
        Err(TokenError::NotAnOracle),
        token.remove_oracle(sweat_the_token(), user1())
    );
}

#[test]
fn record_batch_needs_oracle() {
    let mut token = Contract::new(sweat_the_token());
    token.add_oracle(sweat_the_token(), sweat_oracle()).unwrap();
    assert_eq!(
        Err(TokenError::Unauthorized),
        token.record_batch(user1(), vec![(user1(), 10_000)], 0)
    );
    assert_eq!(0, token.get_steps_since_tge());
}

#[test]
fn tge_mint_needs_owner() {
    let mut token = Contract::new(sweat_the_token());
    assert_eq!(
        Err(TokenError::Unauthorized),
        token.tge_mint(sweat_oracle(), user1(), 1)
    );
}

#[test]
fn tge_mint_overflow_fails_closed() {
    let mut token = Contract::new(sweat_the_token());
    token.tge_mint(sweat_the_token(), user1(), u128::MAX).unwrap();
    assert_eq!(
        Err(TokenError::Overflow),
        token.tge_mint(sweat_the_token(), user2(), 1)
    );
    assert_eq!(u128::MAX, token.ft_total_supply());
    assert_eq!(0, token.ft_balance_of(user2()));
}

#[test]
fn tge_mint_batch_is_atomic() {
    let mut token = Contract::new(sweat_the_token());
    let r = token.tge_mint_batch(
        sweat_the_token(),
        vec![(user1(), u128::MAX), (user2(), 1)],
    );
    assert_eq!(Err(TokenError::Overflow), r);
    assert_eq!(0, token.ft_balance_of(user1()));
    assert_eq!(0, token.ft_total_supply());
}

#[test]
fn burn_more_than_balance_rejected() {
    let mut token = Contract::new(sweat_the_token());
    token.tge_mint(sweat_the_token(), user1(), 100).unwrap();
    assert_eq!(Err(TokenError::InsufficientBalance), token.burn(user1(), 101));
    assert_eq!(Err(TokenError::NotRegistered), token.burn(user2(), 1));
    assert_eq!(100, token.ft_balance_of(user1()));
}

#[test]
fn transfer_errors() {
    let mut token = Contract::new(sweat_the_token());
    token.tge_mint(sweat_the_token(), user1(), 100).unwrap();
    assert_eq!(
        Err(TokenError::SelfTransfer),
        token.ft_transfer(user1(), user1(), 10)
    );
    assert_eq!(
        Err(TokenError::ZeroAmount),
        token.ft_transfer(user1(), user2(), 0)
    );
    assert_eq!(
        Err(TokenError::NotRegistered),
        token.ft_transfer(user1(), user2(), 10)
    );
    assert_eq!(
        Err(TokenError::InsufficientBalance),
        token.ft_transfer(user1(), sweat_the_token(), 101)
    );
    assert_eq!(100, token.ft_balance_of(user1()));
}

#[test]
fn supply_equals_sum_of_balances() {
    let mut token = Contract::new(sweat_the_token());
    token.add_oracle(sweat_the_token(), sweat_oracle()).unwrap();
    token.tge_mint(sweat_the_token(), user1(), 1_000).unwrap();
    token.record_batch(sweat_oracle(), vec![(user1(), 50), (user2(), 70)], 0).unwrap();
    token.ft_transfer(user1(), user2(), 500).unwrap();
    token.burn(user1(), 100).unwrap();
    let sum = token.ft_balance_of(user1())
        + token.ft_balance_of(user2())
        + token.ft_balance_of(sweat_oracle())
        + token.ft_balance_of(sweat_the_token());
    assert_eq!(sum, token.ft_total_supply());
}

#[test]
fn record_batch_skips_unregistered_when_required() {
    let mut token = Contract::new(sweat_the_token());
    token.add_oracle(sweat_the_token(), sweat_oracle()).unwrap();
    token.set_registration_required(sweat_the_token(), true).unwrap();
    token.tge_mint(sweat_the_token(), user1(), 1).unwrap();
    token
        .record_batch(sweat_oracle(), vec![(user1(), 100), (user2(), 100)], 0)
        .unwrap();
    // user2 has no ledger entry: the entry is skipped, but its activity
    // still consumed cumulative-issuance budget.
    assert_eq!(0, token.ft_balance_of(user2()));
    assert!(token.ft_balance_of(user1()) > 1);
    assert_eq!(200, token.get_steps_since_tge());
}

#[test]
fn record_batch_accepts_empty_batch() {
    let mut token = Contract::new(sweat_the_token());
    token.add_oracle(sweat_the_token(), sweat_oracle()).unwrap();
    let events = token.record_batch(sweat_oracle(), vec![], 0).unwrap();
    // Only the aggregate fee event, for zero tokens.
    assert_eq!(1, events.len());
    assert_eq!(0, token.ft_total_supply());
    assert_eq!(0, token.get_steps_since_tge());
}

#[test]
fn record_batch_same_account_twice() {
    let mut token = Contract::new(sweat_the_token());
    token.add_oracle(sweat_the_token(), sweat_oracle()).unwrap();
    token
        .record_batch(sweat_oracle(), vec![(user1(), 100), (user1(), 200)], 0)
        .unwrap();
    assert_eq!(300, token.get_steps_since_tge());
    let sum = token.ft_balance_of(user1()) + token.ft_balance_of(sweat_oracle());
    assert_eq!(sum, token.ft_total_supply());
}
