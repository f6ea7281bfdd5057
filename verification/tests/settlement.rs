use sweat::contract::Contract;
use sweat::curve::compute_price;
use sweat::settle::GAS_FOR_DEFER;
use sweat::types::{SettlementPolicy, TokenError, TokenEvent};

const OWNER: u64 = 1;
const ORACLE: u64 = 2;
const ALICE: u64 = 3;
const HOLDER: u64 = 9;
const ENOUGH_GAS: u64 = 300_000_000_000_000;

fn contract_with_oracle() -> Contract {
    let mut token = Contract::new(OWNER);
    token.add_oracle(OWNER, ORACLE).unwrap();
    token
}

#[test]
fn single_record_batch_exact_amounts() {
    // Batch [(alice, 10_000)] on an empty ledger with a five percent fee.
    let mut token = contract_with_oracle();
    let minted = compute_price(0, 10_000);
    assert_eq!(9_999_999_999_200_080_000, minted);
    let fee = minted / 20 + if minted % 20 == 0 { 0 } else { 1 };
    let events = token.record_batch(ORACLE, vec![(ALICE, 10_000)], 0).unwrap();
    assert_eq!(minted - fee, token.ft_balance_of(ALICE));
    assert_eq!(fee, token.ft_balance_of(ORACLE));
    assert_eq!(10_000, token.get_steps_since_tge());
    assert_eq!(
        vec![
            TokenEvent::Mint { account: ALICE, amount: minted - fee },
            TokenEvent::Mint { account: ORACLE, amount: fee },
        ],
        events
    );
}

#[test]
fn defer_needs_gas_and_oracle() {
    let mut token = contract_with_oracle();
    assert!(matches!(
        token.defer_batch(ORACLE, vec![(ALICE, 10_000)], HOLDER, GAS_FOR_DEFER, 0),
        Err(TokenError::InsufficientBudget)
    ));
    assert!(matches!(
        token.defer_batch(ALICE, vec![(ALICE, 10_000)], HOLDER, ENOUGH_GAS, 0),
        Err(TokenError::Unauthorized)
    ));
    assert_eq!(0, token.get_steps_since_tge());
}

#[test]
fn defer_confirm_then_credit_success() {
    let mut token = contract_with_oracle();
    let minted = compute_price(0, 10_000);
    let fee = minted / 20;
    let net = minted - fee;
    let (pending, events) = token
        .defer_batch(ORACLE, vec![(ALICE, 10_000)], HOLDER, ENOUGH_GAS, 0)
        .unwrap();
    // Phase 1 under confirm-then-credit touches no balance, but the
    // cumulative counter already advanced.
    assert!(events.is_empty());
    assert_eq!(0, token.ft_total_supply());
    assert_eq!(10_000, token.get_steps_since_tge());
    assert_eq!(HOLDER, pending.receiver);
    assert_eq!(ORACLE, pending.fee_account);
    assert_eq!(fee, pending.total_fee);
    assert_eq!(net, pending.total_net);
    assert_eq!(vec![(ALICE, net)], pending.amounts);

    let events = token.on_record(OWNER, pending, true).unwrap();
    assert_eq!(fee + net, token.ft_total_supply());
    assert_eq!(fee, token.ft_balance_of(ORACLE));
    assert_eq!(net, token.ft_balance_of(HOLDER));
    assert_eq!(0, token.ft_balance_of(ALICE));
    assert_eq!(
        vec![
            TokenEvent::Mint { account: ORACLE, amount: fee },
            TokenEvent::Mint { account: HOLDER, amount: net },
        ],
        events
    );
}

#[test]
fn defer_confirm_then_credit_failure_changes_nothing() {
    let mut token = contract_with_oracle();
    let (pending, _) = token
        .defer_batch(ORACLE, vec![(ALICE, 10_000)], HOLDER, ENOUGH_GAS, 0)
        .unwrap();
    let events = token.on_record(OWNER, pending, false).unwrap();
    assert!(events.is_empty());
    assert_eq!(0, token.ft_total_supply());
    assert_eq!(0, token.ft_balance_of(HOLDER));
    assert_eq!(0, token.ft_balance_of(ORACLE));
    // The counter reflects activity consumed, not tokens settled.
    assert_eq!(10_000, token.get_steps_since_tge());
}

#[test]
fn defer_optimistic_failure_burns_back() {
    let mut token = contract_with_oracle();
    token.set_settlement_policy(OWNER, SettlementPolicy::OptimisticCredit).unwrap();
    let supply_before = token.ft_total_supply();
    let holder_before = token.ft_balance_of(HOLDER);
    let oracle_before = token.ft_balance_of(ORACLE);
    let (pending, events) = token
        .defer_batch(ORACLE, vec![(ALICE, 10_000)], HOLDER, ENOUGH_GAS, 0)
        .unwrap();
    // Optimistic credit: balances already moved in phase 1.
    assert_eq!(2, events.len());
    assert_eq!(pending.total_net, token.ft_balance_of(HOLDER));
    assert_eq!(pending.total_fee, token.ft_balance_of(ORACLE));

    let fee = pending.total_fee;
    let net = pending.total_net;
    let events = token.on_record(OWNER, pending, false).unwrap();
    // The compensating burn pair is observable, and the balances equal
    // those before the deferred call: a net zero supply change.
    assert_eq!(
        vec![
            TokenEvent::Burn { account: ORACLE, amount: fee },
            TokenEvent::Burn { account: HOLDER, amount: net },
        ],
        events
    );
    assert_eq!(supply_before, token.ft_total_supply());
    assert_eq!(holder_before, token.ft_balance_of(HOLDER));
    assert_eq!(oracle_before, token.ft_balance_of(ORACLE));
}

#[test]
fn defer_optimistic_success_keeps_credits() {
    let mut token = contract_with_oracle();
    token.set_settlement_policy(OWNER, SettlementPolicy::OptimisticCredit).unwrap();
    let (pending, _) = token
        .defer_batch(ORACLE, vec![(ALICE, 10_000)], HOLDER, ENOUGH_GAS, 0)
        .unwrap();
    let fee = pending.total_fee;
    let net = pending.total_net;
    let events = token.on_record(OWNER, pending, true).unwrap();
    assert!(events.is_empty());
    assert_eq!(fee + net, token.ft_total_supply());
}

#[test]
fn on_record_is_owner_only() {
    let mut token = contract_with_oracle();
    let (pending, _) = token
        .defer_batch(ORACLE, vec![(ALICE, 10_000)], HOLDER, ENOUGH_GAS, 0)
        .unwrap();
    assert_eq!(
        Err(TokenError::Unauthorized),
        token.on_record(ORACLE, pending, true)
    );
}

#[test]
fn burn_back_fails_when_credits_were_moved() {
    let mut token = contract_with_oracle();
    token.set_settlement_policy(OWNER, SettlementPolicy::OptimisticCredit).unwrap();
    let (pending, _) = token
        .defer_batch(ORACLE, vec![(ALICE, 10_000)], HOLDER, ENOUGH_GAS, 0)
        .unwrap();
    // Between the two activations another call drains the holder.
    let drained = token.ft_balance_of(HOLDER);
    token.burn(HOLDER, drained).unwrap();
    assert_eq!(
        Err(TokenError::InsufficientBalance),
        token.on_record(OWNER, pending, false)
    );
}
