use sweat::contract::Contract;
use sweat::rate::{STEP_LIMIT, WINDOW_NANOS};
use sweat::types::LimiterPolicy;

const OWNER: u64 = 1;
const ORACLE: u64 = 2;
const ALICE: u64 = 3;

fn limited_contract() -> Contract {
    let mut token = Contract::new(OWNER);
    token.add_oracle(OWNER, ORACLE).unwrap();
    token.set_limiter_policy(OWNER, LimiterPolicy::WindowCap).unwrap();
    token
}

fn purgatory_contract() -> Contract {
    let mut token = Contract::new(OWNER);
    token.add_oracle(OWNER, ORACLE).unwrap();
    token.set_limiter_policy(OWNER, LimiterPolicy::Purgatory).unwrap();
    token
}

#[test]
fn rate_cap_limits_one_window() {
    // LIMIT = 20_000: 10_000 granted, then 10_000, then nothing.
    assert_eq!(20_000, STEP_LIMIT);
    let mut token = limited_contract();
    let now: u64 = 1;
    token.record_batch(ORACLE, vec![(ALICE, 10_000)], now).unwrap();
    assert_eq!(10_000, token.get_steps_since_tge());
    token.record_batch(ORACLE, vec![(ALICE, 10_000)], now).unwrap();
    assert_eq!(20_000, token.get_steps_since_tge());
    let balance_after_cap = token.ft_balance_of(ALICE);
    token.record_batch(ORACLE, vec![(ALICE, 10_000)], now).unwrap();
    assert_eq!(20_000, token.get_steps_since_tge());
    assert_eq!(balance_after_cap, token.ft_balance_of(ALICE));
}

#[test]
fn rate_cap_truncates_overshoot() {
    let mut token = limited_contract();
    let now: u64 = 1;
    token.record_batch(ORACLE, vec![(ALICE, 15_000)], now).unwrap();
    assert_eq!(15_000, token.get_steps_since_tge());
    token.record_batch(ORACLE, vec![(ALICE, 15_000)], now).unwrap();
    // Only 5_000 still fit under the cap.
    assert_eq!(20_000, token.get_steps_since_tge());
}

#[test]
fn rate_cap_resets_after_window() {
    let mut token = limited_contract();
    token.record_batch(ORACLE, vec![(ALICE, 20_000)], 1).unwrap();
    assert_eq!(20_000, token.get_steps_since_tge());
    token.record_batch(ORACLE, vec![(ALICE, 20_000)], 1 + WINDOW_NANOS).unwrap();
    assert_eq!(40_000, token.get_steps_since_tge());
}

#[test]
fn purgatory_first_submission_only_buffers() {
    let mut token = purgatory_contract();
    token.record_batch(ORACLE, vec![(ALICE, 10_000)], 5).unwrap();
    assert_eq!(0, token.get_steps_since_tge());
    assert_eq!(0, token.ft_balance_of(ALICE));
    assert_eq!(0, token.ft_total_supply());
}

#[test]
fn purgatory_finalizes_after_one_window() {
    let mut token = purgatory_contract();
    token.record_batch(ORACLE, vec![(ALICE, 4_000)], 5).unwrap();
    token.record_batch(ORACLE, vec![(ALICE, 6_000)], 100).unwrap();
    // Still within the window: accumulate only.
    assert_eq!(0, token.get_steps_since_tge());
    token
        .record_batch(ORACLE, vec![(ALICE, 1)], 5 + WINDOW_NANOS + 1)
        .unwrap();
    // The buffered 10_000 units are priced; the new unit starts buffering.
    assert_eq!(10_000, token.get_steps_since_tge());
    assert!(token.ft_balance_of(ALICE) > 0);
}

#[test]
fn purgatory_forfeits_stale_buffer() {
    let mut token = purgatory_contract();
    token.record_batch(ORACLE, vec![(ALICE, 10_000)], 5).unwrap();
    token
        .record_batch(ORACLE, vec![(ALICE, 7)], 5 + 2 * WINDOW_NANOS + 1)
        .unwrap();
    // More than two windows elapsed: the buffered activity is discarded,
    // never priced — the supply did not grow on its account.
    assert_eq!(0, token.get_steps_since_tge());
    assert_eq!(0, token.ft_balance_of(ALICE));
    assert_eq!(0, token.ft_total_supply());
}

#[test]
fn purgatory_caps_finalized_activity() {
    let mut token = purgatory_contract();
    token.record_batch(ORACLE, vec![(ALICE, 50_000)], 5).unwrap();
    token
        .record_batch(ORACLE, vec![(ALICE, 1)], 5 + WINDOW_NANOS + 1)
        .unwrap();
    // The buffer is priced only up to the purgatory cap of 20_000.
    assert_eq!(20_000, token.get_steps_since_tge());
}

#[test]
fn rate_cap_applies_within_one_batch() {
    let mut token = limited_contract();
    token
        .record_batch(ORACLE, vec![(ALICE, 15_000), (ALICE, 15_000)], 1)
        .unwrap();
    // The second entry of the same batch sees the first one's grant.
    assert_eq!(20_000, token.get_steps_since_tge());
}
