use sweat::contract::Contract;
use sweat::curve::{compute_price, SEG_LEN, TAIL_REWARD};
use sweat::payout::Payout;

#[test]
fn price_of_first_unit() {
    assert_eq!(1_000_000_000_000_000, compute_price(0, 1));
}

#[test]
fn price_of_first_claim() {
    // 10_000 * 10^15 minus the slope-16 arithmetic series over [0, 10_000).
    assert_eq!(9_999_999_999_200_080_000, compute_price(0, 10_000));
}

#[test]
fn price_of_second_claim() {
    assert_eq!(9_999_999_997_600_080_000, compute_price(10_000, 10_000));
}

#[test]
fn formula_method_matches_compute_price() {
    let token = Contract::new(1);
    assert_eq!(compute_price(10_000, 777), token.formula(10_000, 777));
}

#[test]
fn price_monotone_in_cumulative() {
    let mut previous: u128 = u128::MAX;
    for n in [0u64, 1, 10_000, 1_000_000_000, SEG_LEN - 1, SEG_LEN, 40 * SEG_LEN, 126 * SEG_LEN] {
        let p = compute_price(n, 10_000);
        assert!(p <= previous);
        previous = p;
    }
}

#[test]
fn price_additive_exactly() {
    assert_eq!(
        compute_price(0, 10_000),
        compute_price(0, 4_000) + compute_price(4_000, 6_000)
    );
}

#[test]
fn price_additive_across_segment_boundary() {
    let near_end = SEG_LEN - 5;
    assert_eq!(
        compute_price(near_end, 10),
        compute_price(near_end, 5) + compute_price(SEG_LEN, 5)
    );
}

#[test]
fn price_in_tail_is_linear() {
    let deep = 125 * SEG_LEN;
    assert_eq!(1_000 * TAIL_REWARD, compute_price(deep, 1_000));
    assert_eq!(compute_price(deep, 1_000), compute_price(deep + 7 * SEG_LEN, 1_000));
}

#[test]
fn payout_split_is_five_percent_rounded_up() {
    let p = Payout::from(10_000);
    assert_eq!(500, p.fee);
    assert_eq!(9_500, p.amount_for_user);

    let p = Payout::from(0);
    assert_eq!(0, p.fee);
    assert_eq!(0, p.amount_for_user);

    let p = Payout::from(1);
    assert_eq!(1, p.fee);
    assert_eq!(0, p.amount_for_user);

    let p = Payout::from(19);
    assert_eq!(1, p.fee);
    assert_eq!(18, p.amount_for_user);

    let p = Payout::from(21);
    assert_eq!(2, p.fee);
    assert_eq!(19, p.amount_for_user);
}

#[test]
fn payout_split_never_overflows() {
    let p = Payout::from(u128::MAX);
    assert_eq!(u128::MAX, p.fee + p.amount_for_user);
}

#[test]
fn batch_payout_totals() {
    let token = Contract::new(1);
    let (total_fee, total_for_user) = token.calculate_payout_with_fee_for_batch(2, 10_000);
    let m0 = compute_price(0, 10_000);
    let m1 = compute_price(10_000, 10_000);
    let p0 = Payout::from(m0);
    let p1 = Payout::from(m1);
    assert_eq!(p0.fee + p1.fee, total_fee);
    assert_eq!(p0.amount_for_user + p1.amount_for_user, total_for_user);
}

#[test]
fn price_of_largest_delta() {
    let whole = compute_price(0, u32::MAX);
    let split = compute_price(0, u32::MAX - 1) + compute_price((u32::MAX - 1) as u64, 1);
    assert_eq!(whole, split);
    assert!(whole > 0);
}

#[test]
fn tokens_amount_splits_current_price() {
    let mut token = Contract::new(1);
    token.add_oracle(1, 2).unwrap();
    let (for_user, fee) = token.calculate_tokens_amount(10_000);
    let expected = Payout::from(compute_price(0, 10_000));
    assert_eq!(expected.amount_for_user, for_user);
    assert_eq!(expected.fee, fee);
}
