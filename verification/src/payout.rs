//! Splitting a minted amount into the user's share and the oracle fee.
//!
//! The fee is five percent of the minted amount, rounded up; the user
//! receives the rest.

use vstd::prelude::*;

verus! {

/// The fee taken from a minted amount `v`: `ceil(v * 5 / 100)`, which equals
/// `ceil(v / 20)` and therefore never overflows.
pub open spec fn fee_of(v: int) -> int {
    v / 20 + if v % 20 == 0 { 0int } else { 1int }
}

/// The share of a minted amount `v` that goes to the credited account.
pub open spec fn user_share_of(v: int) -> int {
    v - fee_of(v)
}

/// The fee never exceeds the minted amount, so the user's share is a `u128`.
pub proof fn lemma_fee_bounds(v: int)
    requires
        v >= 0,
    ensures
        0 <= fee_of(v) <= v,
        0 <= user_share_of(v) <= v,
{
    if v == 0 {
        assert(fee_of(0) == 0);
    } else {
        assert(v / 20 >= 0);
        assert(v / 20 * 20 + v % 20 == v);
    }
}

/// A minted amount split into the account's share and the oracle fee.
#[derive(Clone, Copy, Debug, PartialEq, Eq, Structural)]
pub struct Payout {
    pub amount_for_user: u128,
    pub fee: u128,
}

impl From<u128> for Payout {
    /// Splits `value` into `amount_for_user` and `fee`, with
    /// `fee == ceil(value * 5 / 100)` and the two parts summing to `value`.
    fn from(value: u128) -> (r: Payout) {
        proof {
            lemma_fee_bounds(value as int);
        }
        let fee: u128 = value / 20 + if value % 20 == 0 { 0 } else { 1 };
        Payout { fee, amount_for_user: value - fee }
    }
}

impl vstd::std_specs::convert::FromSpecImpl<u128> for Payout {
    open spec fn obeys_from_spec() -> bool {
        true
    }

    open spec fn from_spec(value: u128) -> Payout {
        Payout {
            amount_for_user: user_share_of(value as int) as u128,
            fee: fee_of(value as int) as u128,
        }
    }
}

} // verus!
