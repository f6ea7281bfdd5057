//! Shared value types: errors, emitted events, and configuration policies.

use vstd::prelude::*;

verus! {

/// Why a call was rejected. Every fallible operation states in its `ensures`
/// exactly which inputs produce which variant.
#[derive(Clone, Copy, Debug, PartialEq, Eq, Structural)]
pub enum TokenError {
    /// The caller is not allowed to perform the operation.
    Unauthorized,
    /// A balance, the total supply or the cumulative activity counter would
    /// exceed its representable range; the call leaves no partial effects.
    Overflow,
    /// Not enough execution budget was reserved to guarantee that the
    /// settlement reconciliation can run.
    InsufficientBudget,
    /// The account holds less than the amount to be withdrawn.
    InsufficientBalance,
    /// The account has no entry in the ledger.
    NotRegistered,
    /// The oracle to add is already in the oracle set.
    AlreadyExists,
    /// The oracle to remove is not in the oracle set.
    NotAnOracle,
    /// A transfer of zero tokens, which the ledger rejects.
    ZeroAmount,
    /// A transfer from an account to itself.
    SelfTransfer,
}

/// A supply-changing event, reported to the host for logging.
#[derive(Clone, Copy, Debug, PartialEq, Eq, Structural)]
pub enum TokenEvent {
    /// `amount` tokens were created on `account`.
    Mint { account: u64, amount: u128 },
    /// `amount` tokens were destroyed on `account`.
    Burn { account: u64, amount: u128 },
}

/// How raw activity submitted for an account is throttled before pricing.
#[derive(Clone, Copy, Debug, PartialEq, Eq, Structural)]
pub enum LimiterPolicy {
    /// Every submitted unit is priced immediately.
    NoLimit,
    /// A rolling window caps the units one account may convert per period.
    WindowCap,
    /// Units are buffered for one period and priced on a later submission.
    Purgatory,
}

/// When deferred settlement touches the ledger relative to the external
/// notification of the holding party.
#[derive(Clone, Copy, Debug, PartialEq, Eq, Structural)]
pub enum SettlementPolicy {
    /// Credit immediately, burn back if the notification fails.
    OptimisticCredit,
    /// Credit only once the notification is acknowledged.
    ConfirmThenCredit,
}

} // verus!
