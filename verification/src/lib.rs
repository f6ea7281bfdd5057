//! Accounting core of a reward-token ledger: an issuance curve that prices
//! activity against cumulative issuance, a per-account rate limiter and
//! purgatory buffer, a batch recorder that splits an oracle fee, and a
//! two-phase deferred-settlement protocol with reconciliation.

pub mod assoc;
pub mod contract;
pub mod curve;
pub mod ledger;
pub mod payout;
pub mod purgatory;
pub mod rate;
pub mod settle;
pub mod types;
