//! The token contract: the oracle set, the ledger, the cumulative activity
//! counter, the per-account throttle records, and the operations an oracle
//! or the owner may invoke on them.

use crate::assoc::{
    dup_entries, get_entry, get_val, has_key, lemma_put_get, lemma_put_unique, put_entry, put_val,
    unique_keys,
};
use crate::curve::{compute_price, lemma_price_bounds, price, START_REWARD};
use crate::ledger::Ledger;
use crate::payout::{fee_of, lemma_fee_bounds, user_share_of, Payout};
use crate::purgatory::{apply_purgatory, purg_next, purg_priced};
use crate::rate::{apply_rate, rate_granted, rate_next, STEP_LIMIT};
use crate::types::{LimiterPolicy, SettlementPolicy, TokenError, TokenEvent};
use vstd::prelude::*;

verus! {

/// Ghost state threaded through the pricing of a batch, entry by entry: the
/// cumulative activity counter, the throttle records, and the priced
/// entries `(account, user share, fee)` produced so far.
pub ghost struct GrantState {
    pub steps: int,
    pub limits: Seq<(u64, (u32, u64))>,
    pub purg: Seq<(u64, (u64, u64))>,
    pub entries: Seq<(u64, u128, u128)>,
}

/// How much of one submission the active throttle lets through.
pub open spec fn entry_granted(
    st: GrantState,
    account: u64,
    requested: u32,
    now: u64,
    pol: LimiterPolicy,
) -> u64 {
    match pol {
        LimiterPolicy::NoLimit => requested as u64,
        LimiterPolicy::WindowCap => rate_granted(
            get_val(st.limits, account, (0u32, 0u64)),
            requested,
            now,
        ) as u64,
        LimiterPolicy::Purgatory => purg_priced(get_val(st.purg, account, (0u64, 0u64)), now),
    }
}

/// Pricing one batch entry: throttle the submission, price the granted
/// activity at the current counter, split off the fee, advance the counter.
/// Entries within one batch therefore see each other's effect on the curve.
pub open spec fn grant_entry(
    st: GrantState,
    account: u64,
    requested: u32,
    now: u64,
    pol: LimiterPolicy,
) -> GrantState {
    let g = entry_granted(st, account, requested, now, pol);
    let minted = price(st.steps, g as nat);
    let fee = fee_of(minted);
    GrantState {
        steps: st.steps + g,
        limits: if pol is WindowCap {
            put_val(
                st.limits,
                account,
                rate_next(get_val(st.limits, account, (0u32, 0u64)), requested, now),
            )
        } else {
            st.limits
        },
        purg: if pol is Purgatory {
            put_val(
                st.purg,
                account,
                purg_next(get_val(st.purg, account, (0u64, 0u64)), requested, now),
            )
        } else {
            st.purg
        },
        entries: st.entries.push((account, (minted - fee) as u128, fee as u128)),
    }
}

/// Pricing a whole batch, first entry first.
pub open spec fn grant_batch(
    st: GrantState,
    batch: Seq<(u64, u32)>,
    now: u64,
    pol: LimiterPolicy,
) -> GrantState
    decreases batch.len(),
{
    if batch.len() == 0 {
        st
    } else {
        grant_batch(
            grant_entry(st, batch[0].0, batch[0].1, now, pol),
            batch.drop_first(),
            now,
            pol,
        )
    }
}

/// The grant state a contract starts a batch from.
pub open spec fn grant_init(c: Contract) -> GrantState {
    GrantState {
        steps: c.steps() as int,
        limits: c.limits_view(),
        purg: c.purg_view(),
        entries: Seq::empty(),
    }
}

/// The cumulative counter never moves backwards over a batch.
proof fn lemma_grant_steps_monotone(
    st: GrantState,
    batch: Seq<(u64, u32)>,
    now: u64,
    pol: LimiterPolicy,
)
    ensures
        grant_batch(st, batch, now, pol).steps >= st.steps,
    decreases batch.len(),
{
    if batch.len() > 0 {
        lemma_grant_steps_monotone(
            grant_entry(st, batch[0].0, batch[0].1, now, pol),
            batch.drop_first(),
            now,
            pol,
        );
    }
}

/// Purgatory forfeiture at the recorder: a submission that finds an
/// account's buffer stale — no follow-up within two windows of its start —
/// prices nothing at all: the cumulative counter does not move and the
/// entry recorded for the account carries a zero share and a zero fee, so
/// the supply cannot grow on the forfeited buffer's account.
pub proof fn lemma_forfeited_buffer_never_priced(
    st: GrantState,
    account: u64,
    requested: u32,
    now: u64,
)
    requires
        crate::purgatory::purg_forfeits(get_val(st.purg, account, (0u64, 0u64)), now),
    ensures
        grant_entry(st, account, requested, now, LimiterPolicy::Purgatory).steps == st.steps,
        grant_entry(st, account, requested, now, LimiterPolicy::Purgatory).entries
            == st.entries.push((account, 0u128, 0u128)),
{
    assert(entry_granted(st, account, requested, now, LimiterPolicy::Purgatory) == 0);
    assert(price(st.steps, 0) == 0);
}

/// Total fee carried by a list of priced entries.
pub open spec fn fee_total(es: Seq<(u64, u128, u128)>) -> int
    decreases es.len(),
{
    if es.len() == 0 {
        0
    } else {
        es[0].2 + fee_total(es.drop_first())
    }
}

/// The user share one priced entry credits: nothing when registration is
/// required and the account has no ledger entry (the entry is skipped), the
/// full share otherwise.
pub open spec fn entry_credit(e: (u64, u128, u128), required: bool, led: Ledger) -> int {
    if !required || led.registered(e.0) {
        e.1 as int
    } else {
        0
    }
}

/// Total user share a list of priced entries credits.
pub open spec fn credited_total(es: Seq<(u64, u128, u128)>, required: bool, led: Ledger) -> int
    decreases es.len(),
{
    if es.len() == 0 {
        0
    } else {
        entry_credit(es[0], required, led) + credited_total(es.drop_first(), required, led)
    }
}

/// User share a list of priced entries credits to one account.
pub open spec fn credited_for(
    es: Seq<(u64, u128, u128)>,
    b: u64,
    required: bool,
    led: Ledger,
) -> int
    decreases es.len(),
{
    if es.len() == 0 {
        0
    } else {
        (if es[0].0 == b {
            entry_credit(es[0], required, led)
        } else {
            0
        }) + credited_for(es.drop_first(), b, required, led)
    }
}

/// Whether a list of priced entries names account `b`.
pub open spec fn entry_has(es: Seq<(u64, u128, u128)>, b: u64) -> bool
    decreases es.len(),
{
    if es.len() == 0 {
        false
    } else {
        es[0].0 == b || entry_has(es.drop_first(), b)
    }
}

pub proof fn lemma_entry_totals_nonneg(
    es: Seq<(u64, u128, u128)>,
    b: u64,
    required: bool,
    led: Ledger,
)
    ensures
        0 <= fee_total(es),
        0 <= credited_total(es, required, led),
        0 <= credited_for(es, b, required, led),
    decreases es.len(),
{
    if es.len() > 0 {
        lemma_entry_totals_nonneg(es.drop_first(), b, required, led);
    }
}

/// All keys of a sequence are pairwise distinct.
pub open spec fn distinct_seq(s: Seq<u64>) -> bool {
    forall|i: int, j: int| 0 <= i < j < s.len() ==> s[i] != s[j]
}

/// Total amount carried by a mint batch.
pub open spec fn mint_total(batch: Seq<(u64, u128)>) -> int
    decreases batch.len(),
{
    if batch.len() == 0 {
        0
    } else {
        batch[0].1 + mint_total(batch.drop_first())
    }
}

/// Amount a mint batch carries for one account.
pub open spec fn mint_total_for(batch: Seq<(u64, u128)>, b: u64) -> int
    decreases batch.len(),
{
    if batch.len() == 0 {
        0
    } else {
        (if batch[0].0 == b {
            batch[0].1 as int
        } else {
            0
        }) + mint_total_for(batch.drop_first(), b)
    }
}

proof fn lemma_mint_totals_nonneg(batch: Seq<(u64, u128)>, b: u64)
    ensures
        0 <= mint_total(batch),
        0 <= mint_total_for(batch, b),
    decreases batch.len(),
{
    if batch.len() > 0 {
        lemma_mint_totals_nonneg(batch.drop_first(), b);
    }
}

/// Total fee over the first `k` claims of a synthetic batch where the `j`-th
/// claim prices `claim` units at cumulative position `j * claim`.
pub open spec fn batch_fee_total_upto(k: nat, claim: u32) -> int
    decreases k,
{
    if k == 0 {
        0
    } else {
        batch_fee_total_upto((k - 1) as nat, claim) + fee_of(
            price((k - 1) * (claim as int), claim as nat),
        )
    }
}

/// Total user share over the first `k` claims of the same synthetic batch.
pub open spec fn batch_user_total_upto(k: nat, claim: u32) -> int
    decreases k,
{
    if k == 0 {
        0
    } else {
        batch_user_total_upto((k - 1) as nat, claim) + user_share_of(
            price((k - 1) * (claim as int), claim as nat),
        )
    }
}

proof fn lemma_batch_totals_bounds(k: nat, claim: u32)
    ensures
        0 <= batch_fee_total_upto(k, claim),
        0 <= batch_user_total_upto(k, claim),
        batch_fee_total_upto(k, claim) + batch_user_total_upto(k, claim) <= k * (
        (claim as int) * (START_REWARD as int)),
    decreases k,
{
    if k == 0 {
        assert(k * ((claim as int) * (START_REWARD as int)) == 0) by (nonlinear_arith)
            requires
                k == 0,
        ;
    } else {
        lemma_batch_totals_bounds((k - 1) as nat, claim);
        let n = (k - 1) * (claim as int);
        assert((k - 1) * (claim as int) >= 0) by (nonlinear_arith)
            requires
                k >= 1,
                claim as int >= 0,
        ;
        lemma_price_bounds(n, claim as nat);
        lemma_fee_bounds(price(n, claim as nat));
        assert((claim as nat) * (START_REWARD as int) == (claim as int) * (START_REWARD as int))
            by (nonlinear_arith);
        assert((k - 1) * ((claim as int) * (START_REWARD as int)) + (claim as int) * (
        START_REWARD as int) == k * ((claim as int) * (START_REWARD as int))) by (nonlinear_arith);
    }
}

/// The reward-token contract state.
pub struct Contract {
    self_id: u64,
    oracles: Vec<u64>,
    ledger: Ledger,
    steps_since_tge: u64,
    limits: Vec<(u64, (u32, u64))>,
    purgatory: Vec<(u64, (u64, u64))>,
    limiter: LimiterPolicy,
    settlement: SettlementPolicy,
    registration_required: bool,
}

impl Contract {
    /// The contract's own (owner) account.
    pub closed spec fn owner(self) -> u64 {
        self.self_id
    }

    /// The authorized oracle accounts.
    pub closed spec fn oracles_view(self) -> Seq<u64> {
        self.oracles@
    }

    /// The balance store.
    pub closed spec fn ledger_view(self) -> Ledger {
        self.ledger
    }

    /// Units of activity priced since genesis.
    pub closed spec fn steps(self) -> u64 {
        self.steps_since_tge
    }

    /// The per-account rate-limit records.
    pub closed spec fn limits_view(self) -> Seq<(u64, (u32, u64))> {
        self.limits@
    }

    /// The per-account purgatory records.
    pub closed spec fn purg_view(self) -> Seq<(u64, (u64, u64))> {
        self.purgatory@
    }

    /// How submitted activity is throttled.
    pub closed spec fn limiter_policy(self) -> LimiterPolicy {
        self.limiter
    }

    /// When deferred settlement touches the ledger.
    pub closed spec fn settlement_policy(self) -> SettlementPolicy {
        self.settlement
    }

    /// Whether batch crediting skips accounts without a ledger entry.
    pub closed spec fn reg_required(self) -> bool {
        self.registration_required
    }

    /// Whether `a` is an authorized oracle.
    pub open spec fn is_oracle(self, a: u64) -> bool {
        self.oracles_view().contains(a)
    }

    /// The balance of `a`.
    pub open spec fn bal(self, a: u64) -> u128 {
        self.ledger_view().bal(a)
    }

    /// The recorded total supply.
    pub open spec fn supply(self) -> u128 {
        self.ledger_view().supply()
    }

    /// Well-formedness: the ledger invariant (the sum of all balances equals
    /// the total supply), distinct oracles, distinct throttle-record keys,
    /// and no rate window already holding more than `STEP_LIMIT`.
    pub open spec fn wf(self) -> bool {
        &&& self.ledger_view().wf()
        &&& distinct_seq(self.oracles_view())
        &&& unique_keys(self.limits_view())
        &&& unique_keys(self.purg_view())
        &&& forall|a: u64| get_val(self.limits_view(), a, (0u32, 0u64)).0 <= STEP_LIMIT
    }

    /// Parts of the state that the oracle-set and policy operations leave
    /// alone.
    pub open spec fn same_token_state(self, other: Contract) -> bool {
        &&& self.ledger_view().balances() == other.ledger_view().balances()
        &&& self.ledger_view().supply() == other.ledger_view().supply()
        &&& self.steps() == other.steps()
        &&& self.limits_view() == other.limits_view()
        &&& self.purg_view() == other.purg_view()
    }

    /// Parts of the state that the token operations leave alone.
    pub open spec fn same_admin_state(self, other: Contract) -> bool {
        &&& self.owner() == other.owner()
        &&& self.oracles_view() == other.oracles_view()
        &&& self.limiter_policy() == other.limiter_policy()
        &&& self.settlement_policy() == other.settlement_policy()
        &&& self.reg_required() == other.reg_required()
    }

    /// A fresh contract owned by `self_id`: empty ledger, no oracles, no
    /// activity priced yet, no throttling, confirm-then-credit settlement.
    pub fn new(self_id: u64) -> (r: Contract)
        ensures
            r.wf(),
            r.owner() == self_id,
            r.oracles_view() == Seq::<u64>::empty(),
            r.supply() == 0,
            r.steps() == 0,
            forall|b: u64| r.bal(b) == 0 && !r.ledger_view().registered(b),
            r.limits_view() == Seq::<(u64, (u32, u64))>::empty(),
            r.purg_view() == Seq::<(u64, (u64, u64))>::empty(),
            r.limiter_policy() == LimiterPolicy::NoLimit,
            r.settlement_policy() == SettlementPolicy::ConfirmThenCredit,
            !r.reg_required(),
    {
        let r = Contract {
            self_id,
            oracles: Vec::new(),
            ledger: Ledger::new(),
            steps_since_tge: 0,
            limits: Vec::new(),
            purgatory: Vec::new(),
            limiter: LimiterPolicy::NoLimit,
            settlement: SettlementPolicy::ConfirmThenCredit,
            registration_required: false,
        };
        proof {
            assert forall|a: u64| get_val(r.limits_view(), a, (0u32, 0u64)).0 <= STEP_LIMIT by {
                crate::assoc::lemma_get_absent(r.limits_view(), a, (0u32, 0u64));
                crate::assoc::lemma_has_key_index(r.limits_view(), a);
            }
        }
        r
    }

    /// Chooses how submitted activity is throttled. Only the owner may
    /// reconfigure; nothing else changes.
    pub fn set_limiter_policy(&mut self, caller: u64, policy: LimiterPolicy) -> (r: Result<
        (),
        TokenError,
    >)
        requires
            old(self).wf(),
        ensures
            final(self).wf(),
            r == Err::<(), TokenError>(TokenError::Unauthorized) <==> caller != old(self).owner(),
            r is Err ==> *final(self) == *old(self),
            r is Ok ==> final(self).limiter_policy() == policy,
            final(self).same_token_state(*old(self)),
            final(self).owner() == old(self).owner(),
            final(self).oracles_view() == old(self).oracles_view(),
            final(self).settlement_policy() == old(self).settlement_policy(),
            final(self).reg_required() == old(self).reg_required(),
    {
        if caller != self.self_id {
            return Err(TokenError::Unauthorized);
        }
        self.limiter = policy;
        Ok(())
    }

    /// Chooses when deferred settlement touches the ledger. Only the owner
    /// may reconfigure; nothing else changes.
    pub fn set_settlement_policy(&mut self, caller: u64, policy: SettlementPolicy) -> (r: Result<
        (),
        TokenError,
    >)
        requires
            old(self).wf(),
        ensures
            final(self).wf(),
            r == Err::<(), TokenError>(TokenError::Unauthorized) <==> caller != old(self).owner(),
            r is Err ==> *final(self) == *old(self),
            r is Ok ==> final(self).settlement_policy() == policy,
            final(self).same_token_state(*old(self)),
            final(self).owner() == old(self).owner(),
            final(self).oracles_view() == old(self).oracles_view(),
            final(self).limiter_policy() == old(self).limiter_policy(),
            final(self).reg_required() == old(self).reg_required(),
    {
        if caller != self.self_id {
            return Err(TokenError::Unauthorized);
        }
        self.settlement = policy;
        Ok(())
    }

    /// Chooses whether batch crediting skips accounts without a ledger
    /// entry. Only the owner may reconfigure; nothing else changes.
    pub fn set_registration_required(&mut self, caller: u64, required: bool) -> (r: Result<
        (),
        TokenError,
    >)
        requires
            old(self).wf(),
        ensures
            final(self).wf(),
            r == Err::<(), TokenError>(TokenError::Unauthorized) <==> caller != old(self).owner(),
            r is Err ==> *final(self) == *old(self),
            r is Ok ==> final(self).reg_required() == required,
            final(self).same_token_state(*old(self)),
            final(self).owner() == old(self).owner(),
            final(self).oracles_view() == old(self).oracles_view(),
            final(self).limiter_policy() == old(self).limiter_policy(),
            final(self).settlement_policy() == old(self).settlement_policy(),
    {
        if caller != self.self_id {
            return Err(TokenError::Unauthorized);
        }
        self.registration_required = required;
        Ok(())
    }

    /// Whether `a` is currently an authorized oracle.
    pub fn contains_oracle(&self, a: u64) -> (r: bool)
        ensures
            r == self.is_oracle(a),
    {
        let n = self.oracles.len();
        let mut i: usize = 0;
        while i < n
            invariant
                i <= n,
                n == self.oracles_view().len(),
                forall|j: int| 0 <= j < i ==> self.oracles_view()[j] != a,
            decreases n - i,
        {
            if self.oracles[i] == a {
                return true;
            }
            i = i + 1;
        }
        false
    }

    /// The current oracle set, in insertion order.
    pub fn get_oracles(&self) -> (r: Vec<u64>)
        ensures
            r@ == self.oracles_view(),
    {
        let n = self.oracles.len();
        let mut out: Vec<u64> = Vec::new();
        let mut i: usize = 0;
        while i < n
            invariant
                i <= n,
                n == self.oracles_view().len(),
                out@ == self.oracles_view().subrange(0, i as int),
            decreases n - i,
        {
            out.push(self.oracles[i]);
            proof {
                assert(out@ =~= self.oracles_view().subrange(0, i + 1));
            }
            i = i + 1;
        }
        proof {
            assert(out@ =~= self.oracles_view());
        }
        out
    }

    /// Authorizes `account` as an oracle. Only the owner may do so, and an
    /// account cannot be added twice.
    pub fn add_oracle(&mut self, caller: u64, account: u64) -> (r: Result<(), TokenError>)
        requires
            old(self).wf(),
        ensures
            final(self).wf(),
            r == Err::<(), TokenError>(TokenError::Unauthorized) <==> caller != old(self).owner(),
            r == Err::<(), TokenError>(TokenError::AlreadyExists) <==> caller == old(self).owner()
                && old(self).is_oracle(account),
            r is Err ==> *final(self) == *old(self),
            r is Ok <==> caller == old(self).owner() && !old(self).is_oracle(account),
            r is Ok ==> final(self).oracles_view() == old(self).oracles_view().push(account),
            r is Ok ==> forall|b: u64|
                final(self).is_oracle(b) == (old(self).is_oracle(b) || b == account),
            final(self).same_token_state(*old(self)),
            final(self).owner() == old(self).owner(),
            final(self).limiter_policy() == old(self).limiter_policy(),
            final(self).settlement_policy() == old(self).settlement_policy(),
            final(self).reg_required() == old(self).reg_required(),
    {
        if caller != self.self_id {
            return Err(TokenError::Unauthorized);
        }
        if self.contains_oracle(account) {
            return Err(TokenError::AlreadyExists);
        }
        let ghost s0 = self.oracles@;
        self.oracles.push(account);
        proof {
            assert forall|b: u64| final(self).is_oracle(b) == (old(self).is_oracle(b) || b
                == account) by {
                if self.oracles@.contains(b) {
                    let i = choose|i: int| 0 <= i < self.oracles@.len() && self.oracles@[i] == b;
                    if i < s0.len() {
                        assert(s0[i] == b);
                    }
                }
                if s0.contains(b) {
                    let i = choose|i: int| 0 <= i < s0.len() && s0[i] == b;
                    assert(self.oracles@[i] == b);
                }
                assert(self.oracles@[s0.len() as int] == account);
            }
        }
        Ok(())
    }

    /// Withdraws `account` from the oracle set. Only the owner may do so,
    /// and the account must currently be an oracle.
    pub fn remove_oracle(&mut self, caller: u64, account: u64) -> (r: Result<(), TokenError>)
        requires
            old(self).wf(),
        ensures
            final(self).wf(),
            r == Err::<(), TokenError>(TokenError::Unauthorized) <==> caller != old(self).owner(),
            r == Err::<(), TokenError>(TokenError::NotAnOracle) <==> caller == old(self).owner()
                && !old(self).is_oracle(account),
            r is Err ==> *final(self) == *old(self),
            r is Ok <==> caller == old(self).owner() && old(self).is_oracle(account),
            r is Ok ==> {
                &&& final(self).oracles_view().len() == old(self).oracles_view().len() - 1
                &&& !final(self).is_oracle(account)
                &&& forall|b: u64|
                    b != account ==> final(self).is_oracle(b) == old(self).is_oracle(b)
            },
            final(self).same_token_state(*old(self)),
            final(self).owner() == old(self).owner(),
            final(self).limiter_policy() == old(self).limiter_policy(),
            final(self).settlement_policy() == old(self).settlement_policy(),
            final(self).reg_required() == old(self).reg_required(),
    {
        if caller != self.self_id {
            return Err(TokenError::Unauthorized);
        }
        let ghost s0 = self.oracles@;
        match self.find_oracle(account) {
            None => {
                proof {
                    assert(!old(self).is_oracle(account));
                }
                Err(TokenError::NotAnOracle)
            },
            Some(i) => {
                self.oracles.remove(i);
                proof {
                    let ii = i as int;
                    let s1 = self.oracles@;
                    assert(s1 =~= s0.subrange(0, ii) + s0.subrange(ii + 1, s0.len() as int));
                    assert(s0[ii] == account);
                    assert forall|b: u64| b != account implies #[trigger] final(self).is_oracle(b)
                        == old(self).is_oracle(b) by {
                        if s1.contains(b) {
                            let k = choose|k: int| 0 <= k < s1.len() && s1[k] == b;
                            if k < ii {
                                assert(s0[k] == b);
                            } else {
                                assert(s0[k + 1] == b);
                            }
                        }
                        if s0.contains(b) {
                            let k = choose|k: int| 0 <= k < s0.len() && s0[k] == b;
                            if k < ii {
                                assert(s1[k] == b);
                            } else {
                                assert(k != ii);
                                assert(s1[k - 1] == b);
                            }
                        }
                    }
                    assert forall|k: int| 0 <= k < s1.len() implies s1[k] != account by {
                        if k < ii {
                        } else {
                            assert(s1[k] == s0[k + 1]);
                        }
                    }
                    assert(!final(self).is_oracle(account));
                }
                Ok(())
            },
        }
    }

    /// Index of `a` in the oracle set, if present.
    fn find_oracle(&self, a: u64) -> (r: Option<usize>)
        ensures
            match r {
                Some(i) => i < self.oracles_view().len() && self.oracles_view()[i as int] == a,
                None => !self.is_oracle(a),
            },
    {
        let n = self.oracles.len();
        let mut i: usize = 0;
        while i < n
            invariant
                i <= n,
                n == self.oracles_view().len(),
                forall|j: int| 0 <= j < i ==> self.oracles_view()[j] != a,
            decreases n - i,
        {
            if self.oracles[i] == a {
                return Some(i);
            }
            i = i + 1;
        }
        None
    }

    /// Units of activity priced since genesis.
    pub fn get_steps_since_tge(&self) -> (r: u64)
        ensures
            r == self.steps(),
    {
        self.steps_since_tge
    }

    /// The balance of `account`.
    pub fn ft_balance_of(&self, account: u64) -> (r: u128)
        ensures
            r == self.bal(account),
    {
        self.ledger.balance_of(account)
    }

    /// The total token supply.
    pub fn ft_total_supply(&self) -> (r: u128)
        ensures
            r == self.supply(),
    {
        self.ledger.total_supply()
    }

    /// The price of `steps` units of activity if `steps_since_tge` units had
    /// been issued so far. Pure: reads no contract state.
    pub fn formula(&self, steps_since_tge: u64, steps: u32) -> (r: u128)
        ensures
            r as int == price(steps_since_tge as int, steps as nat),
    {
        compute_price(steps_since_tge, steps)
    }

    /// Splits the price of `steps` at the current cumulative counter into
    /// the user's share and the oracle fee.
    pub fn calculate_tokens_amount(&self, steps: u32) -> (r: (u128, u128))
        ensures
            r.0 as int == user_share_of(price(self.steps() as int, steps as nat)),
            r.1 as int == fee_of(price(self.steps() as int, steps as nat)),
            r.0 as int + r.1 as int == price(self.steps() as int, steps as nat),
    {
        let minted = compute_price(self.steps_since_tge, steps);
        proof {
            lemma_fee_bounds(minted as int);
        }
        let payout = Payout::from(minted);
        (payout.amount_for_user, payout.fee)
    }

    /// Mints `amount` to `account` at token generation. Only the owner may
    /// do so; fails closed on supply overflow with nothing changed.
    pub fn tge_mint(&mut self, caller: u64, account: u64, amount: u128) -> (r: Result<
        (),
        TokenError,
    >)
        requires
            old(self).wf(),
        ensures
            final(self).wf(),
            r == Err::<(), TokenError>(TokenError::Unauthorized) <==> caller != old(self).owner(),
            r == Err::<(), TokenError>(TokenError::Overflow) <==> caller == old(self).owner()
                && old(self).supply() + amount > u128::MAX,
            r is Err ==> *final(self) == *old(self),
            r is Ok <==> caller == old(self).owner() && old(self).supply() + amount <= u128::MAX,
            r is Ok ==> {
                &&& final(self).bal(account) == old(self).bal(account) + amount
                &&& forall|b: u64| b != account ==> final(self).bal(b) == old(self).bal(b)
                &&& final(self).supply() == old(self).supply() + amount
                &&& forall|b: u64|
                    final(self).ledger_view().registered(b) == (old(self).ledger_view().registered(
                        b,
                    ) || b == account)
            },
            final(self).steps() == old(self).steps(),
            final(self).limits_view() == old(self).limits_view(),
            final(self).purg_view() == old(self).purg_view(),
            final(self).same_admin_state(*old(self)),
    {
        if caller != self.self_id {
            return Err(TokenError::Unauthorized);
        }
        self.ledger.deposit(account, amount)
    }

    /// Total fee and total user share over a synthetic batch of
    /// `batch_size` claims of `claim_amount` activity each, the `k`-th claim
    /// priced as if `k * claim_amount` units had been issued before it.
    pub fn calculate_payout_with_fee_for_batch(&self, batch_size: u32, claim_amount: u32) -> (r: (
        u128,
        u128,
    ))
        requires
            (batch_size as int) * (claim_amount as int) <= u32::MAX as int,
        ensures
            r.0 as int == batch_fee_total_upto(batch_size as nat, claim_amount),
            r.1 as int == batch_user_total_upto(batch_size as nat, claim_amount),
    {
        let mut total_fee: u128 = 0;
        let mut total_for_user: u128 = 0;
        let mut i: u32 = 0;
        while i < batch_size
            invariant
                i <= batch_size,
                (batch_size as int) * (claim_amount as int) <= u32::MAX as int,
                total_fee as int == batch_fee_total_upto(i as nat, claim_amount),
                total_for_user as int == batch_user_total_upto(i as nat, claim_amount),
            decreases batch_size - i,
        {
            proof {
                assert((i as int) * (claim_amount as int) <= (batch_size as int) * (
                claim_amount as int)) by (nonlinear_arith)
                    requires
                        0 <= i as int <= batch_size as int,
                        claim_amount as int >= 0,
                ;
            }
            let steps_since: u32 = i * claim_amount;
            let minted = compute_price(steps_since as u64, claim_amount);
            proof {
                lemma_fee_bounds(minted as int);
                lemma_batch_totals_bounds((i + 1) as nat, claim_amount);
                assert(((i + 1) as int) * (claim_amount as int) <= (batch_size as int) * (
                claim_amount as int)) by (nonlinear_arith)
                    requires
                        0 <= (i + 1) as int <= batch_size as int,
                        claim_amount as int >= 0,
                ;
                assert(((i + 1) as int) * ((claim_amount as int) * (START_REWARD as int)) <= (
                u32::MAX as int) * (START_REWARD as int)) by (nonlinear_arith)
                    requires
                        0 <= (i + 1) as int,
                        0 <= claim_amount as int,
                        ((i + 1) as int) * (claim_amount as int) <= u32::MAX as int,
                        START_REWARD as int > 0,
                ;
            }
            let pay = Payout::from(minted);
            total_fee = total_fee + pay.fee;
            total_for_user = total_for_user + pay.amount_for_user;
            i = i + 1;
        }
        (total_fee, total_for_user)
    }

    /// Mints a batch of amounts at token generation, atomically: either
    /// every entry is credited and the supply grows by the batch total, or —
    /// on a supply overflow anywhere in the batch — nothing changes at all.
    /// Only the owner may call.
    pub fn tge_mint_batch(&mut self, caller: u64, batch: Vec<(u64, u128)>) -> (r: Result<
        (),
        TokenError,
    >)
        requires
            old(self).wf(),
        ensures
            final(self).wf(),
            r == Err::<(), TokenError>(TokenError::Unauthorized) <==> caller != old(self).owner(),
            r == Err::<(), TokenError>(TokenError::Overflow) <==> caller == old(self).owner()
                && old(self).supply() + mint_total(batch@) > u128::MAX,
            r is Ok <==> caller == old(self).owner() && old(self).supply() + mint_total(batch@)
                <= u128::MAX,
            r is Err ==> *final(self) == *old(self),
            r is Ok ==> {
                &&& final(self).supply() == old(self).supply() + mint_total(batch@)
                &&& forall|b: u64|
                    final(self).bal(b) == old(self).bal(b) + mint_total_for(batch@, b)
                &&& forall|b: u64|
                    final(self).ledger_view().registered(b) == (old(self).ledger_view().registered(
                        b,
                    ) || has_key(batch@, b))
            },
            final(self).steps() == old(self).steps(),
            final(self).limits_view() == old(self).limits_view(),
            final(self).purg_view() == old(self).purg_view(),
            final(self).same_admin_state(*old(self)),
    {
        if caller != self.self_id {
            return Err(TokenError::Unauthorized);
        }
        let ghost led0 = self.ledger_view();
        let mut working = self.ledger.duplicate();
        let n = batch.len();
        let mut i: usize = 0;
        proof {
            assert(batch@.subrange(0, n as int) =~= batch@);
        }
        while i < n
            invariant
                i <= n,
                n == batch@.len(),
                *self == *old(self),
                old(self).wf(),
                caller == old(self).owner(),
                led0 == old(self).ledger_view(),
                working.wf(),
                working.supply() + mint_total(batch@.subrange(i as int, n as int)) == led0.supply()
                    + mint_total(batch@),
                forall|b: u64|
                    working.bal(b) + mint_total_for(batch@.subrange(i as int, n as int), b)
                        == led0.bal(b) + mint_total_for(batch@, b),
                forall|b: u64|
                    (working.registered(b) || has_key(batch@.subrange(i as int, n as int), b)) == (
                    led0.registered(b) || has_key(batch@, b)),
            decreases n - i,
        {
            let ghost rem = batch@.subrange(i as int, n as int);
            proof {
                assert(rem.drop_first() =~= batch@.subrange(i + 1, n as int));
                assert(rem[0] == batch@[i as int]);
                lemma_mint_totals_nonneg(rem.drop_first(), batch@[i as int].0);
            }
            let entry = batch[i];
            let ghost wrk0 = working;
            match working.deposit(entry.0, entry.1) {
                Ok(()) => {
                    proof {
                        assert forall|b: u64|
                            working.bal(b) + mint_total_for(
                                batch@.subrange(i + 1, n as int),
                                b,
                            ) == led0.bal(b) + mint_total_for(batch@, b) by {
                            lemma_mint_totals_nonneg(rem, b);
                        }
                    }
                },
                Err(_) => {
                    return Err(TokenError::Overflow);
                },
            }
            i = i + 1;
        }
        proof {
            assert(batch@.subrange(n as int, n as int) =~= Seq::<(u64, u128)>::empty());
        }
        self.ledger = working;
        Ok(())
    }

    /// The grant state a batch submitted at `now` folds to.
    pub open spec fn record_grants(self, batch: Seq<(u64, u32)>, now: u64) -> GrantState {
        grant_batch(grant_init(self), batch, now, self.limiter_policy())
    }

    /// When recording a batch fails closed: the cumulative counter or the
    /// total supply would leave its representable range.
    pub open spec fn record_overflow(self, batch: Seq<(u64, u32)>, now: u64) -> bool {
        let g = self.record_grants(batch, now);
        g.steps > u64::MAX || self.supply() + credited_total(
            g.entries,
            self.reg_required(),
            self.ledger_view(),
        ) + fee_total(g.entries) > u128::MAX
    }

    /// The state after successfully recording a batch: the counter and
    /// throttle records advance to the fold's result, every entry's user
    /// share is credited (skipped entries excepted), and the whole fee goes
    /// to the calling oracle.
    pub open spec fn record_ok_state(
        self,
        post: Contract,
        batch: Seq<(u64, u32)>,
        now: u64,
        caller: u64,
    ) -> bool {
        let g = self.record_grants(batch, now);
        let req = self.reg_required();
        let led0 = self.ledger_view();
        let fees = fee_total(g.entries);
        &&& post.steps() as int == g.steps
        &&& post.limits_view() == g.limits
        &&& post.purg_view() == g.purg
        &&& post.supply() == led0.supply() + credited_total(g.entries, req, led0) + fees
        &&& forall|b: u64|
            post.bal(b) as int == led0.bal(b) + credited_for(g.entries, b, req, led0) + (if b
                == caller {
                fees
            } else {
                0
            })
        &&& (req ==> forall|b: u64|
            post.ledger_view().registered(b) == (led0.registered(b) || b == caller))
        &&& (!req ==> forall|b: u64|
            post.ledger_view().registered(b) == (led0.registered(b) || entry_has(g.entries, b) || b
                == caller))
        &&& post.same_admin_state(self)
    }

    /// The events a successful recording reports: one mint event per batch
    /// entry, in order, and one aggregate fee event for the oracle last.
    pub open spec fn record_events_ok(
        self,
        events: Seq<TokenEvent>,
        batch: Seq<(u64, u32)>,
        now: u64,
        caller: u64,
    ) -> bool {
        let g = self.record_grants(batch, now);
        &&& events.len() == g.entries.len() + 1
        &&& forall|k: int|
            0 <= k < g.entries.len() ==> events[k] == (TokenEvent::Mint {
                account: g.entries[k].0,
                amount: g.entries[k].1,
            })
        &&& events[g.entries.len() as int] == (TokenEvent::Mint {
            account: caller,
            amount: fee_total(g.entries) as u128,
        })
    }

    /// Prices a batch without touching the contract: folds every entry
    /// through the active throttle and the curve, and returns the priced
    /// entries, the advanced counter and the updated throttle records.
    /// Fails with `Overflow` exactly when the counter would leave `u64`.
    pub(crate) fn price_batch(&self, batch: &Vec<(u64, u32)>, now: u64) -> (r: Result<
        (Vec<(u64, u128, u128)>, u64, Vec<(u64, (u32, u64))>, Vec<(u64, (u64, u64))>),
        TokenError,
    >)
        requires
            self.wf(),
        ensures
            ({
                let g = self.record_grants(batch@, now);
                &&& (r is Err <==> g.steps > u64::MAX)
                &&& (r matches Err(e) ==> e == TokenError::Overflow)
                &&& (r matches Ok(t) ==> {
                    &&& t.0@ == g.entries
                    &&& t.1 as int == g.steps
                    &&& t.2@ == g.limits
                    &&& t.3@ == g.purg
                    &&& unique_keys(t.2@)
                    &&& unique_keys(t.3@)
                    &&& forall|a: u64| get_val(t.2@, a, (0u32, 0u64)).0 <= STEP_LIMIT
                })
            }),
    {
        let pol = self.limiter;
        let ghost g = grant_batch(grant_init(*self), batch@, now, pol);
        let mut steps_c: u64 = self.steps_since_tge;
        let mut limits_v = dup_entries(&self.limits);
        let mut purg_v = dup_entries(&self.purgatory);
        let mut entries_v: Vec<(u64, u128, u128)> = Vec::new();
        let n = batch.len();
        let mut i: usize = 0;
        proof {
            assert(batch@.subrange(0, n as int) =~= batch@);
            assert(entries_v@ =~= Seq::<(u64, u128, u128)>::empty());
            let cur0 = GrantState {
                steps: steps_c as int,
                limits: limits_v@,
                purg: purg_v@,
                entries: entries_v@,
            };
            assert(cur0 == grant_init(*self));
        }
        while i < n
            invariant
                i <= n,
                n == batch@.len(),
                self.wf(),
                pol == self.limiter_policy(),
                g == grant_batch(grant_init(*self), batch@, now, pol),
                grant_batch(
                    GrantState {
                        steps: steps_c as int,
                        limits: limits_v@,
                        purg: purg_v@,
                        entries: entries_v@,
                    },
                    batch@.subrange(i as int, n as int),
                    now,
                    pol,
                ) == g,
                unique_keys(limits_v@),
                unique_keys(purg_v@),
                forall|a: u64| get_val(limits_v@, a, (0u32, 0u64)).0 <= STEP_LIMIT,
            decreases n - i,
        {
            let ghost cur = GrantState {
                steps: steps_c as int,
                limits: limits_v@,
                purg: purg_v@,
                entries: entries_v@,
            };
            let ghost rem = batch@.subrange(i as int, n as int);
            proof {
                assert(rem[0] == batch@[i as int]);
                assert(rem.drop_first() =~= batch@.subrange(i + 1, n as int));
            }
            let pair = batch[i];
            let account = pair.0;
            let req_steps = pair.1;
            let granted64: u64 = match pol {
                LimiterPolicy::NoLimit => req_steps as u64,
                LimiterPolicy::WindowCap => {
                    let rec = get_entry(&limits_v, account, (0u32, 0u64));
                    let stepped = apply_rate(rec, req_steps, now);
                    put_entry(&mut limits_v, account, stepped.1);
                    proof {
                        lemma_put_unique(cur.limits, account, stepped.1);
                        assert forall|a: u64|
                            get_val(limits_v@, a, (0u32, 0u64)).0 <= STEP_LIMIT by {
                            lemma_put_get(cur.limits, account, stepped.1, a, (0u32, 0u64));
                        }
                    }
                    stepped.0 as u64
                },
                LimiterPolicy::Purgatory => {
                    let rec = get_entry(&purg_v, account, (0u64, 0u64));
                    let stepped = apply_purgatory(rec, req_steps, now);
                    put_entry(&mut purg_v, account, stepped.1);
                    proof {
                        lemma_put_unique(cur.purg, account, stepped.1);
                    }
                    stepped.0
                },
            };
            proof {
                assert(granted64 == entry_granted(cur, account, req_steps, now, pol));
                assert(granted64 <= u32::MAX);
            }
            if granted64 > u64::MAX - steps_c {
                proof {
                    let next = grant_entry(cur, account, req_steps, now, pol);
                    lemma_grant_steps_monotone(next, rem.drop_first(), now, pol);
                    assert(g.steps >= next.steps);
                }
                return Err(TokenError::Overflow);
            }
            let minted = compute_price(steps_c, granted64 as u32);
            proof {
                lemma_fee_bounds(minted as int);
            }
            let pay = Payout::from(minted);
            entries_v.push((account, pay.amount_for_user, pay.fee));
            steps_c = steps_c + granted64;
            proof {
                let next = GrantState {
                    steps: steps_c as int,
                    limits: limits_v@,
                    purg: purg_v@,
                    entries: entries_v@,
                };
                assert((granted64 as u32) as nat == granted64 as nat);
                assert(next == grant_entry(cur, account, req_steps, now, pol));
            }
            i = i + 1;
        }
        proof {
            assert(batch@.subrange(n as int, n as int) =~= Seq::<(u64, u32)>::empty());
            assert(entries_v@ == g.entries && steps_c as int == g.steps && limits_v@ == g.limits
                && purg_v@ == g.purg);
        }
        Ok((entries_v, steps_c, limits_v, purg_v))
    }

    /// Prices a batch of `(account, activity)` submissions and credits the
    /// proceeds, atomically: on any overflow nothing changes at all. Only an
    /// oracle may call. Each entry is throttled by the active limiter
    /// policy, priced at the counter as advanced by the entries before it,
    /// split into a user share and the oracle fee, and credited; the
    /// aggregate fee is credited to the calling oracle at the end.
    pub fn record_batch(&mut self, caller: u64, batch: Vec<(u64, u32)>, now: u64) -> (r: Result<
        Vec<TokenEvent>,
        TokenError,
    >)
        requires
            old(self).wf(),
        ensures
            final(self).wf(),
            r == Err::<Vec<TokenEvent>, TokenError>(TokenError::Unauthorized) <==> !old(
                self,
            ).is_oracle(caller),
            r == Err::<Vec<TokenEvent>, TokenError>(TokenError::Overflow) <==> old(self).is_oracle(
                caller,
            ) && old(self).record_overflow(batch@, now),
            r is Ok <==> old(self).is_oracle(caller) && !old(self).record_overflow(batch@, now),
            r is Err ==> *final(self) == *old(self),
            r is Ok ==> old(self).record_ok_state(*final(self), batch@, now, caller),
            r matches Ok(events) ==> old(self).record_events_ok(events@, batch@, now, caller),
    {
        if !self.contains_oracle(caller) {
            return Err(TokenError::Unauthorized);
        }
        let ghost g = self.record_grants(batch@, now);
        let priced = match self.price_batch(&batch, now) {
            Ok(t) => t,
            Err(_) => {
                return Err(TokenError::Overflow);
            },
        };
        let entries_v = priced.0;
        let steps_c = priced.1;
        let limits_v = priced.2;
        let purg_v = priced.3;
        // Apply phase: credit the priced entries into a staged copy of the
        // ledger, so that an overflow anywhere leaves the contract untouched.
        let req = self.registration_required;
        let ghost led0 = self.ledger_view();
        let mut working = self.ledger.duplicate();
        let mut fee_acc: u128 = 0;
        let mut events: Vec<TokenEvent> = Vec::new();
        let ghost es = entries_v@;
        let m = entries_v.len();
        let mut j: usize = 0;
        proof {
            assert(es.subrange(0, m as int) =~= es);
        }
        while j < m
            invariant
                j <= m,
                m == es.len(),
                es == entries_v@,
                es == g.entries,
                *self == *old(self),
                old(self).wf(),
                old(self).is_oracle(caller),
                req == old(self).reg_required(),
                led0 == old(self).ledger_view(),
                g == grant_batch(
                    grant_init(*old(self)),
                    batch@,
                    now,
                    old(self).limiter_policy(),
                ),
                g.steps <= u64::MAX,
                working.wf(),
                working.supply() + credited_total(es.subrange(j as int, m as int), req, led0)
                    == led0.supply() + credited_total(es, req, led0),
                forall|b: u64|
                    working.bal(b) + credited_for(es.subrange(j as int, m as int), b, req, led0)
                        == led0.bal(b) + credited_for(es, b, req, led0),
                fee_acc + fee_total(es.subrange(j as int, m as int)) == fee_total(es),
                req ==> forall|b: u64| working.registered(b) == led0.registered(b),
                !req ==> forall|b: u64|
                    (working.registered(b) || entry_has(es.subrange(j as int, m as int), b)) == (
                    led0.registered(b) || entry_has(es, b)),
                events@.len() == j,
                forall|k: int|
                    0 <= k < j ==> events@[k] == (TokenEvent::Mint {
                        account: es[k].0,
                        amount: es[k].1,
                    }),
            decreases m - j,
        {
            let ghost rem_e = es.subrange(j as int, m as int);
            proof {
                assert(rem_e[0] == es[j as int]);
                assert(rem_e.drop_first() =~= es.subrange(j + 1, m as int));
                lemma_entry_totals_nonneg(rem_e.drop_first(), es[j as int].0, req, led0);
            }
            let e = entries_v[j];
            let credit: bool = if req {
                working.is_registered(e.0)
            } else {
                true
            };
            if credit {
                match working.deposit(e.0, e.1) {
                    Ok(()) => {},
                    Err(_) => {
                        proof {
                            lemma_entry_totals_nonneg(es, e.0, req, led0);
                        }
                        return Err(TokenError::Overflow);
                    },
                }
            }
            if e.2 > u128::MAX - fee_acc {
                proof {
                    lemma_entry_totals_nonneg(es, e.0, req, led0);
                }
                return Err(TokenError::Overflow);
            }
            fee_acc = fee_acc + e.2;
            events.push(TokenEvent::Mint { account: e.0, amount: e.1 });
            proof {
                assert forall|b: u64|
                    working.bal(b) + credited_for(es.subrange(j + 1, m as int), b, req, led0)
                        == led0.bal(b) + credited_for(es, b, req, led0) by {
                    assert(credited_for(rem_e, b, req, led0) == (if rem_e[0].0 == b {
                        entry_credit(rem_e[0], req, led0)
                    } else {
                        0
                    }) + credited_for(rem_e.drop_first(), b, req, led0));
                }
                if !req {
                    assert forall|b: u64|
                        (working.registered(b) || entry_has(es.subrange(j + 1, m as int), b)) == (
                        led0.registered(b) || entry_has(es, b)) by {
                        assert(entry_has(rem_e, b) == (rem_e[0].0 == b || entry_has(
                            rem_e.drop_first(),
                            b,
                        )));
                    }
                }
            }
            j = j + 1;
        }
        proof {
            assert(es.subrange(m as int, m as int) =~= Seq::<(u64, u128, u128)>::empty());
        }
        match working.deposit(caller, fee_acc) {
            Ok(()) => {},
            Err(_) => {
                proof {
                    lemma_entry_totals_nonneg(es, caller, req, led0);
                }
                return Err(TokenError::Overflow);
            },
        }
        events.push(TokenEvent::Mint { account: caller, amount: fee_acc });
        self.ledger = working;
        self.steps_since_tge = steps_c;
        self.limits = limits_v;
        self.purgatory = purg_v;
        Ok(events)
    }


    /// The owner (the contract's own account).
    pub fn get_owner(&self) -> (r: u64)
        ensures
            r == self.owner(),
    {
        self.self_id
    }

    /// The configured limiter policy.
    pub fn get_limiter_policy(&self) -> (r: LimiterPolicy)
        ensures
            r == self.limiter_policy(),
    {
        self.limiter
    }

    /// The configured settlement policy.
    pub fn get_settlement_policy(&self) -> (r: SettlementPolicy)
        ensures
            r == self.settlement_policy(),
    {
        self.settlement
    }

    /// Whether batch crediting skips unregistered accounts.
    pub fn get_registration_required(&self) -> (r: bool)
        ensures
            r == self.reg_required(),
    {
        self.registration_required
    }

    /// Whether `account` has a ledger entry.
    pub fn is_account_registered(&self, account: u64) -> (r: bool)
        ensures
            r == self.ledger_view().registered(account),
    {
        self.ledger.is_registered(account)
    }

    /// A staged copy of the ledger, for operations that must fail without
    /// partial effects.
    pub(crate) fn ledger_duplicate(&self) -> (r: Ledger)
        ensures
            r.balances() == self.ledger_view().balances(),
            r.supply() == self.ledger_view().supply(),
    {
        self.ledger.duplicate()
    }

    /// Commits a staged ledger; everything else is untouched.
    pub(crate) fn set_ledger(&mut self, led: Ledger)
        ensures
            final(self).ledger_view() == led,
            final(self).steps() == old(self).steps(),
            final(self).limits_view() == old(self).limits_view(),
            final(self).purg_view() == old(self).purg_view(),
            final(self).same_admin_state(*old(self)),
    {
        self.ledger = led;
    }

    /// Commits the counter and throttle records a batch fold produced;
    /// the ledger and the administrative state are untouched.
    pub(crate) fn commit_grants(
        &mut self,
        steps: u64,
        limits: Vec<(u64, (u32, u64))>,
        purg: Vec<(u64, (u64, u64))>,
    )
        ensures
            final(self).steps() == steps,
            final(self).limits_view() == limits@,
            final(self).purg_view() == purg@,
            final(self).ledger_view() == old(self).ledger_view(),
            final(self).same_admin_state(*old(self)),
    {
        self.steps_since_tge = steps;
        self.limits = limits;
        self.purgatory = purg;
    }

    /// Burns `amount` of the caller's own balance.
    pub fn burn(&mut self, caller: u64, amount: u128) -> (r: Result<(), TokenError>)
        requires
            old(self).wf(),
        ensures
            final(self).wf(),
            r == Err::<(), TokenError>(TokenError::NotRegistered) <==> !old(
                self,
            ).ledger_view().registered(caller),
            r == Err::<(), TokenError>(TokenError::InsufficientBalance) <==> old(
                self,
            ).ledger_view().registered(caller) && old(self).bal(caller) < amount,
            r is Err ==> *final(self) == *old(self),
            r is Ok <==> old(self).ledger_view().registered(caller) && old(self).bal(caller)
                >= amount,
            r is Ok ==> {
                &&& final(self).bal(caller) == old(self).bal(caller) - amount
                &&& forall|b: u64| b != caller ==> final(self).bal(b) == old(self).bal(b)
                &&& final(self).supply() == old(self).supply() - amount
            },
            final(self).steps() == old(self).steps(),
            final(self).limits_view() == old(self).limits_view(),
            final(self).purg_view() == old(self).purg_view(),
            final(self).same_admin_state(*old(self)),
    {
        self.ledger.withdraw(caller, amount)
    }

    /// Transfers `amount` from the caller to `receiver`; both ends must be
    /// registered. The supply is unchanged.
    pub fn ft_transfer(&mut self, caller: u64, receiver: u64, amount: u128) -> (r: Result<
        (),
        TokenError,
    >)
        requires
            old(self).wf(),
        ensures
            final(self).wf(),
            r is Ok <==> caller != receiver && amount > 0 && old(self).ledger_view().registered(
                caller,
            ) && old(self).bal(caller) >= amount && old(self).ledger_view().registered(receiver),
            r is Err ==> *final(self) == *old(self),
            r == Err::<(), TokenError>(TokenError::SelfTransfer) <==> caller == receiver,
            r == Err::<(), TokenError>(TokenError::ZeroAmount) <==> caller != receiver && amount
                == 0,
            r == Err::<(), TokenError>(TokenError::NotRegistered) <==> caller != receiver && amount
                > 0 && (!old(self).ledger_view().registered(caller) || (old(self).bal(caller)
                >= amount && !old(self).ledger_view().registered(receiver))),
            r == Err::<(), TokenError>(TokenError::InsufficientBalance) <==> caller != receiver
                && amount > 0 && old(self).ledger_view().registered(caller) && old(self).bal(caller)
                < amount,
            r is Ok ==> {
                &&& final(self).bal(caller) == old(self).bal(caller) - amount
                &&& final(self).bal(receiver) == old(self).bal(receiver) + amount
                &&& forall|b: u64|
                    b != caller && b != receiver ==> final(self).bal(b) == old(self).bal(b)
                &&& final(self).supply() == old(self).supply()
            },
            final(self).steps() == old(self).steps(),
            final(self).limits_view() == old(self).limits_view(),
            final(self).purg_view() == old(self).purg_view(),
            final(self).same_admin_state(*old(self)),
    {
        self.ledger.transfer(caller, receiver, amount)
    }
}

} // verus!
