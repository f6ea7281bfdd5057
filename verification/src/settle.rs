//! Two-phase deferred settlement: phase 1 prices a batch and computes what
//! the holding party and the oracle are owed, phase 2 reconciles the ledger
//! once the outcome of the external notification is known.
//!
//! The two phases are separate activations of the contract; the state that
//! must survive the asynchronous boundary travels in a call-scoped
//! [`PendingSettlement`] value, never in a shared pending table. Under the
//! optimistic-credit policy phase 1 credits the ledger immediately and a
//! failed notification is compensated by burning the credits back; under
//! confirm-then-credit phase 1 leaves the ledger alone and only a successful
//! acknowledgment credits it. The cumulative activity counter advances in
//! phase 1 unconditionally — it records activity consumed, not tokens
//! settled, and is never rolled back.

use crate::contract::{credited_total, fee_total, lemma_entry_totals_nonneg, Contract};
use crate::ledger::Ledger;
use crate::types::{SettlementPolicy, TokenError, TokenEvent};
use vstd::prelude::*;

verus! {

/// Execution budget that must remain for the notification and its
/// reconciliation before phase 1 agrees to run.
pub const GAS_FOR_DEFER: u64 = 30_000_000_000_000;

/// The correlation token carried from phase 1 into phase 2: everything the
/// reconciliation needs to credit or compensate.
pub struct PendingSettlement {
    /// The holding party to be credited with the batch's net proceeds.
    pub receiver: u64,
    /// The oracle to be credited with the aggregate fee.
    pub fee_account: u64,
    /// Per-account attribution of the net proceeds, for the holding party's
    /// bookkeeping.
    pub amounts: Vec<(u64, u128)>,
    /// Sum of the user shares in `amounts`.
    pub total_net: u128,
    /// Aggregate oracle fee of the batch.
    pub total_fee: u128,
    /// The settlement policy phase 1 ran under.
    pub policy: SettlementPolicy,
}

/// The attribution list of a batch: one `(account, user share)` pair per
/// credited entry, skipped entries left out.
pub open spec fn credited_entries(
    es: Seq<(u64, u128, u128)>,
    required: bool,
    led: Ledger,
) -> Seq<(u64, u128)>
    decreases es.len(),
{
    if es.len() == 0 {
        Seq::empty()
    } else {
        (if !required || led.registered(es[0].0) {
            seq![(es[0].0, es[0].1)]
        } else {
            Seq::empty()
        }) + credited_entries(es.drop_first(), required, led)
    }
}

impl Contract {
    /// Net proceeds a deferred batch owes the holding party.
    pub open spec fn defer_net(self, batch: Seq<(u64, u32)>, now: u64) -> int {
        credited_total(
            self.record_grants(batch, now).entries,
            self.reg_required(),
            self.ledger_view(),
        )
    }

    /// Aggregate fee a deferred batch owes the oracle.
    pub open spec fn defer_fee(self, batch: Seq<(u64, u32)>, now: u64) -> int {
        fee_total(self.record_grants(batch, now).entries)
    }

    /// When deferring a batch fails closed: the counter, a running total, or
    /// — under optimistic credit — the supply would leave its range.
    pub open spec fn defer_overflow(self, batch: Seq<(u64, u32)>, now: u64) -> bool {
        let g = self.record_grants(batch, now);
        ||| g.steps > u64::MAX
        ||| self.defer_net(batch, now) > u128::MAX
        ||| self.defer_fee(batch, now) > u128::MAX
        ||| (self.settlement_policy() is OptimisticCredit && self.supply() + self.defer_net(
            batch,
            now,
        ) + self.defer_fee(batch, now) > u128::MAX)
    }

    /// The state after phase 1 of a deferred batch: the counter and the
    /// throttle records advance exactly as for direct recording; under
    /// confirm-then-credit the ledger is untouched, under optimistic credit
    /// the fee and the net proceeds are already credited.
    pub open spec fn defer_ok_state(
        self,
        post: Contract,
        batch: Seq<(u64, u32)>,
        now: u64,
        caller: u64,
        holding: u64,
    ) -> bool {
        let g = self.record_grants(batch, now);
        let net = self.defer_net(batch, now);
        let fee = self.defer_fee(batch, now);
        &&& post.steps() as int == g.steps
        &&& post.limits_view() == g.limits
        &&& post.purg_view() == g.purg
        &&& post.same_admin_state(self)
        &&& (self.settlement_policy() is ConfirmThenCredit ==> post.ledger_view().balances()
            == self.ledger_view().balances() && post.supply() == self.supply())
        &&& (self.settlement_policy() is OptimisticCredit ==> {
            &&& post.supply() == self.supply() + fee + net
            &&& forall|b: u64|
                post.bal(b) as int == self.bal(b) + (if b == caller {
                    fee
                } else {
                    0
                }) + (if b == holding {
                    net
                } else {
                    0
                })
            &&& forall|b: u64|
                post.ledger_view().registered(b) == (self.ledger_view().registered(b) || b
                    == caller || b == holding)
        })
    }

    /// What the pending token of a successful phase 1 holds.
    pub open spec fn defer_pending_ok(
        self,
        p: PendingSettlement,
        batch: Seq<(u64, u32)>,
        now: u64,
        caller: u64,
        holding: u64,
    ) -> bool {
        &&& p.receiver == holding
        &&& p.fee_account == caller
        &&& p.amounts@ == credited_entries(
            self.record_grants(batch, now).entries,
            self.reg_required(),
            self.ledger_view(),
        )
        &&& p.total_net as int == self.defer_net(batch, now)
        &&& p.total_fee as int == self.defer_fee(batch, now)
        &&& p.policy == self.settlement_policy()
    }

    /// Why compensating a failed optimistic settlement would fail: the
    /// optimistically credited balances are no longer there to burn back —
    /// another call moved them between the two activations.
    pub open spec fn burn_back_error(self, p: PendingSettlement) -> Option<TokenError> {
        if !self.ledger_view().registered(p.fee_account) {
            Some(TokenError::NotRegistered)
        } else if self.bal(p.fee_account) < p.total_fee {
            Some(TokenError::InsufficientBalance)
        } else if !self.ledger_view().registered(p.receiver) {
            Some(TokenError::NotRegistered)
        } else if (self.bal(p.receiver) as int) - (if p.receiver == p.fee_account {
            p.total_fee as int
        } else {
            0
        }) < p.total_net as int {
            Some(TokenError::InsufficientBalance)
        } else {
            None
        }
    }

    /// The state after a successful phase 2: credited on acknowledged
    /// confirm-then-credit, compensated on failed optimistic credit, and
    /// untouched in the two remaining cases. The counter and throttle
    /// records never change in phase 2.
    pub open spec fn reconcile_ok_state(
        self,
        post: Contract,
        p: PendingSettlement,
        success: bool,
    ) -> bool {
        let fee = p.total_fee as int;
        let net = p.total_net as int;
        &&& (p.policy is ConfirmThenCredit && success ==> {
            &&& post.supply() == self.supply() + fee + net
            &&& forall|b: u64|
                post.bal(b) as int == self.bal(b) + (if b == p.fee_account {
                    fee
                } else {
                    0
                }) + (if b == p.receiver {
                    net
                } else {
                    0
                })
        })
        &&& (p.policy is ConfirmThenCredit && !success ==> post.ledger_view().balances()
            == self.ledger_view().balances() && post.supply() == self.supply())
        &&& (p.policy is OptimisticCredit && success ==> post.ledger_view().balances()
            == self.ledger_view().balances() && post.supply() == self.supply())
        &&& (p.policy is OptimisticCredit && !success ==> {
            &&& post.supply() == self.supply() - fee - net
            &&& forall|b: u64|
                post.bal(b) as int == self.bal(b) - (if b == p.fee_account {
                    fee
                } else {
                    0
                }) - (if b == p.receiver {
                    net
                } else {
                    0
                })
        })
        &&& post.steps() == self.steps()
        &&& post.limits_view() == self.limits_view()
        &&& post.purg_view() == self.purg_view()
        &&& post.same_admin_state(self)
    }

    /// Phase 1 of deferred settlement: prices the batch like direct
    /// recording, but computes — and, under optimistic credit, credits — the
    /// holding party's net proceeds and the oracle's fee instead of paying
    /// end users. Returns the correlation token for phase 2 and the mint
    /// events already emitted (optimistic credit only). Requires enough
    /// prepaid execution budget to guarantee that phase 2 can run, and an
    /// oracle caller; fails closed on any overflow with nothing changed.
    pub fn defer_batch(
        &mut self,
        caller: u64,
        batch: Vec<(u64, u32)>,
        holding_account: u64,
        prepaid_gas: u64,
        now: u64,
    ) -> (r: Result<(PendingSettlement, Vec<TokenEvent>), TokenError>)
        requires
            old(self).wf(),
        ensures
            final(self).wf(),
            r matches Err(e) && e == TokenError::InsufficientBudget <==> prepaid_gas
                <= GAS_FOR_DEFER,
            r matches Err(e) && e == TokenError::Unauthorized <==> prepaid_gas > GAS_FOR_DEFER
                && !old(self).is_oracle(caller),
            r matches Err(e) && e == TokenError::Overflow <==> prepaid_gas > GAS_FOR_DEFER && old(
                self,
            ).is_oracle(caller) && old(self).defer_overflow(batch@, now),
            r is Ok <==> prepaid_gas > GAS_FOR_DEFER && old(self).is_oracle(caller) && !old(
                self,
            ).defer_overflow(batch@, now),
            r is Err ==> *final(self) == *old(self),
            r matches Ok(t) ==> {
                &&& old(self).defer_ok_state(*final(self), batch@, now, caller, holding_account)
                &&& old(self).defer_pending_ok(t.0, batch@, now, caller, holding_account)
                &&& (old(self).settlement_policy() is ConfirmThenCredit ==> t.1@ =~= Seq::<
                    TokenEvent,
                >::empty())
                &&& (old(self).settlement_policy() is OptimisticCredit ==> t.1@ =~= seq![
                    TokenEvent::Mint { account: caller, amount: t.0.total_fee },
                    TokenEvent::Mint { account: holding_account, amount: t.0.total_net },
                ])
            },
    {
        if prepaid_gas <= GAS_FOR_DEFER {
            return Err(TokenError::InsufficientBudget);
        }
        if !self.contains_oracle(caller) {
            return Err(TokenError::Unauthorized);
        }
        let ghost g = self.record_grants(batch@, now);
        let priced = match self.price_batch(&batch, now) {
            Ok(t) => t,
            Err(_) => {
                return Err(TokenError::Overflow);
            },
        };
        let entries_v = priced.0;
        let steps_c = priced.1;
        let limits_v = priced.2;
        let purg_v = priced.3;
        let req = self.get_registration_required();
        let ghost led0 = self.ledger_view();
        let mut amounts: Vec<(u64, u128)> = Vec::new();
        let mut net_acc: u128 = 0;
        let mut fee_acc: u128 = 0;
        let ghost es = entries_v@;
        let m = entries_v.len();
        let mut j: usize = 0;
        proof {
            assert(es.subrange(0, m as int) =~= es);
            assert(amounts@ =~= Seq::<(u64, u128)>::empty());
        }
        while j < m
            invariant
                j <= m,
                m == es.len(),
                es == entries_v@,
                es == g.entries,
                *self == *old(self),
                old(self).wf(),
                old(self).is_oracle(caller),
                req == old(self).reg_required(),
                led0 == old(self).ledger_view(),
                g == old(self).record_grants(batch@, now),
                g.steps <= u64::MAX,
                prepaid_gas > GAS_FOR_DEFER,
                net_acc + credited_total(es.subrange(j as int, m as int), req, led0)
                    == credited_total(es, req, led0),
                fee_acc + fee_total(es.subrange(j as int, m as int)) == fee_total(es),
                amounts@ + credited_entries(es.subrange(j as int, m as int), req, led0)
                    == credited_entries(es, req, led0),
            decreases m - j,
        {
            let ghost rem_e = es.subrange(j as int, m as int);
            proof {
                assert(rem_e[0] == es[j as int]);
                assert(rem_e.drop_first() =~= es.subrange(j + 1, m as int));
                lemma_entry_totals_nonneg(rem_e.drop_first(), es[j as int].0, req, led0);
            }
            let e = entries_v[j];
            let credit: bool = if req {
                self.is_account_registered(e.0)
            } else {
                true
            };
            if credit {
                if e.1 > u128::MAX - net_acc {
                    proof {
                        lemma_entry_totals_nonneg(es, e.0, req, led0);
                    }
                    return Err(TokenError::Overflow);
                }
                net_acc = net_acc + e.1;
                amounts.push((e.0, e.1));
            }
            if e.2 > u128::MAX - fee_acc {
                proof {
                    lemma_entry_totals_nonneg(es, e.0, req, led0);
                }
                return Err(TokenError::Overflow);
            }
            fee_acc = fee_acc + e.2;
            proof {
                let head: Seq<(u64, u128)> = if !req || led0.registered(rem_e[0].0) {
                    seq![(rem_e[0].0, rem_e[0].1)]
                } else {
                    Seq::empty()
                };
                assert(credited_entries(rem_e, req, led0) == head + credited_entries(
                    rem_e.drop_first(),
                    req,
                    led0,
                ));
                assert(amounts@ + credited_entries(es.subrange(j + 1, m as int), req, led0)
                    =~= credited_entries(es, req, led0));
            }
            j = j + 1;
        }
        proof {
            assert(es.subrange(m as int, m as int) =~= Seq::<(u64, u128, u128)>::empty());
            assert(credited_entries(
                Seq::<(u64, u128, u128)>::empty(),
                req,
                led0,
            ) =~= Seq::<(u64, u128)>::empty());
            assert(amounts@ =~= credited_entries(es, req, led0));
        }
        let optimistic = match self.get_settlement_policy() {
            SettlementPolicy::OptimisticCredit => true,
            SettlementPolicy::ConfirmThenCredit => false,
        };
        let mut events: Vec<TokenEvent> = Vec::new();
        if optimistic {
            let mut working = self.ledger_duplicate();
            match working.deposit(caller, fee_acc) {
                Ok(()) => {},
                Err(_) => {
                    proof {
                        lemma_entry_totals_nonneg(es, caller, req, led0);
                    }
                    return Err(TokenError::Overflow);
                },
            }
            match working.deposit(holding_account, net_acc) {
                Ok(()) => {},
                Err(_) => {
                    return Err(TokenError::Overflow);
                },
            }
            self.set_ledger(working);
            events.push(TokenEvent::Mint { account: caller, amount: fee_acc });
            events.push(TokenEvent::Mint { account: holding_account, amount: net_acc });
        }
        self.commit_grants(steps_c, limits_v, purg_v);
        let pending = PendingSettlement {
            receiver: holding_account,
            fee_account: caller,
            amounts,
            total_net: net_acc,
            total_fee: fee_acc,
            policy: if optimistic {
                SettlementPolicy::OptimisticCredit
            } else {
                SettlementPolicy::ConfirmThenCredit
            },
        };
        Ok((pending, events))
    }

    /// Phase 2 of deferred settlement, run by the contract itself once the
    /// outcome of the notification is known. On acknowledged
    /// confirm-then-credit it credits the fee and the net proceeds; on
    /// failed optimistic credit it burns them back, reporting a burn event
    /// pair; otherwise it leaves the ledger untouched. Fails closed — with
    /// nothing changed — if crediting would overflow the supply or the
    /// compensating burn finds the credited balances already moved.
    pub fn on_record(&mut self, caller: u64, pending: PendingSettlement, success: bool) -> (r:
        Result<Vec<TokenEvent>, TokenError>)
        requires
            old(self).wf(),
        ensures
            final(self).wf(),
            r == Err::<Vec<TokenEvent>, TokenError>(TokenError::Unauthorized) <==> caller != old(
                self,
            ).owner(),
            r is Err ==> *final(self) == *old(self),
            caller == old(self).owner() && pending.policy is ConfirmThenCredit && success ==> {
                &&& (r == Err::<Vec<TokenEvent>, TokenError>(TokenError::Overflow) <==> old(
                    self,
                ).supply() + pending.total_fee + pending.total_net > u128::MAX)
                &&& (r is Ok <==> old(self).supply() + pending.total_fee + pending.total_net
                    <= u128::MAX)
            },
            caller == old(self).owner() && !(pending.policy is ConfirmThenCredit && success) && !(
            pending.policy is OptimisticCredit && !success) ==> r is Ok,
            caller == old(self).owner() && pending.policy is OptimisticCredit && !success ==> match
                old(self).burn_back_error(pending) {
                Some(e) => r == Err::<Vec<TokenEvent>, TokenError>(e),
                None => r is Ok,
            },
            r is Ok ==> old(self).reconcile_ok_state(*final(self), pending, success),
            r matches Ok(events) ==> {
                &&& (pending.policy is ConfirmThenCredit && success ==> events@ =~= seq![
                    TokenEvent::Mint { account: pending.fee_account, amount: pending.total_fee },
                    TokenEvent::Mint { account: pending.receiver, amount: pending.total_net },
                ])
                &&& (pending.policy is OptimisticCredit && !success ==> events@ =~= seq![
                    TokenEvent::Burn { account: pending.fee_account, amount: pending.total_fee },
                    TokenEvent::Burn { account: pending.receiver, amount: pending.total_net },
                ])
                &&& (!(pending.policy is ConfirmThenCredit && success) && !(
                pending.policy is OptimisticCredit && !success) ==> events@ =~= Seq::<
                    TokenEvent,
                >::empty())
            },
    {
        if caller != self.get_owner() {
            return Err(TokenError::Unauthorized);
        }
        let confirm = match pending.policy {
            SettlementPolicy::ConfirmThenCredit => true,
            SettlementPolicy::OptimisticCredit => false,
        };
        let mut events: Vec<TokenEvent> = Vec::new();
        if confirm && success {
            if pending.total_net > u128::MAX - pending.total_fee {
                return Err(TokenError::Overflow);
            }
            let mut working = self.ledger_duplicate();
            match working.deposit(pending.fee_account, pending.total_fee) {
                Ok(()) => {},
                Err(_) => {
                    return Err(TokenError::Overflow);
                },
            }
            match working.deposit(pending.receiver, pending.total_net) {
                Ok(()) => {},
                Err(_) => {
                    return Err(TokenError::Overflow);
                },
            }
            self.set_ledger(working);
            events.push(TokenEvent::Mint {
                account: pending.fee_account,
                amount: pending.total_fee,
            });
            events.push(TokenEvent::Mint { account: pending.receiver, amount: pending.total_net });
        } else if !confirm && !success {
            let mut working = self.ledger_duplicate();
            match working.withdraw(pending.fee_account, pending.total_fee) {
                Ok(()) => {},
                Err(e) => {
                    return Err(e);
                },
            }
            match working.withdraw(pending.receiver, pending.total_net) {
                Ok(()) => {},
                Err(e) => {
                    return Err(e);
                },
            }
            self.set_ledger(working);
            events.push(TokenEvent::Burn {
                account: pending.fee_account,
                amount: pending.total_fee,
            });
            events.push(TokenEvent::Burn { account: pending.receiver, amount: pending.total_net });
        }
        Ok(events)
    }
}

/// Settlement terminal invariant: once phase 1 of a deferred batch and its
/// phase 2 reconciliation have both completed, the total supply has grown by
/// exactly `total_fee + total_net` if the notification succeeded, and not at
/// all if it failed — under either settlement policy.
pub proof fn lemma_settlement_terminal(
    c0: Contract,
    c1: Contract,
    c2: Contract,
    p: PendingSettlement,
    batch: Seq<(u64, u32)>,
    now: u64,
    caller: u64,
    holding: u64,
    success: bool,
)
    requires
        c0.defer_ok_state(c1, batch, now, caller, holding),
        c0.defer_pending_ok(p, batch, now, caller, holding),
        c1.reconcile_ok_state(c2, p, success),
    ensures
        c2.supply() as int == c0.supply() + if success {
            p.total_fee + p.total_net
        } else {
            0
        },
{
}

} // verus!
