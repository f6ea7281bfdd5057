//! The balance store: per-account balances plus the total supply, with the
//! invariant that the supply always equals the sum of all balances.

use crate::assoc::{
    get_val, has_key, lemma_get_absent, lemma_get_at_first_index, lemma_has_key_index,
    lemma_put_at_first_index, lemma_put_absent, lemma_put_get, lemma_put_unique, put_val,
    unique_keys,
};
use crate::types::TokenError;
use vstd::pervasive::VecAdditionalExecFns;
use vstd::prelude::*;

verus! {

/// Sum of all stored balances.
pub open spec fn sum_vals(s: Seq<(u64, u128)>) -> int
    decreases s.len(),
{
    if s.len() == 0 {
        0
    } else {
        s[0].1 + sum_vals(s.drop_first())
    }
}

/// The sum is non-negative and bounds every single read.
pub proof fn lemma_get_le_sum(s: Seq<(u64, u128)>, a: u64)
    ensures
        0 <= sum_vals(s),
        get_val(s, a, 0u128) <= sum_vals(s),
    decreases s.len(),
{
    if s.len() > 0 {
        lemma_get_le_sum(s.drop_first(), a);
    }
}

/// Two distinct keys never hold more than the sum together.
pub proof fn lemma_two_get_le_sum(s: Seq<(u64, u128)>, a: u64, b: u64)
    requires
        a != b,
    ensures
        get_val(s, a, 0u128) + get_val(s, b, 0u128) <= sum_vals(s),
    decreases s.len(),
{
    if s.len() > 0 {
        if s[0].0 == a {
            lemma_get_le_sum(s.drop_first(), b);
        } else if s[0].0 == b {
            lemma_get_le_sum(s.drop_first(), a);
        } else {
            lemma_two_get_le_sum(s.drop_first(), a, b);
        }
    }
}

/// Replacing the value at a key changes the sum by the difference.
pub proof fn lemma_sum_put(s: Seq<(u64, u128)>, a: u64, v: u128)
    ensures
        sum_vals(put_val(s, a, v)) == sum_vals(s) - get_val(s, a, 0u128) + v,
    decreases s.len(),
{
    let p = put_val(s, a, v);
    if s.len() == 0 {
        assert(p.drop_first() =~= Seq::<(u64, u128)>::empty());
        assert(sum_vals(p.drop_first()) == 0);
    } else if s[0].0 == a {
        assert(p == s.update(0, (a, v)));
        assert(p.drop_first() =~= s.drop_first());
        assert(p[0] == (a, v));
    } else {
        lemma_sum_put(s.drop_first(), a, v);
        assert(p[0] == s[0]);
        assert(p.drop_first() =~= put_val(s.drop_first(), a, v));
    }
}

/// The ledger invariant, spelled out: in every well-formed store — and
/// every operation of this module both requires and re-establishes
/// well-formedness, so this holds after every call — the sum of all
/// balances equals the recorded total supply.
pub proof fn lemma_supply_is_balance_sum(l: Ledger)
    requires
        l.wf(),
    ensures
        sum_vals(l.balances()) == l.supply(),
{
}

/// The balance store. Balances are kept as an association vector keyed by
/// account identifier; the keys are pairwise distinct and the recorded total
/// supply equals the sum of all balances.
pub struct Ledger {
    accounts: Vec<(u64, u128)>,
    total_supply: u128,
}

impl Ledger {
    /// The association sequence of account balances.
    pub closed spec fn balances(self) -> Seq<(u64, u128)> {
        self.accounts@
    }

    /// The recorded total supply.
    pub closed spec fn supply(self) -> u128 {
        self.total_supply
    }

    /// The balance of `a`, zero when the account has no entry.
    pub open spec fn bal(self, a: u64) -> u128 {
        get_val(self.balances(), a, 0u128)
    }

    /// Whether `a` has an entry in the store.
    pub open spec fn registered(self, a: u64) -> bool {
        has_key(self.balances(), a)
    }

    /// Well-formedness: keys are pairwise distinct, and the sum of all
    /// balances equals the total supply. Every constructor establishes this
    /// and every operation preserves it, so it holds after every call.
    pub open spec fn wf(self) -> bool {
        &&& unique_keys(self.balances())
        &&& sum_vals(self.balances()) == self.supply()
    }

    /// An empty store with zero supply.
    pub fn new() -> (r: Ledger)
        ensures
            r.wf(),
            r.supply() == 0,
            r.balances() == Seq::<(u64, u128)>::empty(),
            forall|b: u64| !r.registered(b),
    {
        let r = Ledger { accounts: Vec::new(), total_supply: 0 };
        proof {
            assert forall|b: u64| !r.registered(b) by {
                lemma_has_key_index(r.balances(), b);
            }
        }
        r
    }

    /// Index of the entry for `a`, if any.
    fn find(&self, a: u64) -> (r: Option<usize>)
        ensures
            match r {
                Some(i) => {
                    &&& i < self.balances().len()
                    &&& self.balances()[i as int].0 == a
                    &&& forall|j: int| 0 <= j < i ==> self.balances()[j].0 != a
                },
                None => !self.registered(a),
            },
    {
        let n = self.accounts.len();
        let mut i: usize = 0;
        while i < n
            invariant
                i <= n,
                n == self.balances().len(),
                forall|j: int| 0 <= j < i ==> self.balances()[j].0 != a,
            decreases n - i,
        {
            if self.accounts[i].0 == a {
                return Some(i);
            }
            i = i + 1;
        }
        proof {
            lemma_has_key_index(self.balances(), a);
        }
        None
    }

    /// The balance of `a`, zero when unregistered.
    pub fn balance_of(&self, a: u64) -> (r: u128)
        ensures
            r == self.bal(a),
    {
        match self.find(a) {
            Some(i) => {
                proof {
                    lemma_get_at_first_index(self.balances(), a, 0u128, i as int);
                }
                self.accounts[i].1
            },
            None => {
                proof {
                    lemma_get_absent(self.balances(), a, 0u128);
                }
                0
            },
        }
    }

    /// The recorded total supply.
    pub fn total_supply(&self) -> (r: u128)
        ensures
            r == self.supply(),
    {
        self.total_supply
    }

    /// Whether `a` has an entry in the store.
    pub fn is_registered(&self, a: u64) -> (r: bool)
        ensures
            r == self.registered(a),
    {
        proof {
            lemma_has_key_index(self.balances(), a);
        }
        match self.find(a) {
            Some(_) => true,
            None => false,
        }
    }

    /// Creates a zero-balance entry for `a` if there is none yet; balances
    /// and the supply are unchanged.
    pub fn register_account(&mut self, a: u64)
        requires
            old(self).wf(),
        ensures
            final(self).wf(),
            final(self).supply() == old(self).supply(),
            forall|b: u64| final(self).bal(b) == old(self).bal(b),
            forall|b: u64| final(self).registered(b) == (old(self).registered(b) || b == a),
    {
        let ghost s0 = self.balances();
        match self.find(a) {
            Some(_) => {
                proof {
                    assert forall|b: u64| final(self).registered(b) == (old(self).registered(b) || b
                        == a) by {
                        if b == a {
                            lemma_has_key_index(s0, a);
                        }
                    }
                }
            },
            None => {
                self.accounts.push((a, 0));
                proof {
                    lemma_put_absent(s0, a, 0u128);
                    lemma_sum_put(s0, a, 0u128);
                    lemma_get_absent(s0, a, 0u128);
                    lemma_put_unique(s0, a, 0u128);
                    assert(self.balances() == put_val(s0, a, 0u128));
                    assert forall|b: u64|
                        final(self).bal(b) == old(self).bal(b) && final(self).registered(b) == (old(self).registered(b) || b == a) by {
                        lemma_put_get(s0, a, 0u128, b, 0u128);
                    }
                }
            },
        }
    }

    /// Mints or credits `amount` to `a`, creating the entry when absent.
    /// Fails closed with `Overflow` exactly when the new supply would not be
    /// representable; the balance itself can then not overflow either.
    pub fn deposit(&mut self, a: u64, amount: u128) -> (r: Result<(), TokenError>)
        requires
            old(self).wf(),
        ensures
            final(self).wf(),
            r == Err::<(), TokenError>(TokenError::Overflow) <==> old(self).supply() + amount
                > u128::MAX,
            r is Ok <==> old(self).supply() + amount <= u128::MAX,
            r is Err ==> *final(self) == *old(self),
            r is Ok ==> {
                &&& final(self).balances() == put_val(
                    old(self).balances(),
                    a,
                    (old(self).bal(a) + amount) as u128,
                )
                &&& final(self).supply() == old(self).supply() + amount
                &&& final(self).bal(a) == old(self).bal(a) + amount
                &&& forall|b: u64| b != a ==> final(self).bal(b) == old(self).bal(b)
                &&& forall|b: u64|
                    final(self).registered(b) == (old(self).registered(b) || b == a)
            },
    {
        proof {
            lemma_get_le_sum(self.balances(), a);
        }
        if amount > u128::MAX - self.total_supply {
            return Err(TokenError::Overflow);
        }
        let ghost s0 = self.balances();
        let ghost nb = (get_val(s0, a, 0u128) + amount) as u128;
        match self.find(a) {
            Some(i) => {
                let b0 = self.accounts[i].1;
                proof {
                    lemma_get_at_first_index(s0, a, 0u128, i as int);
                    lemma_put_at_first_index(s0, a, nb, i as int);
                }
                self.accounts.set(i, (a, b0 + amount));
            },
            None => {
                proof {
                    lemma_get_absent(s0, a, 0u128);
                    lemma_put_absent(s0, a, nb);
                }
                self.accounts.push((a, amount));
            },
        }
        self.total_supply = self.total_supply + amount;
        proof {
            assert(self.balances() == put_val(s0, a, nb));
            lemma_sum_put(s0, a, nb);
            lemma_put_unique(s0, a, nb);
            assert forall|b: u64|
                (b != a ==> final(self).bal(b) == old(self).bal(b)) && final(self).registered(b)
                    == (old(self).registered(b) || b == a) by {
                lemma_put_get(s0, a, nb, b, 0u128);
            }
            lemma_put_get(s0, a, nb, a, 0u128);
        }
        Ok(())
    }

    /// Burns `amount` from `a`. Fails with `NotRegistered` when `a` has no
    /// entry, and with `InsufficientBalance` when the balance is too small;
    /// otherwise the balance and the supply both shrink by `amount`.
    pub fn withdraw(&mut self, a: u64, amount: u128) -> (r: Result<(), TokenError>)
        requires
            old(self).wf(),
        ensures
            final(self).wf(),
            r == Err::<(), TokenError>(TokenError::NotRegistered) <==> !old(self).registered(a),
            r == Err::<(), TokenError>(TokenError::InsufficientBalance) <==> old(self).registered(a)
                && old(self).bal(a) < amount,
            r is Err ==> *final(self) == *old(self),
            r is Ok <==> old(self).registered(a) && old(self).bal(a) >= amount,
            r is Ok ==> {
                &&& final(self).balances() == put_val(
                    old(self).balances(),
                    a,
                    (old(self).bal(a) - amount) as u128,
                )
                &&& final(self).supply() == old(self).supply() - amount
                &&& final(self).bal(a) == old(self).bal(a) - amount
                &&& forall|b: u64| b != a ==> final(self).bal(b) == old(self).bal(b)
                &&& forall|b: u64| final(self).registered(b) == old(self).registered(b)
            },
    {
        let ghost s0 = self.balances();
        match self.find(a) {
            Some(i) => {
                let b0 = self.accounts[i].1;
                proof {
                    lemma_get_at_first_index(s0, a, 0u128, i as int);
                    lemma_get_le_sum(s0, a);
                }
                if b0 < amount {
                    return Err(TokenError::InsufficientBalance);
                }
                let ghost nb = (get_val(s0, a, 0u128) - amount) as u128;
                proof {
                    lemma_put_at_first_index(s0, a, nb, i as int);
                }
                self.accounts.set(i, (a, b0 - amount));
                self.total_supply = self.total_supply - amount;
                proof {
                    assert(self.balances() == put_val(s0, a, nb));
                    lemma_sum_put(s0, a, nb);
                    lemma_put_unique(s0, a, nb);
                    assert forall|b: u64|
                        (b != a ==> final(self).bal(b) == old(self).bal(b)) && final(self).registered(b) == old(self).registered(b) by {
                        lemma_put_get(s0, a, nb, b, 0u128);
                        lemma_has_key_index(s0, a);
                    }
                    lemma_put_get(s0, a, nb, a, 0u128);
                }
                Ok(())
            },
            None => Err(TokenError::NotRegistered),
        }
    }

    /// Moves `amount` from `from` to `to`. Transfers between an account and
    /// itself and transfers of zero are rejected; both ends must already be
    /// registered, and the sender must hold the amount. The supply is
    /// unchanged, and the receiving balance cannot overflow because the two
    /// balances together never exceed the supply.
    pub fn transfer(&mut self, from: u64, to: u64, amount: u128) -> (r: Result<(), TokenError>)
        requires
            old(self).wf(),
        ensures
            final(self).wf(),
            r == Err::<(), TokenError>(TokenError::SelfTransfer) <==> from == to,
            r == Err::<(), TokenError>(TokenError::ZeroAmount) <==> from != to && amount == 0,
            r == Err::<(), TokenError>(TokenError::NotRegistered) <==> from != to && amount > 0 && (
            !old(self).registered(from) || (old(self).bal(from) >= amount && !old(self).registered(
                to,
            ))),
            r == Err::<(), TokenError>(TokenError::InsufficientBalance) <==> from != to && amount
                > 0 && old(self).registered(from) && old(self).bal(from) < amount,
            r is Err ==> *final(self) == *old(self),
            r is Ok <==> from != to && amount > 0 && old(self).registered(from) && old(self).bal(
                from,
            ) >= amount && old(self).registered(to),
            r is Ok ==> {
                &&& final(self).supply() == old(self).supply()
                &&& final(self).bal(from) == old(self).bal(from) - amount
                &&& final(self).bal(to) == old(self).bal(to) + amount
                &&& forall|b: u64|
                    b != from && b != to ==> final(self).bal(b) == old(self).bal(b)
                &&& forall|b: u64| final(self).registered(b) == old(self).registered(b)
            },
    {
        if from == to {
            return Err(TokenError::SelfTransfer);
        }
        if amount == 0 {
            return Err(TokenError::ZeroAmount);
        }
        let ghost s0 = self.balances();
        let i = match self.find(from) {
            Some(i) => i,
            None => {
                return Err(TokenError::NotRegistered);
            },
        };
        let from_bal = self.accounts[i].1;
        proof {
            lemma_get_at_first_index(s0, from, 0u128, i as int);
        }
        if from_bal < amount {
            return Err(TokenError::InsufficientBalance);
        }
        let j = match self.find(to) {
            Some(j) => j,
            None => {
                return Err(TokenError::NotRegistered);
            },
        };
        let to_bal = self.accounts[j].1;
        proof {
            lemma_get_at_first_index(s0, to, 0u128, j as int);
            lemma_two_get_le_sum(s0, from, to);
            lemma_get_le_sum(s0, from);
            lemma_put_at_first_index(s0, from, (from_bal - amount) as u128, i as int);
        }
        let ghost s1 = put_val(s0, from, (from_bal - amount) as u128);
        self.accounts.set(i, (from, from_bal - amount));
        proof {
            assert(self.balances() == s1);
            assert(self.balances()[j as int] == s0[j as int]);
            assert(forall|k: int| 0 <= k < j ==> self.balances()[k].0 == s0[k].0);
            lemma_put_at_first_index(s1, to, (to_bal + amount) as u128, j as int);
        }
        self.accounts.set(j, (to, to_bal + amount));
        proof {
            assert(self.balances() == put_val(s1, to, (to_bal + amount) as u128));
            lemma_sum_put(s0, from, (from_bal - amount) as u128);
            lemma_put_unique(s0, from, (from_bal - amount) as u128);
            lemma_put_get(s0, from, (from_bal - amount) as u128, to, 0u128);
            lemma_sum_put(s1, to, (to_bal + amount) as u128);
            lemma_put_unique(s1, to, (to_bal + amount) as u128);
            assert forall|b: u64|
                (b != from && b != to ==> final(self).bal(b) == old(self).bal(b)) && final(self).registered(b) == old(self).registered(b) by {
                lemma_put_get(s0, from, (from_bal - amount) as u128, b, 0u128);
                lemma_put_get(s1, to, (to_bal + amount) as u128, b, 0u128);
                lemma_has_key_index(s0, from);
                lemma_has_key_index(s0, to);
            }
            lemma_put_get(s1, to, (to_bal + amount) as u128, from, 0u128);
            lemma_put_get(s1, to, (to_bal + amount) as u128, to, 0u128);
            lemma_put_get(s0, from, (from_bal - amount) as u128, from, 0u128);
        }
        Ok(())
    }

    /// A deep copy, used by batch operations to stage updates that must not
    /// survive a failed call.
    pub fn duplicate(&self) -> (r: Ledger)
        ensures
            r.balances() == self.balances(),
            r.supply() == self.supply(),
    {
        let n = self.accounts.len();
        let mut acc: Vec<(u64, u128)> = Vec::new();
        let mut i: usize = 0;
        while i < n
            invariant
                i <= n,
                n == self.balances().len(),
                acc@ == self.balances().subrange(0, i as int),
            decreases n - i,
        {
            acc.push(self.accounts[i]);
            proof {
                assert(acc@ =~= self.balances().subrange(0, i + 1));
            }
            i = i + 1;
        }
        proof {
            assert(acc@ =~= self.balances());
        }
        Ledger { accounts: acc, total_supply: self.total_supply }
    }
}

} // verus!
