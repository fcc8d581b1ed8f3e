//! A stake ledger: per-account free and reserved balances, with the
//! narrow reserve/unreserve interface the registry's operations need.

use std::collections::HashMap;
use vstd::prelude::*;

use crate::kitty::Error;

verus! {

broadcast use vstd::std_specs::hash::group_hash_axioms;

/// How much `unreserve` gives back: the asked amount, capped by what is
/// actually reserved.
pub open spec fn unreserve_give(amount: u64, reserved: u64) -> u64 {
    if amount <= reserved {
        amount
    } else {
        reserved
    }
}

/// Per-account balances, split into a free part and a reserved part.
/// An account that was never touched holds zero of each.
pub struct Ledger {
    free: HashMap<u64, u64>,
    reserved: HashMap<u64, u64>,
}

impl Ledger {
    /// The free balance of `account`.
    pub closed spec fn free_of(self, account: u64) -> u64 {
        if self.free@.contains_key(account) {
            self.free@[account]
        } else {
            0
        }
    }

    /// The reserved balance of `account`.
    pub closed spec fn reserved_of(self, account: u64) -> u64 {
        if self.reserved@.contains_key(account) {
            self.reserved@[account]
        } else {
            0
        }
    }

    /// No account's two balances together overflow, so moving funds
    /// between the two parts never overflows either part.
    pub closed spec fn wf(self) -> bool {
        forall|a: u64| #[trigger] self.free_of(a) as int + self.reserved_of(a) as int <= u64::MAX as int
    }

    /// A ledger where every account holds nothing.
    pub fn new() -> (r: Ledger)
        ensures
            r.wf(),
            forall|a: u64| (#[trigger] r.free_of(a)) == 0,
            forall|a: u64| (#[trigger] r.reserved_of(a)) == 0,
    {
        Ledger { free: HashMap::new(), reserved: HashMap::new() }
    }

    /// Sets `account`'s free balance and clears its reserved balance;
    /// every other account is untouched.
    pub fn set_balance(&mut self, account: u64, amount: u64)
        requires
            old(self).wf(),
        ensures
            final(self).wf(),
            final(self).free_of(account) == amount,
            final(self).reserved_of(account) == 0,
            forall|a: u64| a != account ==> (#[trigger] final(self).free_of(a)) == old(
                self,
            ).free_of(a),
            forall|a: u64| a != account ==> (#[trigger] final(self).reserved_of(a)) == old(
                self,
            ).reserved_of(a),
    {
        self.free.insert(account, amount);
        self.reserved.insert(account, 0);
        proof {
            assert forall|a: u64|
                #[trigger] self.free_of(a) as int + self.reserved_of(a) as int <= u64::MAX as int by {
                assert(old(self).free_of(a) as int + old(self).reserved_of(a) as int <= u64::MAX as int);
            }
        }
    }

    /// The free balance of `account`.
    pub fn free_balance(&self, account: u64) -> (r: u64)
        ensures
            r == self.free_of(account),
    {
        match self.free.get(&account) {
            Some(v) => *v,
            None => 0,
        }
    }

    /// The reserved balance of `account`.
    pub fn reserved_balance(&self, account: u64) -> (r: u64)
        ensures
            r == self.reserved_of(account),
    {
        match self.reserved.get(&account) {
            Some(v) => *v,
            None => 0,
        }
    }

    /// Locks `amount` of `account`'s free balance. Fails, leaving every
    /// balance as it was, exactly when the free balance cannot cover the
    /// amount.
    pub fn reserve(&mut self, account: u64, amount: u64) -> (r: Result<(), Error>)
        requires
            old(self).wf(),
        ensures
            final(self).wf(),
            r is Ok <==> old(self).free_of(account) >= amount,
            r is Err ==> r == Err::<(), Error>(Error::InsufficientBalance)
                && final(self).free_of(account) == old(self).free_of(account)
                && final(self).reserved_of(account) == old(self).reserved_of(account),
            r is Ok ==> final(self).free_of(account) == old(self).free_of(account) - amount
                && final(self).reserved_of(account) == old(self).reserved_of(account) + amount,
            forall|a: u64| a != account ==> (#[trigger] final(self).free_of(a)) == old(
                self,
            ).free_of(a),
            forall|a: u64| a != account ==> (#[trigger] final(self).reserved_of(a)) == old(
                self,
            ).reserved_of(a),
    {
        let f = self.free_balance(account);
        if f < amount {
            return Err(Error::InsufficientBalance);
        }
        let res = self.reserved_balance(account);
        assert(self.free_of(account) as int + self.reserved_of(account) as int <= u64::MAX as int);
        self.free.insert(account, f - amount);
        self.reserved.insert(account, res + amount);
        proof {
            assert forall|a: u64|
                #[trigger] self.free_of(a) as int + self.reserved_of(a) as int <= u64::MAX as int by {
                assert(old(self).free_of(a) as int + old(self).reserved_of(a) as int <= u64::MAX as int);
            }
        }
        Ok(())
    }

    /// Releases up to `amount` of `account`'s reserved balance back to
    /// its free balance: the whole amount where enough is reserved,
    /// otherwise all that is. Never fails.
    pub fn unreserve(&mut self, account: u64, amount: u64)
        requires
            old(self).wf(),
        ensures
            final(self).wf(),
            final(self).free_of(account) == old(self).free_of(account)
                + unreserve_give(amount, old(self).reserved_of(account)),
            final(self).reserved_of(account) == old(self).reserved_of(account)
                - unreserve_give(amount, old(self).reserved_of(account)),
            forall|a: u64| a != account ==> (#[trigger] final(self).free_of(a)) == old(
                self,
            ).free_of(a),
            forall|a: u64| a != account ==> (#[trigger] final(self).reserved_of(a)) == old(
                self,
            ).reserved_of(a),
    {
        let res = self.reserved_balance(account);
        let give = if amount <= res { amount } else { res };
        let f = self.free_balance(account);
        assert(self.free_of(account) as int + self.reserved_of(account) as int <= u64::MAX as int);
        self.reserved.insert(account, res - give);
        self.free.insert(account, f + give);
        proof {
            assert forall|a: u64|
                #[trigger] self.free_of(a) as int + self.reserved_of(a) as int <= u64::MAX as int by {
                assert(old(self).free_of(a) as int + old(self).reserved_of(a) as int <= u64::MAX as int);
            }
        }
    }
}

} // verus!
