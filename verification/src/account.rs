//! One client account and its balance mutations.
//!
//! Balances are `i128` fixed-point values. `available` may go negative
//! when a dispute claws back funds that were already withdrawn; the
//! ledger's invariant keeps every balance far inside the `i128` range, so
//! the bounds asked for here are always met by a well-formed ledger.

use vstd::prelude::*;

verus! {

use crate::model::{zero_account, AccountModel};

/// One client account, created on first reference.
#[derive(Clone, Copy, PartialEq, Eq, Structural, Debug)]
pub struct Account {
    /// Funds usable for withdrawal.
    pub available: i128,
    /// Funds frozen pending dispute resolution.
    pub held: i128,
    /// The full balance: always `available + held`.
    pub total: i128,
    /// Set by a chargeback; a locked account accepts no transaction.
    pub locked: bool,
}

impl View for Account {
    type V = AccountModel;

    open spec fn view(&self) -> AccountModel {
        AccountModel {
            available: self.available as int,
            held: self.held as int,
            total: self.total as int,
            locked: self.locked,
        }
    }
}

impl Default for Account {
    /// A fresh account: all balances zero, unlocked.
    fn default() -> (a: Account)
        ensures
            a@ == zero_account(),
    {
        Account::new()
    }
}

impl Account {
    /// A fresh account: all balances zero, unlocked.
    pub fn new() -> (a: Account)
        ensures
            a@ == zero_account(),
    {
        Account { available: 0, held: 0, total: 0, locked: false }
    }

    /// Credit a deposit: `available` and `total` grow by the amount.
    pub fn deposit(&mut self, amount: u64)
        requires
            old(self).available + amount <= i128::MAX,
            old(self).total + amount <= i128::MAX,
        ensures
            final(self)@ == (AccountModel {
                available: old(self)@.available + amount,
                total: old(self)@.total + amount,
                ..old(self)@
            }),
    {
        self.available = self.available + (amount as i128);
        self.total = self.total + (amount as i128);
    }

    /// Attempt a withdrawal: debits `available` and `total` when the
    /// available funds cover the amount, else changes nothing.
    pub fn withdrawal(&mut self, amount: u64) -> (ok: bool)
        requires
            amount <= old(self).available ==> old(self).total - amount >= i128::MIN,
        ensures
            ok == (amount as int <= old(self)@.available),
            ok ==> final(self)@ == (AccountModel {
                available: old(self)@.available - amount,
                total: old(self)@.total - amount,
                ..old(self)@
            }),
            !ok ==> *final(self) == *old(self),
    {
        if (amount as i128) <= self.available {
            self.available = self.available - (amount as i128);
            self.total = self.total - (amount as i128);
            true
        } else {
            false
        }
    }

    /// Freeze a disputed deposit's amount: moved from `available` to
    /// `held`; `total` stands.
    pub fn dispute(&mut self, amount: u64)
        requires
            old(self).available - amount >= i128::MIN,
            old(self).held + amount <= i128::MAX,
        ensures
            final(self)@ == (AccountModel {
                available: old(self)@.available - amount,
                held: old(self)@.held + amount,
                ..old(self)@
            }),
    {
        self.available = self.available - (amount as i128);
        self.held = self.held + (amount as i128);
    }

    /// Release a disputed amount back to `available`; `total` stands.
    pub fn resolve(&mut self, amount: u64)
        requires
            old(self).available + amount <= i128::MAX,
            old(self).held - amount >= i128::MIN,
        ensures
            final(self)@ == (AccountModel {
                available: old(self)@.available + amount,
                held: old(self)@.held - amount,
                ..old(self)@
            }),
    {
        self.available = self.available + (amount as i128);
        self.held = self.held - (amount as i128);
    }

    /// Reverse a disputed deposit: `held` and `total` shrink by its
    /// amount and the account locks.
    pub fn chargeback(&mut self, amount: u64)
        requires
            old(self).held - amount >= i128::MIN,
            old(self).total - amount >= i128::MIN,
        ensures
            final(self)@ == (AccountModel {
                held: old(self)@.held - amount,
                total: old(self)@.total - amount,
                locked: true,
                ..old(self)@
            }),
    {
        self.held = self.held - (amount as i128);
        self.total = self.total - (amount as i128);
        self.locked = true;
    }
}

} // verus!
