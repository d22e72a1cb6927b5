//! The executable ledger engine.
//!
//! `Ledger` owns the accounts, the tables of accepted deposits and
//! withdrawals, the dispute-status table and the rejection log, and
//! applies one transaction at a time. Every mutation is proved equal to
//! the model transition `spec_apply`, and the balance invariant
//! `wf_model` holds after every step.

use vstd::prelude::*;

verus! {

use std::collections::HashMap;
use crate::account::Account;
use crate::model::{
    closing_gate, empty_model, lemma_apply_seq_snoc, rejected, spec_apply, spec_apply_seq,
    wf_model, with_account, DepositRec, DisputeStatus, LedgerModel, RejectionReason,
    WithdrawalRec,
};
use crate::record::{Tx, TxKind};
use crate::safety::{
    lemma_account_bounds, lemma_apply_preserves_wf, lemma_rejected_wf, lemma_with_account_wf,
    max_sum,
};

broadcast use vstd::std_specs::hash::group_hash_axioms;

/// One row of the final balance snapshot.
#[derive(Clone, Copy, PartialEq, Eq, Structural, Debug)]
pub struct BalanceRow {
    pub client_id: u16,
    pub available: i128,
    pub held: i128,
    pub total: i128,
    pub locked: bool,
}

/// The ledger engine: the whole mutable state of one run.
pub struct Ledger {
    accounts: HashMap<u16, Account>,
    client_ids: Vec<u16>,
    deposits: HashMap<u32, DepositRec>,
    withdrawals: HashMap<u32, WithdrawalRec>,
    disputes: HashMap<u32, DisputeStatus>,
    rejections: Vec<(Tx, RejectionReason)>,
}

impl View for Ledger {
    type V = LedgerModel;

    closed spec fn view(&self) -> LedgerModel {
        LedgerModel {
            accounts: self.accounts@.map_values(|a: Account| a@),
            deposits: self.deposits@,
            withdrawals: self.withdrawals@,
            disputes: self.disputes@,
            rejections: self.rejections@,
        }
    }
}

impl Default for Ledger {
    /// A fresh engine, as `Ledger::new` builds it.
    fn default() -> (l: Ledger)
        ensures
            l.wf(),
            l@ == empty_model(),
    {
        Ledger::new()
    }
}

impl Ledger {
    /// Well-formedness: the model invariant holds, and the sorted list of
    /// client ids names exactly the accounts that exist.
    pub closed spec fn wf(&self) -> bool {
        &&& wf_model(self@)
        &&& forall|i: int, j: int|
            0 <= i < j < self.client_ids@.len() ==> self.client_ids@[i] < self.client_ids@[j]
        &&& forall|i: int|
            0 <= i < self.client_ids@.len() ==> self@.accounts.contains_key(
                #[trigger] self.client_ids@[i],
            )
        &&& forall|c: u16| self@.accounts.contains_key(c) ==> self.client_ids@.contains(c)
    }

    /// A well-formed ledger's model satisfies the balance invariant.
    pub proof fn lemma_wf_model(&self)
        requires
            self.wf(),
        ensures
            wf_model(self@),
    {
    }

    /// A fresh engine: no accounts, nothing accepted, nothing rejected.
    pub fn new() -> (l: Ledger)
        ensures
            l.wf(),
            l@ == empty_model(),
    {
        let l = Ledger {
            accounts: HashMap::new(),
            client_ids: Vec::new(),
            deposits: HashMap::new(),
            withdrawals: HashMap::new(),
            disputes: HashMap::new(),
            rejections: Vec::new(),
        };
        proof {
            assert(l@ =~= empty_model());
            assert(l@.accounts.dom() =~= Set::empty());
        }
        l
    }

    /// Create the account for `c` if it does not exist yet, keeping the
    /// sorted id list in step.
    fn ensure_account(&mut self, c: u16)
        requires
            old(self).wf(),
        ensures
            final(self).wf(),
            final(self)@ == with_account(old(self)@, c),
            final(self)@.accounts.contains_key(c),
    {
        if !self.accounts.contains_key(&c) {
            let ghost m0 = self@;
            let ghost ids0 = self.client_ids@;
            proof {
                lemma_with_account_wf(m0, c);
            }
            self.accounts.insert(c, Account::new());
            let mut i: usize = 0;
            while i < self.client_ids.len() && self.client_ids[i] < c
                invariant
                    i <= self.client_ids@.len(),
                    forall|j: int| 0 <= j < i ==> self.client_ids@[j] < c,
                decreases self.client_ids@.len() - i,
            {
                i = i + 1;
            }
            proof {
                assert(forall|j: int|
                    0 <= j < ids0.len() ==> m0.accounts.contains_key(#[trigger] ids0[j]));
                assert(forall|j: int| 0 <= j < ids0.len() ==> ids0[j] != c);
                assert(forall|j: int| i <= j < ids0.len() ==> ids0[j] > c) by {
                    assert(forall|j: int|
                        i < j < ids0.len() ==> ids0[i as int] < #[trigger] ids0[j]);
                }
            }
            self.client_ids.insert(i, c);
            proof {
                ids0.insert_ensures(i as int, c);
                assert(self@ =~= with_account(m0, c));
                let ids1 = self.client_ids@;
                assert forall|p: int, q: int| 0 <= p < q < ids1.len() implies ids1[p]
                    < ids1[q] by {
                    if q < i {
                        assert(ids1[p] == ids0[p] && ids1[q] == ids0[q]);
                    } else if p > i {
                        assert(ids1[p] == ids0[p - 1] && ids1[q] == ids0[q - 1]);
                    } else if p == i {
                        assert(ids1[q] == ids0[q - 1] && ids0[q - 1] > c);
                    } else if q == i {
                        assert(ids1[p] == ids0[p] && ids0[p] < c);
                    } else {
                        assert(ids1[p] == ids0[p] && ids1[q] == ids0[q - 1]);
                        assert(ids0[p] < c && ids0[q - 1] > c);
                    }
                }
                assert forall|j: int| 0 <= j < ids1.len() implies self@.accounts.contains_key(
                    #[trigger] ids1[j],
                ) by {
                    if j < i {
                        assert(ids1[j] == ids0[j]);
                    } else if j > i {
                        assert(ids1[j] == ids0[j - 1]);
                    }
                }
                assert forall|x: u16| self@.accounts.contains_key(x) implies ids1.contains(x) by {
                    if x == c {
                        assert(ids1[i as int] == x);
                    } else {
                        assert(m0.accounts.contains_key(x));
                        assert(ids0.contains(x));
                        let j = choose|j: int| 0 <= j < ids0.len() && ids0[j] == x;
                        if j < i {
                            assert(ids1[j] == x);
                        } else {
                            assert(ids1[j + 1] == x);
                        }
                    }
                }
            }
        } else {
            proof {
                assert(self@ =~= with_account(self@, c));
            }
        }
    }

    /// Apply one transaction: the account it references is created if
    /// absent, then the rules of its kind run. The state moves exactly as
    /// `spec_apply` says, and the result names the rejection, if any.
    pub fn process_tx(&mut self, tx: Tx) -> (r: Result<(), RejectionReason>)
        requires
            old(self).wf(),
            tx.wf(),
        ensures
            final(self).wf(),
            final(self)@ == spec_apply(old(self)@, tx).0,
            r == spec_apply(old(self)@, tx).1,
    {
        let ghost m0 = self@;
        let c = tx.client_id;
        let t = tx.tx_id;
        self.ensure_account(c);
        let ghost m1 = self@;
        proof {
            lemma_apply_preserves_wf(m0, tx);
            lemma_account_bounds(m1, c);
            assert(max_sum() == 0xffff_ffff_ffff_ffff_0000_0000int);
        }
        assert(self.accounts@.contains_key(c));
        let a = *self.accounts.get(&c).unwrap();
        proof {
            assert(a@ == m1.accounts[c]);
        }
        match tx.kind {
            TxKind::Deposit => {
                let amount = tx.amount.unwrap();
                if a.locked {
                    self.rejections.push((tx, RejectionReason::AccountLocked));
                    proof {
                        assert(self@ =~= spec_apply(m0, tx).0);
                    }
                    return Err(RejectionReason::AccountLocked);
                }
                if self.deposits.contains_key(&t) {
                    self.rejections.push((tx, RejectionReason::DuplicateTransactionId));
                    proof {
                        assert(self@ =~= spec_apply(m0, tx).0);
                    }
                    return Err(RejectionReason::DuplicateTransactionId);
                }
                let mut acct = a;
                acct.deposit(amount);
                self.accounts.insert(c, acct);
                self.deposits.insert(t, DepositRec { client_id: c, amount });
                proof {
                    assert(self@.accounts =~= m1.accounts.insert(c, acct@));
                    assert(self@ =~= spec_apply(m0, tx).0);
                    assert(self@.accounts.dom() =~= m1.accounts.dom());
                }
                Ok(())
            },
            TxKind::Withdrawal => {
                let amount = tx.amount.unwrap();
                if a.locked {
                    self.rejections.push((tx, RejectionReason::AccountLocked));
                    proof {
                        assert(self@ =~= spec_apply(m0, tx).0);
                    }
                    return Err(RejectionReason::AccountLocked);
                }
                if self.withdrawals.contains_key(&t) {
                    self.rejections.push((tx, RejectionReason::DuplicateTransactionId));
                    proof {
                        assert(self@ =~= spec_apply(m0, tx).0);
                    }
                    return Err(RejectionReason::DuplicateTransactionId);
                }
                let mut acct = a;
                let ok = acct.withdrawal(amount);
                if !ok {
                    self.rejections.push((tx, RejectionReason::InsufficientFunds));
                    proof {
                        assert(self@ =~= spec_apply(m0, tx).0);
                    }
                    return Err(RejectionReason::InsufficientFunds);
                }
                self.accounts.insert(c, acct);
                self.withdrawals.insert(t, WithdrawalRec { client_id: c, amount });
                proof {
                    assert(self@.accounts =~= m1.accounts.insert(c, acct@));
                    assert(self@ =~= spec_apply(m0, tx).0);
                    assert(self@.accounts.dom() =~= m1.accounts.dom());
                }
                Ok(())
            },
            TxKind::Dispute => {
                if a.locked {
                    self.rejections.push((tx, RejectionReason::AccountLocked));
                    proof {
                        assert(self@ =~= spec_apply(m0, tx).0);
                    }
                    return Err(RejectionReason::AccountLocked);
                }
                if self.disputes.contains_key(&t) {
                    self.rejections.push((tx, RejectionReason::DuplicateTransactionId));
                    proof {
                        assert(self@ =~= spec_apply(m0, tx).0);
                    }
                    return Err(RejectionReason::DuplicateTransactionId);
                }
                let dep = match self.deposits.get(&t) {
                    Some(d) => *d,
                    None => {
                        self.rejections.push((tx, RejectionReason::ReferencedDepositNotFound));
                        proof {
                            assert(self@ =~= spec_apply(m0, tx).0);
                        }
                        return Err(RejectionReason::ReferencedDepositNotFound);
                    },
                };
                if dep.client_id != c {
                    self.rejections.push((tx, RejectionReason::ClientMismatch));
                    proof {
                        assert(self@ =~= spec_apply(m0, tx).0);
                    }
                    return Err(RejectionReason::ClientMismatch);
                }
                let mut acct = a;
                acct.dispute(dep.amount);
                self.accounts.insert(c, acct);
                self.disputes.insert(t, DisputeStatus::Pending);
                proof {
                    assert(self@.accounts =~= m1.accounts.insert(c, acct@));
                    assert(self@ =~= spec_apply(m0, tx).0);
                    assert(self@.accounts.dom() =~= m1.accounts.dom());
                }
                Ok(())
            },
            TxKind::Resolve => {
                match self.closing_checks(tx, a) {
                    Err(why) => {
                        proof {
                            assert(self@ =~= spec_apply(m0, tx).0);
                        }
                        Err(why)
                    },
                    Ok(dep) => {
                        let mut acct = a;
                        acct.resolve(dep.amount);
                        self.accounts.insert(c, acct);
                        self.disputes.insert(t, DisputeStatus::Resolved);
                        proof {
                            assert(self@.accounts =~= m1.accounts.insert(c, acct@));
                            assert(self@ =~= spec_apply(m0, tx).0);
                            assert(self@.accounts.dom() =~= m1.accounts.dom());
                        }
                        Ok(())
                    },
                }
            },
            TxKind::Chargeback => {
                match self.closing_checks(tx, a) {
                    Err(why) => {
                        proof {
                            assert(self@ =~= spec_apply(m0, tx).0);
                        }
                        Err(why)
                    },
                    Ok(dep) => {
                        let mut acct = a;
                        acct.chargeback(dep.amount);
                        self.accounts.insert(c, acct);
                        self.disputes.insert(t, DisputeStatus::ChargedBack);
                        proof {
                            assert(self@.accounts =~= m1.accounts.insert(c, acct@));
                            assert(self@ =~= spec_apply(m0, tx).0);
                            assert(self@.accounts.dom() =~= m1.accounts.dom());
                        }
                        Ok(())
                    },
                }
            },
        }
    }

    /// Replay a whole sequence of transactions in order.
    pub fn process_txs(&mut self, txs: &Vec<Tx>)
        requires
            old(self).wf(),
            forall|i: int| 0 <= i < txs@.len() ==> (#[trigger] txs@[i]).wf(),
        ensures
            final(self).wf(),
            final(self)@ == spec_apply_seq(old(self)@, txs@),
    {
        let ghost m0 = self@;
        let mut i: usize = 0;
        while i < txs.len()
            invariant
                i <= txs@.len(),
                self.wf(),
                self@ == spec_apply_seq(m0, txs@.take(i as int)),
                forall|j: int| 0 <= j < txs@.len() ==> (#[trigger] txs@[j]).wf(),
            decreases txs@.len() - i,
        {
            let tx = txs[i];
            let _ = self.process_tx(tx);
            proof {
                lemma_apply_seq_snoc(m0, txs@.take(i as int), tx);
                assert(txs@.take(i as int).push(tx) =~= txs@.take(i + 1));
            }
            i = i + 1;
        }
        proof {
            assert(txs@.take(txs@.len() as int) =~= txs@);
        }
    }

    /// The account of `client_id`, if any transaction ever referenced it.
    pub fn account(&self, client_id: u16) -> (r: Option<Account>)
        ensures
            r is Some <==> self@.accounts.contains_key(client_id),
            r is Some ==> r.unwrap()@ == self@.accounts[client_id],
    {
        match self.accounts.get(&client_id) {
            Some(a) => Some(*a),
            None => None,
        }
    }

    /// The log of rejected transactions, each with its reason, in input
    /// order.
    pub fn rejections(&self) -> (r: &Vec<(Tx, RejectionReason)>)
        ensures
            r@ == self@.rejections,
    {
        &self.rejections
    }

    /// The final snapshot: one row per account, sorted by client id,
    /// carrying exactly the account's balances and lock state.
    pub fn snapshot(&self) -> (rows: Vec<BalanceRow>)
        requires
            self.wf(),
        ensures
            forall|i: int|
                0 <= i < rows@.len() ==> self@.accounts.contains_key(
                    (#[trigger] rows@[i]).client_id,
                ),
            forall|i: int|
                0 <= i < rows@.len() ==> {
                    let a = self@.accounts[(#[trigger] rows@[i]).client_id];
                    &&& rows@[i].available == a.available
                    &&& rows@[i].held == a.held
                    &&& rows@[i].total == a.total
                    &&& rows@[i].locked == a.locked
                },
            forall|i: int, j: int|
                0 <= i < j < rows@.len() ==> rows@[i].client_id < rows@[j].client_id,
            forall|c: u16|
                self@.accounts.contains_key(c) ==> exists|i: int|
                    0 <= i < rows@.len() && (#[trigger] rows@[i]).client_id == c,
    {
        let mut rows: Vec<BalanceRow> = Vec::new();
        let n = self.client_ids.len();
        let mut i: usize = 0;
        while i < n
            invariant
                self.wf(),
                n == self.client_ids@.len(),
                i <= n,
                rows@.len() == i,
                forall|j: int|
                    0 <= j < i ==> (#[trigger] rows@[j]).client_id == self.client_ids@[j],
                forall|j: int|
                    0 <= j < i ==> {
                        let a = self@.accounts[(#[trigger] rows@[j]).client_id];
                        &&& rows@[j].available == a.available
                        &&& rows@[j].held == a.held
                        &&& rows@[j].total == a.total
                        &&& rows@[j].locked == a.locked
                    },
            decreases n - i,
        {
            let c = self.client_ids[i];
            let a = *self.accounts.get(&c).unwrap();
            proof {
                assert(a@ == self@.accounts[c]);
            }
            rows.push(
                BalanceRow {
                    client_id: c,
                    available: a.available,
                    held: a.held,
                    total: a.total,
                    locked: a.locked,
                },
            );
            i = i + 1;
        }
        proof {
            assert forall|c: u16| self@.accounts.contains_key(c) implies exists|k: int|
                0 <= k < rows@.len() && (#[trigger] rows@[k]).client_id == c by {
                assert(self.client_ids@.contains(c));
                let j = choose|j: int|
                    0 <= j < self.client_ids@.len() && self.client_ids@[j] == c;
                assert(rows@[j].client_id == c);
            }
        }
        rows
    }

    /// The gating shared by resolves and chargebacks: on failure the
    /// rejection is logged and returned; on success nothing changes and
    /// the referenced deposit comes back.
    fn closing_checks(&mut self, tx: Tx, a: Account) -> (r: Result<DepositRec, RejectionReason>)
        requires
            old(self).wf(),
            old(self)@.accounts.contains_key(tx.client_id),
            a@ == old(self)@.accounts[tx.client_id],
        ensures
            final(self).wf(),
            final(self)@.accounts == old(self)@.accounts,
            final(self)@.deposits == old(self)@.deposits,
            final(self)@.withdrawals == old(self)@.withdrawals,
            final(self)@.disputes == old(self)@.disputes,
            match closing_gate(old(self)@, tx) {
                Some(why) => r == Err::<DepositRec, RejectionReason>(why) && final(self)@.rejections
                    == old(self)@.rejections.push((tx, why)),
                None => r == Ok::<DepositRec, RejectionReason>(old(self)@.deposits[tx.tx_id])
                    && final(self)@.rejections == old(self)@.rejections,
            },
    {
        let ghost m = self@;
        let t = tx.tx_id;
        if a.locked {
            self.rejections.push((tx, RejectionReason::AccountLocked));
            proof {
                assert(self@ =~= rejected(m, tx, RejectionReason::AccountLocked).0);
                lemma_rejected_wf(m, tx, RejectionReason::AccountLocked);
            }
            return Err(RejectionReason::AccountLocked);
        }
        let st = match self.disputes.get(&t) {
            Some(s) => *s,
            None => {
                self.rejections.push((tx, RejectionReason::DisputeNotFound));
                proof {
                    assert(self@ =~= rejected(m, tx, RejectionReason::DisputeNotFound).0);
                    lemma_rejected_wf(m, tx, RejectionReason::DisputeNotFound);
                }
                return Err(RejectionReason::DisputeNotFound);
            },
        };
        let dep = match self.deposits.get(&t) {
            Some(d) => *d,
            None => {
                self.rejections.push((tx, RejectionReason::ReferencedDepositNotFound));
                proof {
                    assert(self@ =~= rejected(m, tx, RejectionReason::ReferencedDepositNotFound).0);
                    lemma_rejected_wf(m, tx, RejectionReason::ReferencedDepositNotFound);
                }
                return Err(RejectionReason::ReferencedDepositNotFound);
            },
        };
        if dep.client_id != tx.client_id {
            self.rejections.push((tx, RejectionReason::ClientMismatch));
            proof {
                assert(self@ =~= rejected(m, tx, RejectionReason::ClientMismatch).0);
                lemma_rejected_wf(m, tx, RejectionReason::ClientMismatch);
            }
            return Err(RejectionReason::ClientMismatch);
        }
        let pending = match st {
            DisputeStatus::Pending => true,
            _ => false,
        };
        if !pending {
            self.rejections.push((tx, RejectionReason::DisputeNotPending));
            proof {
                assert(self@ =~= rejected(m, tx, RejectionReason::DisputeNotPending).0);
                lemma_rejected_wf(m, tx, RejectionReason::DisputeNotPending);
            }
            return Err(RejectionReason::DisputeNotPending);
        }
        Ok(dep)
    }
}

} // verus!
