//! The mathematical model of the ledger and its transition function.
//!
//! `LedgerModel` is the ghost state the executable engine is proved
//! against: the per-client accounts, the tables of accepted deposits and
//! withdrawals, the dispute-status table and the rejection log.
//! `spec_apply` says exactly what one transaction does to that state and
//! which rejection, if any, it earns; `wf_model` is the balance invariant
//! every reachable state satisfies.

use vstd::prelude::*;

verus! {

use crate::record::{Tx, TxKind};
use crate::sums::sum_over;

/// Why the engine refused a transaction.
#[derive(Clone, Copy, PartialEq, Eq, Structural, Debug)]
pub enum RejectionReason {
    /// The account already underwent a chargeback and accepts nothing.
    AccountLocked,
    /// The transaction id was already accepted in its own kind's table,
    /// or the deposit was already disputed once.
    DuplicateTransactionId,
    /// A withdrawal asked for more than the available funds.
    InsufficientFunds,
    /// A dispute, resolve or chargeback referenced a transaction id with
    /// no accepted deposit.
    ReferencedDepositNotFound,
    /// The referenced deposit belongs to a different client.
    ClientMismatch,
    /// A resolve or chargeback referenced a deposit that was never disputed.
    DisputeNotFound,
    /// A resolve or chargeback hit a dispute already closed.
    DisputeNotPending,
}

/// The lifecycle state of a dispute against an accepted deposit.
#[derive(Clone, Copy, PartialEq, Eq, Structural, Debug)]
pub enum DisputeStatus {
    Pending,
    Resolved,
    ChargedBack,
}

impl Default for DisputeStatus {
    /// A dispute starts out pending.
    fn default() -> (s: DisputeStatus)
        ensures
            s == DisputeStatus::Pending,
    {
        DisputeStatus::Pending
    }
}

/// An accepted deposit, retained so later disputes can look up the owning
/// client and the amount.
#[derive(Clone, Copy, PartialEq, Eq, Structural, Debug)]
pub struct DepositRec {
    pub client_id: u16,
    pub amount: u64,
}

/// An accepted withdrawal, retained for the duplicate-id check.
#[derive(Clone, Copy, PartialEq, Eq, Structural, Debug)]
pub struct WithdrawalRec {
    pub client_id: u16,
    pub amount: u64,
}

/// The model of one account: unbounded integers, so the arithmetic in the
/// transition function is exact.
#[verifier::ext_equal]
pub ghost struct AccountModel {
    pub available: int,
    pub held: int,
    pub total: int,
    pub locked: bool,
}

/// A fresh account: all balances zero, unlocked.
pub open spec fn zero_account() -> AccountModel {
    AccountModel { available: 0, held: 0, total: 0, locked: false }
}

/// The model of the whole engine state.
#[verifier::ext_equal]
pub ghost struct LedgerModel {
    pub accounts: Map<u16, AccountModel>,
    pub deposits: Map<u32, DepositRec>,
    pub withdrawals: Map<u32, WithdrawalRec>,
    pub disputes: Map<u32, DisputeStatus>,
    pub rejections: Seq<(Tx, RejectionReason)>,
}

/// The engine's starting state: no accounts, no accepted transactions,
/// no disputes, an empty rejection log.
pub open spec fn empty_model() -> LedgerModel {
    LedgerModel {
        accounts: Map::empty(),
        deposits: Map::empty(),
        withdrawals: Map::empty(),
        disputes: Map::empty(),
        rejections: Seq::empty(),
    }
}

// ---------------------------------------------------------------------------
// Sums of deposit amounts, per client
// ---------------------------------------------------------------------------

/// The weight of a transaction id: the amount of its accepted deposit.
pub open spec fn amount_of(deposits: Map<u32, DepositRec>) -> spec_fn(u32) -> int {
    |t: u32| deposits[t].amount as int
}

/// The ids of all accepted deposits owned by client `c`.
pub open spec fn deposit_tids(deposits: Map<u32, DepositRec>, c: u16) -> Set<u32> {
    deposits.dom().filter(|t: u32| deposits[t].client_id == c)
}

/// The ids of client `c`'s deposits whose dispute is pending.
pub open spec fn pending_tids(
    deposits: Map<u32, DepositRec>,
    disputes: Map<u32, DisputeStatus>,
    c: u16,
) -> Set<u32> {
    deposit_tids(deposits, c).filter(
        |t: u32| disputes.contains_key(t) && disputes[t] is Pending,
    )
}

/// The ids of client `c`'s deposits whose dispute is open or ended in a
/// chargeback: exactly the disputes that ever pulled funds out of
/// `available` and never gave them back.
pub open spec fn unresolved_tids(
    deposits: Map<u32, DepositRec>,
    disputes: Map<u32, DisputeStatus>,
    c: u16,
) -> Set<u32> {
    deposit_tids(deposits, c).filter(
        |t: u32| disputes.contains_key(t) && !(disputes[t] is Resolved),
    )
}

/// The sum of all accepted deposit amounts of client `c`.
pub open spec fn deposit_sum(deposits: Map<u32, DepositRec>, c: u16) -> int {
    sum_over(deposit_tids(deposits, c), amount_of(deposits))
}

/// The funds of client `c` frozen under pending disputes.
pub open spec fn pending_sum(
    deposits: Map<u32, DepositRec>,
    disputes: Map<u32, DisputeStatus>,
    c: u16,
) -> int {
    sum_over(pending_tids(deposits, disputes, c), amount_of(deposits))
}

/// The deposit amounts of client `c` ever moved out of `available` by a
/// dispute and not returned by a resolve.
pub open spec fn unresolved_sum(
    deposits: Map<u32, DepositRec>,
    disputes: Map<u32, DisputeStatus>,
    c: u16,
) -> int {
    sum_over(unresolved_tids(deposits, disputes, c), amount_of(deposits))
}

// ---------------------------------------------------------------------------
// The balance invariant
// ---------------------------------------------------------------------------

/// The balance invariant of one account: the total is the available and
/// held funds together; the held funds are exactly the amounts of the
/// client's pending disputes; the available funds never fall below the
/// negated sum of the disputes that drained them, and together with the
/// held funds never exceed what was ever deposited.
pub open spec fn account_ok(m: LedgerModel, c: u16) -> bool {
    let a = m.accounts[c];
    &&& a.total == a.available + a.held
    &&& a.held == pending_sum(m.deposits, m.disputes, c)
    &&& a.available >= -unresolved_sum(m.deposits, m.disputes, c)
    &&& a.available + a.held <= deposit_sum(m.deposits, c)
}

/// The invariant of the whole ledger state.
pub open spec fn wf_model(m: LedgerModel) -> bool {
    &&& m.accounts.dom().finite()
    &&& m.deposits.dom().finite()
    &&& m.withdrawals.dom().finite()
    &&& m.disputes.dom().finite()
    &&& m.disputes.dom() <= m.deposits.dom()
    &&& forall|t: u32|
        m.deposits.dom().contains(t) ==> m.accounts.dom().contains(
            #[trigger] m.deposits[t].client_id,
        )
    &&& forall|c: u16| m.accounts.dom().contains(c) ==> #[trigger] account_ok(m, c)
}

// ---------------------------------------------------------------------------
// The transition function
// ---------------------------------------------------------------------------

/// The state with an account for `c`: unchanged if one exists, else a fresh
/// zero account. Every transaction creates the account it references,
/// whether or not it is then accepted.
pub open spec fn with_account(m: LedgerModel, c: u16) -> LedgerModel {
    if m.accounts.contains_key(c) {
        m
    } else {
        LedgerModel { accounts: m.accounts.insert(c, zero_account()), ..m }
    }
}

/// The state after rejecting `tx` for `why`: only the rejection log grows.
pub open spec fn rejected(m: LedgerModel, tx: Tx, why: RejectionReason) -> (
    LedgerModel,
    Result<(), RejectionReason>,
) {
    (LedgerModel { rejections: m.rejections.push((tx, why)), ..m }, Err(why))
}

/// A deposit: credits `available` and `total` and records the deposit,
/// unless the account is locked or the id was already accepted.
pub open spec fn apply_deposit(m: LedgerModel, tx: Tx) -> (
    LedgerModel,
    Result<(), RejectionReason>,
) {
    let a = m.accounts[tx.client_id];
    let amt = tx.amount.unwrap() as int;
    if a.locked {
        rejected(m, tx, RejectionReason::AccountLocked)
    } else if m.deposits.contains_key(tx.tx_id) {
        rejected(m, tx, RejectionReason::DuplicateTransactionId)
    } else {
        let a2 = AccountModel {
            available: a.available + amt,
            total: a.total + amt,
            ..a
        };
        let rec = DepositRec { client_id: tx.client_id, amount: tx.amount.unwrap() };
        (
            LedgerModel {
                accounts: m.accounts.insert(tx.client_id, a2),
                deposits: m.deposits.insert(tx.tx_id, rec),
                ..m
            },
            Ok(()),
        )
    }
}

/// A withdrawal: debits `available` and `total` and records the
/// withdrawal, unless the account is locked, the id was already accepted,
/// or the funds do not suffice.
pub open spec fn apply_withdrawal(m: LedgerModel, tx: Tx) -> (
    LedgerModel,
    Result<(), RejectionReason>,
) {
    let a = m.accounts[tx.client_id];
    let amt = tx.amount.unwrap() as int;
    if a.locked {
        rejected(m, tx, RejectionReason::AccountLocked)
    } else if m.withdrawals.contains_key(tx.tx_id) {
        rejected(m, tx, RejectionReason::DuplicateTransactionId)
    } else if amt > a.available {
        rejected(m, tx, RejectionReason::InsufficientFunds)
    } else {
        let a2 = AccountModel {
            available: a.available - amt,
            total: a.total - amt,
            ..a
        };
        let rec = WithdrawalRec { client_id: tx.client_id, amount: tx.amount.unwrap() };
        (
            LedgerModel {
                accounts: m.accounts.insert(tx.client_id, a2),
                withdrawals: m.withdrawals.insert(tx.tx_id, rec),
                ..m
            },
            Ok(()),
        )
    }
}

/// A dispute: freezes the referenced deposit's amount, moving it from
/// `available` to `held`, and opens a pending dispute.
pub open spec fn apply_dispute(m: LedgerModel, tx: Tx) -> (
    LedgerModel,
    Result<(), RejectionReason>,
) {
    let a = m.accounts[tx.client_id];
    if a.locked {
        rejected(m, tx, RejectionReason::AccountLocked)
    } else if m.disputes.contains_key(tx.tx_id) {
        rejected(m, tx, RejectionReason::DuplicateTransactionId)
    } else if !m.deposits.contains_key(tx.tx_id) {
        rejected(m, tx, RejectionReason::ReferencedDepositNotFound)
    } else if m.deposits[tx.tx_id].client_id != tx.client_id {
        rejected(m, tx, RejectionReason::ClientMismatch)
    } else {
        let amt = m.deposits[tx.tx_id].amount as int;
        let a2 = AccountModel {
            available: a.available - amt,
            held: a.held + amt,
            ..a
        };
        (
            LedgerModel {
                accounts: m.accounts.insert(tx.client_id, a2),
                disputes: m.disputes.insert(tx.tx_id, DisputeStatus::Pending),
                ..m
            },
            Ok(()),
        )
    }
}

/// The gating shared by resolves and chargebacks: both demand an unlocked
/// account, an existing dispute on an existing deposit of the same client,
/// and that the dispute is still pending. The first failing check names
/// the rejection.
pub open spec fn closing_gate(m: LedgerModel, tx: Tx) -> Option<RejectionReason> {
    let a = m.accounts[tx.client_id];
    if a.locked {
        Some(RejectionReason::AccountLocked)
    } else if !m.disputes.contains_key(tx.tx_id) {
        Some(RejectionReason::DisputeNotFound)
    } else if !m.deposits.contains_key(tx.tx_id) {
        Some(RejectionReason::ReferencedDepositNotFound)
    } else if m.deposits[tx.tx_id].client_id != tx.client_id {
        Some(RejectionReason::ClientMismatch)
    } else if !(m.disputes[tx.tx_id] is Pending) {
        Some(RejectionReason::DisputeNotPending)
    } else {
        None
    }
}

/// A resolve: releases the disputed amount back to `available` and closes
/// the dispute in the client's favour.
pub open spec fn apply_resolve(m: LedgerModel, tx: Tx) -> (
    LedgerModel,
    Result<(), RejectionReason>,
) {
    match closing_gate(m, tx) {
        Some(why) => rejected(m, tx, why),
        None => {
            let a = m.accounts[tx.client_id];
            let amt = m.deposits[tx.tx_id].amount as int;
            let a2 = AccountModel {
                available: a.available + amt,
                held: a.held - amt,
                ..a
            };
            (
                LedgerModel {
                    accounts: m.accounts.insert(tx.client_id, a2),
                    disputes: m.disputes.insert(tx.tx_id, DisputeStatus::Resolved),
                    ..m
                },
                Ok(()),
            )
        },
    }
}

/// A chargeback: reverses the disputed deposit, debiting `held` and
/// `total`, closes the dispute against the client and locks the account.
pub open spec fn apply_chargeback(m: LedgerModel, tx: Tx) -> (
    LedgerModel,
    Result<(), RejectionReason>,
) {
    match closing_gate(m, tx) {
        Some(why) => rejected(m, tx, why),
        None => {
            let a = m.accounts[tx.client_id];
            let amt = m.deposits[tx.tx_id].amount as int;
            let a2 = AccountModel {
                held: a.held - amt,
                total: a.total - amt,
                locked: true,
                ..a
            };
            (
                LedgerModel {
                    accounts: m.accounts.insert(tx.client_id, a2),
                    disputes: m.disputes.insert(tx.tx_id, DisputeStatus::ChargedBack),
                    ..m
                },
                Ok(()),
            )
        },
    }
}

/// What one transaction does: the account it references is created if
/// absent, then the rules of its kind run against the current state.
pub open spec fn spec_apply(m: LedgerModel, tx: Tx) -> (
    LedgerModel,
    Result<(), RejectionReason>,
) {
    let m1 = with_account(m, tx.client_id);
    match tx.kind {
        TxKind::Deposit => apply_deposit(m1, tx),
        TxKind::Withdrawal => apply_withdrawal(m1, tx),
        TxKind::Dispute => apply_dispute(m1, tx),
        TxKind::Resolve => apply_resolve(m1, tx),
        TxKind::Chargeback => apply_chargeback(m1, tx),
    }
}

/// The state after replaying a whole sequence of transactions in order.
pub open spec fn spec_apply_seq(m: LedgerModel, txs: Seq<Tx>) -> LedgerModel
    decreases txs.len(),
{
    if txs.len() == 0 {
        m
    } else {
        spec_apply_seq(spec_apply(m, txs[0]).0, txs.drop_first())
    }
}

/// Replaying `txs` and then one more transaction is one step applied to
/// the state after the replay.
pub proof fn lemma_apply_seq_snoc(m: LedgerModel, txs: Seq<Tx>, tx: Tx)
    ensures
        spec_apply_seq(m, txs.push(tx)) == spec_apply(spec_apply_seq(m, txs), tx).0,
    decreases txs.len(),
{
    reveal_with_fuel(spec_apply_seq, 3);
    if txs.len() == 0 {
        assert(txs.push(tx).drop_first() =~= Seq::<Tx>::empty());
        assert(txs.push(tx)[0] == tx);
    } else {
        assert(txs.push(tx).drop_first() =~= txs.drop_first().push(tx));
        assert(txs.push(tx)[0] == txs[0]);
        lemma_apply_seq_snoc(spec_apply(m, txs[0]).0, txs.drop_first(), tx);
    }
}

} // verus!
