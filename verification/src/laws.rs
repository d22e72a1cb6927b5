//! The engine's laws, stated and proved against the transition function.
//!
//! Each proof function here is a theorem about `spec_apply`, the model of
//! `Ledger::process_tx`: the balance invariant is kept, duplicates are
//! rejected without effect, the dispute lifecycle is a strict state
//! machine, and a locked account is absolute.

use vstd::prelude::*;

verus! {

use crate::model::{
    spec_apply, wf_model, with_account, LedgerModel, RejectionReason,
};
use crate::record::Tx;
use crate::safety::{lemma_account_bounds, lemma_apply_preserves_wf};

/// Law: the balance invariant holds at every point in processing. One
/// step from a well-formed state is well-formed again, and every account
/// keeps `total == available + held` with non-negative held funds.
pub proof fn lemma_step_keeps_invariant(m: LedgerModel, tx: Tx, c: u16)
    requires
        wf_model(m),
        tx.wf(),
    ensures
        wf_model(spec_apply(m, tx).0),
        spec_apply(m, tx).0.accounts.contains_key(c) ==> {
            let a = spec_apply(m, tx).0.accounts[c];
            &&& a.total == a.available + a.held
            &&& a.held >= 0
        },
{
    lemma_apply_preserves_wf(m, tx);
    if spec_apply(m, tx).0.accounts.contains_key(c) {
        lemma_account_bounds(spec_apply(m, tx).0, c);
    }
}

/// Law: `available` decreases only through an accepted withdrawal that
/// the funds covered, or through an accepted dispute that moved a
/// deposit's amount into `held`.
pub proof fn lemma_available_decrease(m: LedgerModel, tx: Tx, c: u16)
    requires
        wf_model(m),
        tx.wf(),
        m.accounts.contains_key(c),
        spec_apply(m, tx).0.accounts[c].available < m.accounts[c].available,
    ensures
        tx.client_id == c,
        spec_apply(m, tx).1 is Ok,
        (tx.kind is Withdrawal && tx.amount.unwrap() <= m.accounts[c].available) || (tx.kind
            is Dispute && m.deposits.contains_key(tx.tx_id) && m.deposits[tx.tx_id].client_id == c
            && spec_apply(m, tx).0.accounts[c].held == m.accounts[c].held
            + m.deposits[tx.tx_id].amount),
{
    let m1 = with_account(m, tx.client_id);
    assert(m1.accounts[c] == m.accounts[c]);
}

/// Law: replaying a deposit or withdrawal whose transaction id was
/// already accepted in its own table is rejected as a duplicate, and no
/// balance and no table changes — only the rejection log grows. (A
/// locked account is excluded: there the coarser `AccountLocked` gate
/// answers first.)
pub proof fn lemma_duplicate_rejected(m: LedgerModel, tx: Tx)
    requires
        wf_model(m),
        tx.wf(),
        tx.kind is Deposit || tx.kind is Withdrawal,
        tx.kind is Deposit ==> m.deposits.contains_key(tx.tx_id),
        tx.kind is Withdrawal ==> m.withdrawals.contains_key(tx.tx_id),
        m.accounts.contains_key(tx.client_id) ==> !m.accounts[tx.client_id].locked,
    ensures
        spec_apply(m, tx).1 == Err::<(), RejectionReason>(RejectionReason::DuplicateTransactionId),
        spec_apply(m, tx).0.accounts == with_account(m, tx.client_id).accounts,
        spec_apply(m, tx).0.deposits == m.deposits,
        spec_apply(m, tx).0.withdrawals == m.withdrawals,
        spec_apply(m, tx).0.disputes == m.disputes,
        spec_apply(m, tx).0.rejections == m.rejections.push(
            (tx, RejectionReason::DuplicateTransactionId),
        ),
{
}

/// Law: the dispute lifecycle is a strict state machine. A status
/// appears only as `Pending` from no status; `Pending` moves only to
/// `Resolved` or `ChargedBack`; both of those are terminal.
pub proof fn lemma_dispute_lifecycle(m: LedgerModel, tx: Tx, t: u32)
    requires
        wf_model(m),
        tx.wf(),
    ensures
        ({
            let d0 = m.disputes;
            let d1 = spec_apply(m, tx).0.disputes;
            &&& (!d0.contains_key(t) && d1.contains_key(t)) ==> d1[t] is Pending
            &&& d0.contains_key(t) ==> d1.contains_key(t)
            &&& (d0.contains_key(t) && d0[t] is Resolved) ==> d1[t] is Resolved
            &&& (d0.contains_key(t) && d0[t] is ChargedBack) ==> d1[t] is ChargedBack
        }),
{
}

/// Law: locking is monotonic and absolute. A locked account stays
/// locked, and every transaction naming it — disputes included — is
/// rejected `AccountLocked` with all balances and tables untouched.
pub proof fn lemma_locked_absolute(m: LedgerModel, tx: Tx, c: u16)
    requires
        wf_model(m),
        tx.wf(),
        m.accounts.contains_key(c),
        m.accounts[c].locked,
    ensures
        spec_apply(m, tx).0.accounts.contains_key(c),
        spec_apply(m, tx).0.accounts[c].locked,
        tx.client_id == c ==> spec_apply(m, tx).1 == Err::<(), RejectionReason>(
            RejectionReason::AccountLocked,
        ),
        tx.client_id == c ==> spec_apply(m, tx).0.accounts == m.accounts
            && spec_apply(m, tx).0.deposits == m.deposits && spec_apply(m, tx).0.withdrawals
            == m.withdrawals && spec_apply(m, tx).0.disputes == m.disputes,
{
    let m1 = with_account(m, tx.client_id);
    assert(m1.accounts[c] == m.accounts[c]);
}

} // verus!
