//! Preservation of the balance invariant by the transition function.
//!
//! The central result is `lemma_apply_preserves_wf`: one step of
//! `spec_apply` carries `wf_model` from the state before to the state
//! after. On the way there, helper lemmas track how the per-client sums
//! of deposit amounts move when a deposit is recorded, a dispute opens,
//! or a dispute closes, and bound every balance numerically so the
//! executable engine's `i128` arithmetic cannot overflow.

use vstd::prelude::*;

verus! {

use crate::model::{
    account_ok, amount_of, apply_chargeback, apply_deposit, apply_dispute, apply_resolve,
    apply_withdrawal, closing_gate, deposit_sum, deposit_tids, pending_sum, pending_tids,
    spec_apply, unresolved_sum, unresolved_tids, wf_model, with_account, DepositRec,
    DisputeStatus, LedgerModel,
};
use crate::record::Tx;
use crate::sums::{
    lemma_sum_bound, lemma_sum_congruence, lemma_sum_empty, lemma_sum_insert, lemma_sum_remove,
};
use vstd::set_lib::lemma_set_subset_finite;

/// An upper bound on every sum of deposit amounts: at most 2^32 accepted
/// deposits can exist (one per `u32` transaction id), each of at most
/// `u64::MAX` units.
pub open spec fn max_sum() -> int {
    0x1_0000_0000int * 0xffff_ffff_ffff_ffffint
}

/// The id sets behind the per-client sums are finite subsets of the
/// accepted-deposit table's domain.
pub proof fn lemma_tids_finite(
    deposits: Map<u32, DepositRec>,
    disputes: Map<u32, DisputeStatus>,
    c: u16,
)
    requires
        deposits.dom().finite(),
    ensures
        deposit_tids(deposits, c).finite(),
        pending_tids(deposits, disputes, c).finite(),
        unresolved_tids(deposits, disputes, c).finite(),
        deposit_tids(deposits, c) <= deposits.dom(),
        pending_tids(deposits, disputes, c) <= deposit_tids(deposits, c),
        unresolved_tids(deposits, disputes, c) <= deposit_tids(deposits, c),
{
    lemma_set_subset_finite(deposits.dom(), deposit_tids(deposits, c));
    lemma_set_subset_finite(deposit_tids(deposits, c), pending_tids(deposits, disputes, c));
    lemma_set_subset_finite(deposit_tids(deposits, c), unresolved_tids(deposits, disputes, c));
}

/// Every per-client sum lies in `[0, max_sum()]`.
pub proof fn lemma_sums_in_range(
    deposits: Map<u32, DepositRec>,
    disputes: Map<u32, DisputeStatus>,
    c: u16,
)
    requires
        deposits.dom().finite(),
    ensures
        0 <= deposit_sum(deposits, c) <= max_sum(),
        0 <= pending_sum(deposits, disputes, c) <= max_sum(),
        0 <= unresolved_sum(deposits, disputes, c) <= max_sum(),
{
    lemma_tids_finite(deposits, disputes, c);
    let w = amount_of(deposits);
    assert forall|t: u32| deposit_tids(deposits, c).contains(t) implies 0 <= #[trigger] w(t)
        <= 0xffff_ffff_ffff_ffff by {}
    lemma_sum_bound(deposit_tids(deposits, c), w, 0xffff_ffff_ffff_ffff);
    lemma_sum_bound(pending_tids(deposits, disputes, c), w, 0xffff_ffff_ffff_ffff);
    lemma_sum_bound(unresolved_tids(deposits, disputes, c), w, 0xffff_ffff_ffff_ffff);
}

/// In a well-formed state, every account's balances are numerically small
/// against the `i128` range, and the total is the sum of available and
/// held funds.
pub proof fn lemma_account_bounds(m: LedgerModel, c: u16)
    requires
        wf_model(m),
        m.accounts.dom().contains(c),
    ensures
        m.accounts[c].total == m.accounts[c].available + m.accounts[c].held,
        0 <= m.accounts[c].held <= max_sum(),
        -max_sum() <= m.accounts[c].available <= max_sum(),
{
    assert(account_ok(m, c));
    lemma_sums_in_range(m.deposits, m.disputes, c);
}

/// How the per-client sums change when a fresh deposit is recorded:
/// the owner's deposit sum grows by its amount, every other sum stands.
proof fn lemma_sums_deposit_insert(
    deposits: Map<u32, DepositRec>,
    disputes: Map<u32, DisputeStatus>,
    t: u32,
    rec: DepositRec,
    c: u16,
)
    requires
        deposits.dom().finite(),
        !deposits.dom().contains(t),
        disputes.dom() <= deposits.dom(),
    ensures
        deposit_sum(deposits.insert(t, rec), c) == deposit_sum(deposits, c) + (
        if rec.client_id == c {
            rec.amount as int
        } else {
            0
        }),
        pending_sum(deposits.insert(t, rec), disputes, c) == pending_sum(deposits, disputes, c),
        unresolved_sum(deposits.insert(t, rec), disputes, c) == unresolved_sum(
            deposits,
            disputes,
            c,
        ),
{
    let d2 = deposits.insert(t, rec);
    let w = amount_of(deposits);
    let w2 = amount_of(d2);
    lemma_tids_finite(deposits, disputes, c);
    lemma_tids_finite(d2, disputes, c);
    assert forall|x: u32| deposit_tids(deposits, c).contains(x) implies #[trigger] w2(x) == w(
        x,
    ) by {}
    if rec.client_id == c {
        assert(deposit_tids(d2, c) =~= deposit_tids(deposits, c).insert(t));
        lemma_sum_insert(deposit_tids(deposits, c), w2, t);
        lemma_sum_congruence(deposit_tids(deposits, c), w2, w);
        assert(w2(t) == rec.amount as int);
    } else {
        assert(deposit_tids(d2, c) =~= deposit_tids(deposits, c));
        lemma_sum_congruence(deposit_tids(deposits, c), w2, w);
    }
    assert(pending_tids(d2, disputes, c) =~= pending_tids(deposits, disputes, c)) by {
        assert forall|x: u32| pending_tids(d2, disputes, c).contains(x) implies pending_tids(
            deposits,
            disputes,
            c,
        ).contains(x) by {
            assert(disputes.dom().contains(x));
            assert(deposits.dom().contains(x));
        }
    }
    lemma_sum_congruence(pending_tids(deposits, disputes, c), w2, w);
    assert(unresolved_tids(d2, disputes, c) =~= unresolved_tids(deposits, disputes, c)) by {
        assert forall|x: u32| unresolved_tids(d2, disputes, c).contains(x) implies unresolved_tids(
            deposits,
            disputes,
            c,
        ).contains(x) by {
            assert(disputes.dom().contains(x));
            assert(deposits.dom().contains(x));
        }
    }
    lemma_sum_congruence(unresolved_tids(deposits, disputes, c), w2, w);
}

/// How the per-client sums change when a dispute opens on deposit `t`:
/// the owner's pending and unresolved sums grow by the deposit's amount,
/// everyone else's stand.
proof fn lemma_sums_dispute_open(
    deposits: Map<u32, DepositRec>,
    disputes: Map<u32, DisputeStatus>,
    t: u32,
    c: u16,
)
    requires
        deposits.dom().finite(),
        deposits.dom().contains(t),
        !disputes.dom().contains(t),
    ensures
        pending_sum(deposits, disputes.insert(t, DisputeStatus::Pending), c) == pending_sum(
            deposits,
            disputes,
            c,
        ) + (if deposits[t].client_id == c {
            deposits[t].amount as int
        } else {
            0
        }),
        unresolved_sum(deposits, disputes.insert(t, DisputeStatus::Pending), c) == unresolved_sum(
            deposits,
            disputes,
            c,
        ) + (if deposits[t].client_id == c {
            deposits[t].amount as int
        } else {
            0
        }),
{
    let dis2 = disputes.insert(t, DisputeStatus::Pending);
    let w = amount_of(deposits);
    lemma_tids_finite(deposits, disputes, c);
    lemma_tids_finite(deposits, dis2, c);
    if deposits[t].client_id == c {
        assert(pending_tids(deposits, dis2, c) =~= pending_tids(deposits, disputes, c).insert(t));
        assert(!pending_tids(deposits, disputes, c).contains(t));
        lemma_sum_insert(pending_tids(deposits, disputes, c), w, t);
        assert(unresolved_tids(deposits, dis2, c) =~= unresolved_tids(
            deposits,
            disputes,
            c,
        ).insert(t));
        assert(!unresolved_tids(deposits, disputes, c).contains(t));
        lemma_sum_insert(unresolved_tids(deposits, disputes, c), w, t);
    } else {
        assert(pending_tids(deposits, dis2, c) =~= pending_tids(deposits, disputes, c));
        assert(unresolved_tids(deposits, dis2, c) =~= unresolved_tids(deposits, disputes, c));
    }
}

/// How the per-client sums change when a pending dispute on deposit `t`
/// closes: the owner's pending sum shrinks by the deposit's amount; the
/// unresolved sum shrinks only when the close is a resolve.
proof fn lemma_sums_dispute_close(
    deposits: Map<u32, DepositRec>,
    disputes: Map<u32, DisputeStatus>,
    t: u32,
    st: DisputeStatus,
    c: u16,
)
    requires
        deposits.dom().finite(),
        deposits.dom().contains(t),
        disputes.dom().contains(t),
        disputes[t] is Pending,
        !(st is Pending),
    ensures
        pending_sum(deposits, disputes.insert(t, st), c) == pending_sum(deposits, disputes, c) - (
        if deposits[t].client_id == c {
            deposits[t].amount as int
        } else {
            0
        }),
        unresolved_sum(deposits, disputes.insert(t, st), c) == unresolved_sum(
            deposits,
            disputes,
            c,
        ) - (if st is Resolved && deposits[t].client_id == c {
            deposits[t].amount as int
        } else {
            0
        }),
{
    let dis2 = disputes.insert(t, st);
    let w = amount_of(deposits);
    lemma_tids_finite(deposits, disputes, c);
    lemma_tids_finite(deposits, dis2, c);
    if deposits[t].client_id == c {
        assert(pending_tids(deposits, disputes, c).contains(t));
        assert(pending_tids(deposits, dis2, c) =~= pending_tids(deposits, disputes, c).remove(t));
        lemma_sum_remove(pending_tids(deposits, disputes, c), w, t);
        if st is Resolved {
            assert(unresolved_tids(deposits, disputes, c).contains(t));
            assert(unresolved_tids(deposits, dis2, c) =~= unresolved_tids(
                deposits,
                disputes,
                c,
            ).remove(t));
            lemma_sum_remove(unresolved_tids(deposits, disputes, c), w, t);
        } else {
            assert(unresolved_tids(deposits, dis2, c) =~= unresolved_tids(deposits, disputes, c));
        }
    } else {
        assert(pending_tids(deposits, dis2, c) =~= pending_tids(deposits, disputes, c));
        assert(unresolved_tids(deposits, dis2, c) =~= unresolved_tids(deposits, disputes, c));
    }
}

/// Creating the referenced account preserves the invariant: a fresh
/// account has zero balances, and a client without an account owns no
/// accepted deposit.
pub proof fn lemma_with_account_wf(m: LedgerModel, c: u16)
    requires
        wf_model(m),
    ensures
        wf_model(with_account(m, c)),
        with_account(m, c).accounts.dom().contains(c),
{
    if !m.accounts.contains_key(c) {
        let m2 = with_account(m, c);
        lemma_tids_finite(m.deposits, m.disputes, c);
        assert(deposit_tids(m.deposits, c) =~= Set::empty());
        assert(pending_tids(m.deposits, m.disputes, c) =~= Set::empty());
        assert(unresolved_tids(m.deposits, m.disputes, c) =~= Set::empty());
        lemma_sum_empty(amount_of(m.deposits));
        assert(account_ok(m2, c));
        assert forall|x: u16| m2.accounts.dom().contains(x) implies #[trigger] account_ok(
            m2,
            x,
        ) by {
            if x != c {
                assert(account_ok(m, x));
            }
        }
    }
}

/// Rejecting a transaction only appends to the rejection log, which the
/// invariant does not mention.
pub proof fn lemma_rejected_wf(m: LedgerModel, tx: Tx, why: crate::model::RejectionReason)
    requires
        wf_model(m),
    ensures
        wf_model(crate::model::rejected(m, tx, why).0),
{
    let m2 = crate::model::rejected(m, tx, why).0;
    assert forall|x: u16| m2.accounts.dom().contains(x) implies #[trigger] account_ok(m2, x) by {
        assert(account_ok(m, x));
    }
}

/// One transition step preserves the ledger invariant.
pub proof fn lemma_apply_preserves_wf(m: LedgerModel, tx: Tx)
    requires
        wf_model(m),
        tx.wf(),
    ensures
        wf_model(spec_apply(m, tx).0),
{
    lemma_with_account_wf(m, tx.client_id);
    let m1 = with_account(m, tx.client_id);
    let c = tx.client_id;
    let t = tx.tx_id;
    let a = m1.accounts[c];
    match tx.kind {
        crate::record::TxKind::Deposit => {
            if a.locked {
                lemma_rejected_wf(m1, tx, crate::model::RejectionReason::AccountLocked);
            } else if m1.deposits.contains_key(t) {
                lemma_rejected_wf(m1, tx, crate::model::RejectionReason::DuplicateTransactionId);
            } else {
                let amt = tx.amount.unwrap();
                let rec = DepositRec { client_id: c, amount: amt };
                let m2 = apply_deposit(m1, tx).0;
                assert(m2.accounts.dom() =~= m1.accounts.dom());
                assert(m2.disputes.dom() <= m2.deposits.dom());
                assert forall|x: u32| m2.deposits.dom().contains(x) implies m2.accounts.dom()
                    .contains(#[trigger] m2.deposits[x].client_id) by {
                    if x != t {
                        assert(m2.deposits[x] == m1.deposits[x]);
                        assert(m1.accounts.dom().contains(m1.deposits[x].client_id));
                    }
                }
                assert forall|x: u16| m2.accounts.dom().contains(x) implies #[trigger] account_ok(
                    m2,
                    x,
                ) by {
                    lemma_sums_deposit_insert(m1.deposits, m1.disputes, t, rec, x);
                    assert(account_ok(m1, x));
                }
            }
        },
        crate::record::TxKind::Withdrawal => {
            let amt = tx.amount.unwrap() as int;
            if a.locked {
                lemma_rejected_wf(m1, tx, crate::model::RejectionReason::AccountLocked);
            } else if m1.withdrawals.contains_key(t) {
                lemma_rejected_wf(m1, tx, crate::model::RejectionReason::DuplicateTransactionId);
            } else if amt > a.available {
                lemma_rejected_wf(m1, tx, crate::model::RejectionReason::InsufficientFunds);
            } else {
                let m2 = apply_withdrawal(m1, tx).0;
                assert(m2.accounts.dom() =~= m1.accounts.dom());
                assert forall|x: u16| m2.accounts.dom().contains(x) implies #[trigger] account_ok(
                    m2,
                    x,
                ) by {
                    assert(account_ok(m1, x));
                    if x == c {
                        lemma_sums_in_range(m1.deposits, m1.disputes, c);
                    }
                }
            }
        },
        crate::record::TxKind::Dispute => {
            if a.locked {
                lemma_rejected_wf(m1, tx, crate::model::RejectionReason::AccountLocked);
            } else if m1.disputes.contains_key(t) {
                lemma_rejected_wf(m1, tx, crate::model::RejectionReason::DuplicateTransactionId);
            } else if !m1.deposits.contains_key(t) {
                lemma_rejected_wf(m1, tx, crate::model::RejectionReason::ReferencedDepositNotFound);
            } else if m1.deposits[t].client_id != c {
                lemma_rejected_wf(m1, tx, crate::model::RejectionReason::ClientMismatch);
            } else {
                let m2 = apply_dispute(m1, tx).0;
                assert(m2.accounts.dom() =~= m1.accounts.dom());
                assert forall|x: u16| m2.accounts.dom().contains(x) implies #[trigger] account_ok(
                    m2,
                    x,
                ) by {
                    lemma_sums_dispute_open(m1.deposits, m1.disputes, t, x);
                    assert(account_ok(m1, x));
                }
            }
        },
        crate::record::TxKind::Resolve => {
            if closing_gate(m1, tx) is Some {
                lemma_rejected_wf(m1, tx, closing_gate(m1, tx).unwrap());
            } else {
                let m2 = apply_resolve(m1, tx).0;
                assert(m2.accounts.dom() =~= m1.accounts.dom());
                assert forall|x: u16| m2.accounts.dom().contains(x) implies #[trigger] account_ok(
                    m2,
                    x,
                ) by {
                    lemma_sums_dispute_close(m1.deposits, m1.disputes, t, DisputeStatus::Resolved, x);
                    assert(account_ok(m1, x));
                }
            }
        },
        crate::record::TxKind::Chargeback => {
            if closing_gate(m1, tx) is Some {
                lemma_rejected_wf(m1, tx, closing_gate(m1, tx).unwrap());
            } else {
                let m2 = apply_chargeback(m1, tx).0;
                assert(m2.accounts.dom() =~= m1.accounts.dom());
                assert forall|x: u16| m2.accounts.dom().contains(x) implies #[trigger] account_ok(
                    m2,
                    x,
                ) by {
                    lemma_sums_dispute_close(
                        m1.deposits,
                        m1.disputes,
                        t,
                        DisputeStatus::ChargedBack,
                        x,
                    );
                    assert(account_ok(m1, x));
                }
            }
        },
    }
}

} // verus!
