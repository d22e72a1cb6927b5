use ledger::ledger::Ledger;
use ledger::model::RejectionReason;
use ledger::record::{Tx, TxKind};

fn deposit(client_id: u16, tx_id: u32, amount: u64) -> Tx {
    Tx { kind: TxKind::Deposit, client_id, tx_id, amount: Some(amount) }
}

fn withdrawal(client_id: u16, tx_id: u32, amount: u64) -> Tx {
    Tx { kind: TxKind::Withdrawal, client_id, tx_id, amount: Some(amount) }
}

fn dispute(client_id: u16, tx_id: u32) -> Tx {
    Tx { kind: TxKind::Dispute, client_id, tx_id, amount: None }
}

fn resolve(client_id: u16, tx_id: u32) -> Tx {
    Tx { kind: TxKind::Resolve, client_id, tx_id, amount: None }
}

fn chargeback(client_id: u16, tx_id: u32) -> Tx {
    Tx { kind: TxKind::Chargeback, client_id, tx_id, amount: None }
}

/// One unit of currency in fixed-point representation.
const UNIT: u64 = 10_000;

#[test]
fn scenario_two_deposits() {
    let mut l = Ledger::new();
    assert_eq!(l.process_tx(deposit(1, 1, 10 * UNIT)), Ok(()));
    assert_eq!(l.process_tx(deposit(1, 2, 5 * UNIT)), Ok(()));
    let a = l.account(1).unwrap();
    assert_eq!(a.available, 15 * UNIT as i128);
    assert_eq!(a.held, 0);
    assert_eq!(a.total, 15 * UNIT as i128);
    assert!(!a.locked);
}

#[test]
fn scenario_insufficient_funds() {
    let mut l = Ledger::new();
    assert_eq!(l.process_tx(deposit(1, 1, 10 * UNIT)), Ok(()));
    assert_eq!(l.process_tx(deposit(1, 2, 5 * UNIT)), Ok(()));
    assert_eq!(
        l.process_tx(withdrawal(1, 3, 20 * UNIT)),
        Err(RejectionReason::InsufficientFunds)
    );
    let a = l.account(1).unwrap();
    assert_eq!(a.available, 15 * UNIT as i128);
    assert_eq!(a.total, 15 * UNIT as i128);
    assert_eq!(l.rejections().len(), 1);
    assert_eq!(l.rejections()[0].1, RejectionReason::InsufficientFunds);
}

#[test]
fn scenario_dispute_then_resolve() {
    let mut l = Ledger::new();
    assert_eq!(l.process_tx(deposit(1, 1, 10 * UNIT)), Ok(()));
    assert_eq!(l.process_tx(deposit(1, 2, 5 * UNIT)), Ok(()));
    assert_eq!(l.process_tx(dispute(1, 1)), Ok(()));
    let a = l.account(1).unwrap();
    assert_eq!(a.available, 5 * UNIT as i128);
    assert_eq!(a.held, 10 * UNIT as i128);
    assert_eq!(a.total, 15 * UNIT as i128);
    assert_eq!(l.process_tx(resolve(1, 1)), Ok(()));
    let a = l.account(1).unwrap();
    assert_eq!(a.available, 15 * UNIT as i128);
    assert_eq!(a.held, 0);
    assert_eq!(a.total, 15 * UNIT as i128);
    assert_eq!(l.process_tx(resolve(1, 1)), Err(RejectionReason::DisputeNotPending));
}

#[test]
fn scenario_chargeback_locks() {
    let mut l = Ledger::new();
    assert_eq!(l.process_tx(deposit(1, 1, 10 * UNIT)), Ok(()));
    assert_eq!(l.process_tx(deposit(1, 2, 5 * UNIT)), Ok(()));
    assert_eq!(l.process_tx(dispute(1, 1)), Ok(()));
    assert_eq!(l.process_tx(chargeback(1, 1)), Ok(()));
    let a = l.account(1).unwrap();
    assert_eq!(a.available, 5 * UNIT as i128);
    assert_eq!(a.held, 0);
    assert_eq!(a.total, 5 * UNIT as i128);
    assert!(a.locked);
    assert_eq!(l.process_tx(deposit(1, 4, UNIT)), Err(RejectionReason::AccountLocked));
}

#[test]
fn scenario_dispute_unknown_deposit() {
    let mut l = Ledger::new();
    assert_eq!(
        l.process_tx(dispute(1, 99)),
        Err(RejectionReason::ReferencedDepositNotFound)
    );
}

#[test]
fn scenario_dispute_wrong_client() {
    let mut l = Ledger::new();
    assert_eq!(l.process_tx(deposit(1, 1, 10 * UNIT)), Ok(()));
    assert_eq!(l.process_tx(dispute(2, 1)), Err(RejectionReason::ClientMismatch));
    let a = l.account(1).unwrap();
    assert_eq!(a.available, 10 * UNIT as i128);
    assert_eq!(a.held, 0);
}

#[test]
fn duplicate_deposit_id_rejected() {
    let mut l = Ledger::new();
    assert_eq!(l.process_tx(deposit(1, 1, 10 * UNIT)), Ok(()));
    assert_eq!(
        l.process_tx(deposit(1, 1, 3 * UNIT)),
        Err(RejectionReason::DuplicateTransactionId)
    );
    let a = l.account(1).unwrap();
    assert_eq!(a.available, 10 * UNIT as i128);
    assert_eq!(a.total, 10 * UNIT as i128);
}

#[test]
fn duplicate_withdrawal_id_rejected() {
    let mut l = Ledger::new();
    assert_eq!(l.process_tx(deposit(1, 1, 10 * UNIT)), Ok(()));
    assert_eq!(l.process_tx(withdrawal(1, 2, 2 * UNIT)), Ok(()));
    assert_eq!(
        l.process_tx(withdrawal(1, 2, 2 * UNIT)),
        Err(RejectionReason::DuplicateTransactionId)
    );
    let a = l.account(1).unwrap();
    assert_eq!(a.available, 8 * UNIT as i128);
}

#[test]
fn cross_kind_tx_id_collision_allowed() {
    // A deposit and a withdrawal may share a tx_id: the tables are
    // per kind, and a dispute resolves against the deposit table.
    let mut l = Ledger::new();
    assert_eq!(l.process_tx(deposit(1, 7, 10 * UNIT)), Ok(()));
    assert_eq!(l.process_tx(withdrawal(1, 7, 4 * UNIT)), Ok(()));
    assert_eq!(l.process_tx(dispute(1, 7)), Ok(()));
    let a = l.account(1).unwrap();
    assert_eq!(a.held, 10 * UNIT as i128);
    assert_eq!(a.available, -4 * UNIT as i128);
    assert_eq!(a.total, 6 * UNIT as i128);
}

#[test]
fn withdrawal_to_exactly_zero() {
    let mut l = Ledger::new();
    assert_eq!(l.process_tx(deposit(1, 1, 10 * UNIT)), Ok(()));
    assert_eq!(l.process_tx(withdrawal(1, 2, 10 * UNIT)), Ok(()));
    let a = l.account(1).unwrap();
    assert_eq!(a.available, 0);
    assert_eq!(a.total, 0);
}

#[test]
fn resolve_without_dispute() {
    let mut l = Ledger::new();
    assert_eq!(l.process_tx(deposit(1, 1, 10 * UNIT)), Ok(()));
    assert_eq!(l.process_tx(resolve(1, 1)), Err(RejectionReason::DisputeNotFound));
    assert_eq!(l.process_tx(chargeback(1, 1)), Err(RejectionReason::DisputeNotFound));
}

#[test]
fn second_dispute_on_same_deposit_rejected() {
    let mut l = Ledger::new();
    assert_eq!(l.process_tx(deposit(1, 1, 10 * UNIT)), Ok(()));
    assert_eq!(l.process_tx(dispute(1, 1)), Ok(()));
    assert_eq!(l.process_tx(resolve(1, 1)), Ok(()));
    assert_eq!(
        l.process_tx(dispute(1, 1)),
        Err(RejectionReason::DuplicateTransactionId)
    );
}

#[test]
fn locked_account_rejects_everything() {
    let mut l = Ledger::new();
    assert_eq!(l.process_tx(deposit(1, 1, 10 * UNIT)), Ok(()));
    assert_eq!(l.process_tx(deposit(1, 2, 5 * UNIT)), Ok(()));
    assert_eq!(l.process_tx(dispute(1, 1)), Ok(()));
    assert_eq!(l.process_tx(chargeback(1, 1)), Ok(()));
    assert_eq!(l.process_tx(deposit(1, 3, UNIT)), Err(RejectionReason::AccountLocked));
    assert_eq!(l.process_tx(withdrawal(1, 4, UNIT)), Err(RejectionReason::AccountLocked));
    assert_eq!(l.process_tx(dispute(1, 2)), Err(RejectionReason::AccountLocked));
    assert_eq!(l.process_tx(resolve(1, 2)), Err(RejectionReason::AccountLocked));
    assert_eq!(l.process_tx(chargeback(1, 2)), Err(RejectionReason::AccountLocked));
    let a = l.account(1).unwrap();
    assert_eq!(a.available, 5 * UNIT as i128);
    assert_eq!(a.total, 5 * UNIT as i128);
    assert!(a.locked);
}

#[test]
fn rejected_transaction_still_creates_account() {
    let mut l = Ledger::new();
    assert_eq!(
        l.process_tx(dispute(9, 1)),
        Err(RejectionReason::ReferencedDepositNotFound)
    );
    let a = l.account(9).unwrap();
    assert_eq!(a.available, 0);
    assert_eq!(a.held, 0);
    assert_eq!(a.total, 0);
    assert!(!a.locked);
}

#[test]
fn snapshot_sorted_by_client() {
    let mut l = Ledger::new();
    assert_eq!(l.process_tx(deposit(30, 1, 3 * UNIT)), Ok(()));
    assert_eq!(l.process_tx(deposit(10, 2, UNIT)), Ok(()));
    assert_eq!(l.process_tx(deposit(20, 3, 2 * UNIT)), Ok(()));
    let rows = l.snapshot();
    assert_eq!(rows.len(), 3);
    assert_eq!(rows[0].client_id, 10);
    assert_eq!(rows[0].available, UNIT as i128);
    assert_eq!(rows[1].client_id, 20);
    assert_eq!(rows[1].available, 2 * UNIT as i128);
    assert_eq!(rows[2].client_id, 30);
    assert_eq!(rows[2].available, 3 * UNIT as i128);
}

#[test]
fn process_txs_replays_in_order() {
    let mut l = Ledger::new();
    let txs = vec![
        deposit(1, 1, 10 * UNIT),
        withdrawal(1, 2, 4 * UNIT),
        deposit(2, 3, 7 * UNIT),
        dispute(2, 3),
    ];
    l.process_txs(&txs);
    let a1 = l.account(1).unwrap();
    assert_eq!(a1.available, 6 * UNIT as i128);
    let a2 = l.account(2).unwrap();
    assert_eq!(a2.available, 0);
    assert_eq!(a2.held, 7 * UNIT as i128);
    assert!(l.rejections().is_empty());
}
