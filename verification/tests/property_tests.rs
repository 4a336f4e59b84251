use payments_processor::ledger::{Ledger, LedgerError};
use payments_processor::transaction::{PaymentStatus, Transaction, TxType};

fn tx(tx_type: TxType, client_id: u16, tx_id: u32, amount: Option<i64>) -> Transaction {
    Transaction { tx_type, client_id, tx_id, amount, status: PaymentStatus::Undisputed }
}

fn balanced(ledger: &Ledger, id: u16) -> bool {
    let c = ledger.find_client(id).unwrap();
    c.total == c.available + c.held
}

#[test]
fn test_total_equals_available_plus_held_throughout() {
    let mut ledger = Ledger::new();
    ledger.process_transaction(tx(TxType::Deposit, 1, 1, Some(30000))).unwrap();
    assert!(balanced(&ledger, 1));
    ledger.process_transaction(tx(TxType::Withdrawal, 1, 2, Some(5000))).unwrap();
    assert!(balanced(&ledger, 1));
    ledger.process_transaction(tx(TxType::Dispute, 1, 1, None)).unwrap();
    assert!(balanced(&ledger, 1));
    ledger.process_transaction(tx(TxType::Resolve, 1, 1, None)).unwrap();
    assert!(balanced(&ledger, 1));
    ledger.process_transaction(tx(TxType::Dispute, 1, 1, None)).unwrap();
    ledger.process_transaction(tx(TxType::Chargeback, 1, 1, None)).unwrap();
    assert!(balanced(&ledger, 1));
}

#[test]
fn test_deposit_dispute_resolve_scenario() {
    let mut ledger = Ledger::new();
    ledger.process_transaction(tx(TxType::Deposit, 1, 1, Some(10000))).unwrap();
    ledger.process_transaction(tx(TxType::Dispute, 1, 1, None)).unwrap();
    ledger.process_transaction(tx(TxType::Resolve, 1, 1, None)).unwrap();
    let c = ledger.find_client(1).unwrap();
    assert_eq!(c.available, 10000);
    assert_eq!(c.held, 0);
    assert_eq!(c.total, 10000);
    assert!(matches!(ledger.find_entry(1).unwrap().status, PaymentStatus::Undisputed));
}

#[test]
fn test_deposit_dispute_chargeback_scenario() {
    let mut ledger = Ledger::new();
    ledger.process_transaction(tx(TxType::Deposit, 1, 1, Some(10000))).unwrap();
    ledger.process_transaction(tx(TxType::Dispute, 1, 1, None)).unwrap();
    ledger.process_transaction(tx(TxType::Chargeback, 1, 1, None)).unwrap();
    let c = ledger.find_client(1).unwrap();
    assert_eq!(c.available, 0);
    assert_eq!(c.held, 0);
    assert_eq!(c.total, 0);
    assert!(c.locked);
}

#[test]
fn test_failed_withdrawal_leaves_balances_unchanged() {
    let mut ledger = Ledger::new();
    ledger.process_transaction(tx(TxType::Deposit, 1, 1, Some(10000))).unwrap();
    let res = ledger.process_transaction(tx(TxType::Withdrawal, 1, 2, Some(20000)));
    assert!(matches!(res, Err(LedgerError::NotEnoughFunds { .. })));
    let c = ledger.find_client(1).unwrap();
    assert_eq!(c.available, 10000);
    assert_eq!(c.held, 0);
    assert_eq!(c.total, 10000);
    assert!(ledger.find_entry(2).is_none());
}

#[test]
fn test_resolve_undisputed_fails_and_changes_nothing() {
    let mut ledger = Ledger::new();
    ledger.process_transaction(tx(TxType::Deposit, 1, 1, Some(10000))).unwrap();
    let res = ledger.process_transaction(tx(TxType::Resolve, 1, 1, None));
    assert!(matches!(res, Err(LedgerError::InvalidDispute(1))));
    let res = ledger.process_transaction(tx(TxType::Chargeback, 1, 1, None));
    assert!(matches!(res, Err(LedgerError::InvalidDispute(1))));
    let c = ledger.find_client(1).unwrap();
    assert_eq!(c.available, 10000);
    assert_eq!(c.held, 0);
    assert_eq!(c.total, 10000);
}

#[test]
fn test_deposit_overwrites_repeated_tx_id() {
    let mut ledger = Ledger::new();
    ledger.process_transaction(tx(TxType::Deposit, 1, 1, Some(10000))).unwrap();
    ledger.process_transaction(tx(TxType::Deposit, 1, 1, Some(20000))).unwrap();
    let e = ledger.find_entry(1).unwrap();
    assert_eq!(e.amount, 20000);
    assert!(matches!(e.tx_type, TxType::Deposit));
    let c = ledger.find_client(1).unwrap();
    assert_eq!(c.available, 30000);
}

#[test]
fn test_re_dispute_double_counts_hold() {
    let mut ledger = Ledger::new();
    ledger.process_transaction(tx(TxType::Deposit, 1, 1, Some(10000))).unwrap();
    ledger.process_transaction(tx(TxType::Dispute, 1, 1, None)).unwrap();
    ledger.process_transaction(tx(TxType::Dispute, 1, 1, None)).unwrap();
    let c = ledger.find_client(1).unwrap();
    assert_eq!(c.available, -10000);
    assert_eq!(c.held, 20000);
    assert_eq!(c.total, 10000);
}

#[test]
fn test_deposit_overflow_is_rejected_without_change() {
    let mut ledger = Ledger::new();
    ledger.process_transaction(tx(TxType::Deposit, 1, 1, Some(i64::MAX))).unwrap();
    let res = ledger.process_transaction(tx(TxType::Deposit, 1, 2, Some(1)));
    assert!(matches!(res, Err(LedgerError::BalanceOverflow)));
    let c = ledger.find_client(1).unwrap();
    assert_eq!(c.available, i64::MAX);
    assert_eq!(c.total, i64::MAX);
    assert!(ledger.find_entry(2).is_none());
}

#[test]
fn test_withdrawal_stores_entry() {
    let mut ledger = Ledger::new();
    ledger.process_transaction(tx(TxType::Deposit, 1, 1, Some(50000))).unwrap();
    ledger.process_transaction(tx(TxType::Withdrawal, 1, 2, Some(20000))).unwrap();
    let e = ledger.find_entry(2).unwrap();
    assert!(matches!(e.tx_type, TxType::Withdrawal));
    assert_eq!(e.amount, 20000);
    assert_eq!(e.client_id, 1);
    assert!(matches!(e.status, PaymentStatus::Undisputed));
}

#[test]
fn test_accounts_in_creation_order() {
    let mut ledger = Ledger::new();
    ledger.process_transaction(tx(TxType::Deposit, 5, 1, Some(10000))).unwrap();
    ledger.process_transaction(tx(TxType::Deposit, 2, 2, Some(20000))).unwrap();
    let accounts = ledger.accounts();
    assert_eq!(accounts.len(), 2);
    assert_eq!(accounts[0].id, 5);
    assert_eq!(accounts[1].id, 2);
    assert_eq!(accounts[1].available, 20000);
}
