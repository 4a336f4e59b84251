use payments_processor::ledger::{Ledger, LedgerError};
use payments_processor::transaction::{PaymentStatus, Transaction, TxType};

fn create_tx(tx_type: TxType, client_id: u16, tx_id: u32, amount: Option<i64>) -> Transaction {
    Transaction { tx_type, client_id, tx_id, amount, status: PaymentStatus::Undisputed }
}

#[test]
fn test_deposit_increases_balance() {
    let mut ledger = Ledger::new();
    let tx = create_tx(TxType::Deposit, 1, 1, Some(10000));
    assert!(ledger.deposit(&tx).is_ok());

    let client = ledger.find_client(1).unwrap();
    assert_eq!(client.available, 10000);
    assert_eq!(client.total, 10000);
}

#[test]
fn test_withdraw_decreases_balance() {
    let mut ledger = Ledger::new();
    let tx = create_tx(TxType::Deposit, 1, 1, Some(100000));
    ledger.deposit(&tx).unwrap();

    let tx = create_tx(TxType::Withdrawal, 1, 2, Some(40000));
    assert!(ledger.withdraw(&tx).is_ok());

    let client = ledger.find_client(1).unwrap();
    assert_eq!(client.available, 60000);
    assert_eq!(client.total, 60000);
}

#[test]
fn test_disputes_and_resolve_work_correctly() {
    let mut ledger = Ledger::new();
    let tx = create_tx(TxType::Deposit, 1, 1, Some(10000));
    assert!(ledger.deposit(&tx).is_ok());

    let tx = create_tx(TxType::Dispute, 1, 1, None);
    assert!(ledger.dispute(&tx).is_ok());

    let client = ledger.find_client(1).unwrap();
    let transaction = ledger.find_entry(1).unwrap();

    assert_eq!(client.available, 0);
    assert_eq!(client.held, 10000);
    assert_eq!(client.total, 10000);
    assert!(matches!(transaction.status, PaymentStatus::Disputed));

    let tx = create_tx(TxType::Resolve, 1, 1, None);
    assert!(ledger.resolve(&tx).is_ok());
    let client = ledger.find_client(1).unwrap();
    let transaction = ledger.find_entry(1).unwrap();
    assert_eq!(client.available, 10000);
    assert_eq!(client.held, 0);
    assert_eq!(client.total, 10000);
    assert!(matches!(transaction.status, PaymentStatus::Undisputed));
}

#[test]
fn test_chargeback_works_correctly() {
    let mut ledger = Ledger::new();
    let tx = create_tx(TxType::Deposit, 1, 1, Some(10000));
    assert!(ledger.deposit(&tx).is_ok());

    let tx = create_tx(TxType::Dispute, 1, 1, None);
    assert!(ledger.dispute(&tx).is_ok());

    let tx = create_tx(TxType::Chargeback, 1, 1, None);
    assert!(ledger.chargeback(&tx).is_ok());

    let client = ledger.find_client(1).unwrap();
    let transaction = ledger.find_entry(1).unwrap();

    assert_eq!(client.available, 0);
    assert_eq!(client.held, 0);
    assert_eq!(client.total, 0);
    assert!(client.locked);
    assert!(matches!(transaction.status, PaymentStatus::Disputed));
}

#[test]
fn test_withdraw_over_balance_fails() {
    let mut ledger = Ledger::new();
    let tx = create_tx(TxType::Deposit, 1, 1, Some(10000));
    assert!(ledger.deposit(&tx).is_ok());

    let tx = create_tx(TxType::Withdrawal, 1, 2, Some(11000));
    let res = ledger.withdraw(&tx);

    match res {
        Err(LedgerError::NotEnoughFunds { client, requested, available }) => {
            assert_eq!(client, 1);
            assert_eq!(requested, 11000);
            assert_eq!(available, 10000);
        }
        other => panic!("Expected NotEnoughFunds error, got {:?}", other),
    }
}

#[test]
fn test_deposit_or_withdraw_with_no_amount_fails() {
    let mut ledger = Ledger::new();
    let tx = create_tx(TxType::Deposit, 1, 1, None);
    let res = ledger.deposit(&tx);

    match res {
        Err(LedgerError::MalformedRequest) => {}
        other => panic!("Expected MalformedRequest error, got {:?}", other),
    }

    let tx = create_tx(TxType::Withdrawal, 1, 1, None);
    let res = ledger.withdraw(&tx);

    match res {
        Err(LedgerError::MalformedRequest) => {}
        other => panic!("Expected MalformedRequest error, got {:?}", other),
    }
}

#[test]
fn test_disputes_fails() {
    let mut ledger = Ledger::new();
    let tx = create_tx(TxType::Deposit, 1, 1, Some(10000));
    assert!(ledger.deposit(&tx).is_ok());

    let tx = create_tx(TxType::Dispute, 2, 1, None);
    let res = ledger.dispute(&tx);
    match res {
        Err(LedgerError::ClientNotFound(2)) => {}
        other => panic!("Expected ClientNotFound error, got {:?}", other),
    }

    let tx = create_tx(TxType::Dispute, 1, 2, None);
    let res = ledger.dispute(&tx);
    match res {
        Err(LedgerError::InvalidDispute(2)) => {}
        other => panic!("Expected InvalidDispute error, got {:?}", other),
    }
}

#[test]
fn test_resolve_chargeback_undisputed_tx_fails() {
    let mut ledger = Ledger::new();
    let tx = create_tx(TxType::Deposit, 1, 1, Some(50000));
    ledger.deposit(&tx).unwrap();

    let tx = create_tx(TxType::Resolve, 1, 1, None);
    let res = ledger.chargeback(&tx);
    assert!(matches!(res, Err(LedgerError::InvalidDispute(1))));

    let tx = create_tx(TxType::Chargeback, 1, 1, None);
    let res = ledger.chargeback(&tx);
    assert!(matches!(res, Err(LedgerError::InvalidDispute(1))));
}
