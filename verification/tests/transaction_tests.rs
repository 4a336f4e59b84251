use payments_processor::parse::ParseFailure;
use payments_processor::transaction::{Transaction, TransactionError, TxType};

fn rec(fields: Vec<&str>) -> Vec<String> {
    fields.into_iter().map(|f| f.to_string()).collect()
}

#[test]
fn test_create_transaction_valid() {
    let record = rec(vec!["deposit", "1", "1", "100.0"]);
    let tx = Transaction::create_transaction(&record).unwrap();
    assert_eq!(tx.tx_type, TxType::Deposit);
    assert_eq!(tx.client_id, 1);
    assert_eq!(tx.tx_id, 1);
    assert_eq!(tx.amount, Some(1000000));
}

#[test]
fn test_create_transaction_invalid_tx_type() {
    let record = rec(vec!["invalid", "1", "1", "100.0"]);
    let err = Transaction::create_transaction(&record).unwrap_err();
    match err {
        TransactionError::UnknownTxType(s) => assert_eq!(s, "invalid"),
        _ => panic!("Expected UnknownTxType error"),
    }
}

#[test]
fn test_create_transaction_too_few_fields() {
    let record = rec(vec!["deposit", "1"]);
    let err = Transaction::create_transaction(&record).unwrap_err();
    match err {
        TransactionError::TooFewFields(fields) => assert_eq!(fields, vec!["deposit", "1"]),
        _ => panic!("Expected TooFewFields error"),
    }
}

#[test]
fn test_create_transaction_parse_error() {
    let record = rec(vec!["deposit", "abc", "1", "100.0"]);
    let err = Transaction::create_transaction(&record).unwrap_err();
    match err {
        TransactionError::ParseError { field, .. } => assert_eq!(field, "client_id"),
        _ => panic!("Expected ParseError error"),
    }
}

#[test]
fn test_create_transaction_trims_and_folds_case() {
    let record = rec(vec!["  DePoSit  ", " 7 ", " 42 ", " 1.5 "]);
    let tx = Transaction::create_transaction(&record).unwrap();
    assert_eq!(tx.tx_type, TxType::Deposit);
    assert_eq!(tx.client_id, 7);
    assert_eq!(tx.tx_id, 42);
    assert_eq!(tx.amount, Some(15000));
}

#[test]
fn test_create_transaction_unknown_type_is_trimmed() {
    let record = rec(vec![" foo ", "1", "2"]);
    let err = Transaction::create_transaction(&record).unwrap_err();
    match err {
        TransactionError::UnknownTxType(s) => assert_eq!(s, "foo"),
        _ => panic!("Expected UnknownTxType error"),
    }
}

#[test]
fn test_create_transaction_unknown_type_is_lowercased() {
    let record = rec(vec![" FooBar ", "1", "2"]);
    let err = Transaction::create_transaction(&record).unwrap_err();
    match err {
        TransactionError::UnknownTxType(s) => assert_eq!(s, "foobar"),
        _ => panic!("Expected UnknownTxType error"),
    }
}

#[test]
fn test_create_transaction_empty_amount_is_absent() {
    let record = rec(vec!["dispute", "1", "1", "  "]);
    let tx = Transaction::create_transaction(&record).unwrap();
    assert_eq!(tx.amount, None);
}

#[test]
fn test_create_transaction_amount_forms() {
    let halves = rec(vec!["deposit", "1", "1", ".5"]);
    assert_eq!(Transaction::create_transaction(&halves).unwrap().amount, Some(5000));

    let trailing_dot = rec(vec!["deposit", "1", "2", "1."]);
    assert_eq!(Transaction::create_transaction(&trailing_dot).unwrap().amount, Some(10000));

    let plus = rec(vec!["deposit", "1", "3", "+2.5"]);
    assert_eq!(Transaction::create_transaction(&plus).unwrap().amount, Some(25000));

    let negative = rec(vec!["deposit", "1", "4", "-2.5"]);
    assert_eq!(Transaction::create_transaction(&negative).unwrap().amount, Some(-25000));

    let truncated = rec(vec!["deposit", "1", "5", "1.00005"]);
    assert_eq!(Transaction::create_transaction(&truncated).unwrap().amount, Some(10000));
}

#[test]
fn test_create_transaction_bad_amount() {
    let record = rec(vec!["deposit", "1", "1", "1.2.3"]);
    let err = Transaction::create_transaction(&record).unwrap_err();
    match err {
        TransactionError::ParseError { field, cause } => {
            assert_eq!(field, "amount");
            assert_eq!(cause, ParseFailure::InvalidDigit);
        }
        _ => panic!("Expected ParseError error"),
    }
}

#[test]
fn test_create_transaction_client_id_out_of_range() {
    let record = rec(vec!["deposit", "70000", "1", "1.0"]);
    let err = Transaction::create_transaction(&record).unwrap_err();
    match err {
        TransactionError::ParseError { field, cause } => {
            assert_eq!(field, "client_id");
            assert_eq!(cause, ParseFailure::OutOfRange);
        }
        _ => panic!("Expected ParseError error"),
    }
}

#[test]
fn test_create_transaction_tx_id_invalid_digit() {
    let record = rec(vec!["resolve", "1", "12a"]);
    let err = Transaction::create_transaction(&record).unwrap_err();
    match err {
        TransactionError::ParseError { field, cause } => {
            assert_eq!(field, "tx_id");
            assert_eq!(cause, ParseFailure::InvalidDigit);
        }
        _ => panic!("Expected ParseError error"),
    }
}

#[test]
fn test_tx_type_from_str() {
    assert_eq!(TxType::from_str("Withdrawal").unwrap(), TxType::Withdrawal);
    assert_eq!(TxType::from_str(" CHARGEBACK ").unwrap(), TxType::Chargeback);
    assert_eq!(TxType::from_str("resolve").unwrap(), TxType::Resolve);
    assert_eq!(TxType::from_str("dispute").unwrap(), TxType::Dispute);
    match TxType::from_str("deposits") {
        Err(TransactionError::UnknownTxType(s)) => assert_eq!(s, "deposits"),
        other => panic!("Expected UnknownTxType error, got {:?}", other),
    }
    match TxType::from_str(" NoPe ") {
        Err(TransactionError::UnknownTxType(s)) => assert_eq!(s, "nope"),
        other => panic!("Expected UnknownTxType error, got {:?}", other),
    }
}
