use dubp::documents::transaction::TransactionDocumentV10;
use duniter_ledger::errors::DecodeFault;
use duniter_ledger::values::tx_db::PendingTxDbV2;

#[test]
fn a_pending_transaction_round_trips_through_its_bytes() {
    let tx = PendingTxDbV2(TransactionDocumentV10::default());
    let bytes = tx.as_bytes().expect("serializes");
    assert!(!bytes.is_empty());
    assert_eq!(PendingTxDbV2::from_bytes(&bytes), Ok(tx));
    assert_eq!(PendingTxDbV2::default().as_bytes(), Some(bytes));
}

#[test]
fn bytes_that_are_no_transaction_are_corrupted() {
    let err = PendingTxDbV2::from_bytes(&[1, 2, 3]).expect_err("three bytes");
    assert_eq!(err.bytes, vec![1, 2, 3]);
    assert_eq!(err.fault, DecodeFault::Malformed);
    let err = PendingTxDbV2::from_bytes(&[]).expect_err("no bytes");
    assert_eq!(err.fault, DecodeFault::Malformed);
}
