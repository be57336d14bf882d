use firelocal_core::collections::StringMap;
use firelocal_core::error::FireLocalError;
use firelocal_core::transaction::{BatchOperation, Transaction, WriteBatch};

#[test]
fn test_write_batch() {
    let mut batch = WriteBatch::new();
    batch.set("users/alice".to_string(), b"alice_data".to_vec());
    batch.set("users/bob".to_string(), b"bob_data".to_vec());
    batch.delete("users/charlie".to_string());

    assert_eq!(batch.len(), 3);
    assert!(!batch.is_empty());
    assert!(!batch.batch_id().is_empty());
}

#[test]
fn test_transaction() {
    let mut txn = Transaction::new();

    // Simulate reading a document
    let data = b"test_data".to_vec();
    let result = txn.get("users/alice", Some(data.clone()), 1);
    assert_eq!(result, Some(data));

    // Write in transaction
    txn.set("users/alice".to_string(), b"new_data".to_vec());

    assert_eq!(txn.writes().len(), 1);
    assert!(!txn.transaction_id().is_empty());
}

#[test]
fn test_transaction_validation() {
    let mut txn = Transaction::new();

    // Read with version 1
    txn.get("users/alice", Some(b"data".to_vec()), 1);

    // Validation should pass if version is still 1
    let mut versions: StringMap<u64> = StringMap::new();
    versions.insert("users/alice".to_string(), 1);
    let result = txn.validate(&versions);
    assert!(result.is_ok());

    // Validation should fail if version changed to 2
    let mut versions: StringMap<u64> = StringMap::new();
    versions.insert("users/alice".to_string(), 2);
    let result = txn.validate(&versions);
    assert!(result.is_err());
}

#[test]
fn batch_keeps_its_writes_in_order() {
    let mut batch = WriteBatch::new();
    assert!(batch.is_empty());
    assert_eq!(batch.batch_id().len(), 36);
    batch.set("a".to_string(), b"1".to_vec());
    batch.update("b".to_string(), b"2".to_vec());
    batch.delete("c".to_string());
    let ops = batch.operations();
    assert!(matches!(&ops[0], BatchOperation::Put { path, data } if path == "a" && data == b"1"));
    assert!(matches!(&ops[1], BatchOperation::Update { path, data } if path == "b" && data == b"2"));
    assert!(matches!(&ops[2], BatchOperation::Delete { path } if path == "c"));
    assert_eq!(ops[0].path(), "a");
    assert_eq!(ops[2].data(), None);
}

#[test]
fn two_batches_have_different_ids() {
    assert_ne!(WriteBatch::new().batch_id(), WriteBatch::new().batch_id());
}

#[test]
fn transaction_conflict_names_the_document() {
    let mut txn = Transaction::new();
    txn.get("users/alice", None, 0);
    txn.delete("users/alice".to_string());
    txn.update("users/bob".to_string(), b"x".to_vec());
    assert_eq!(txn.writes().len(), 2);

    // the document was absent when read and is still absent
    let versions: StringMap<u64> = StringMap::new();
    assert!(txn.validate(&versions).is_ok());

    // now it exists
    let mut versions: StringMap<u64> = StringMap::new();
    versions.insert("users/alice".to_string(), 0);
    match txn.validate(&versions) {
        Err(FireLocalError::Transaction(message)) => {
            assert_eq!(
                message,
                "Transaction conflict: document users/alice was modified"
            );
        }
        _ => panic!("expected a conflict"),
    }
}
