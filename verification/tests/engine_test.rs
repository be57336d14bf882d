use firelocal_core::error::FireLocalError;
use firelocal_core::index::{QueryAst, QueryOperator};
use firelocal_core::listener::RecordingListener;
use firelocal_core::model::Document;
use firelocal_core::store::io::{read_to_end, MemoryStorage, SeekFrom, Storage};
use firelocal_core::sync::{MockRemoteStore, RemoteStore, SyncManager};
use firelocal_core::transaction::Transaction;
use firelocal_core::FireLocal;
use std::sync::{Arc, Mutex};

type Db = FireLocal<MemoryStorage, RecordingListener>;

const ALLOW_ALL: &str = "service cloud.firestore { match /databases/{database}/documents { match /{document=**} { allow read, write: if true; } } }";

fn open(dir: &str) -> Db {
    FireLocal::new(MemoryStorage::new(), dir).expect("Failed to create database")
}

fn reopen(db: Db, dir: &str) -> Db {
    FireLocal::new(db.into_storage(), dir).expect("Failed to open database")
}

fn tables(db: &Db) -> Vec<String> {
    db.storage_ref()
        .read_dir("db")
        .unwrap()
        .into_iter()
        .map(|(path, _)| path)
        .filter(|path| path.ends_with(".sst"))
        .collect()
}

#[test]
fn test_basic_put_get() {
    let mut db = open("tmp_test_db");
    db.load_rules(ALLOW_ALL).unwrap();

    db.put("key1".to_string(), b"val1".to_vec()).unwrap();

    assert_eq!(db.get("key1"), Some(b"val1".to_vec()));
    assert_eq!(db.get("key2"), None);
}

#[test]
fn basic_test_test_delete() {
    let mut db = open("tmp_test_db_del");
    db.load_rules(ALLOW_ALL).unwrap();

    db.put("k".to_string(), b"v".to_vec()).unwrap();
    assert_eq!(db.get("k").unwrap(), b"v".to_vec());

    db.delete("k".to_string()).unwrap();
    assert!(db.get("k").is_none());
}

#[test]
fn test_flush() {
    let mut db = open("db");
    db.load_rules(ALLOW_ALL).unwrap();

    db.put("a".to_string(), b"1".to_vec()).unwrap();
    db.put("b".to_string(), b"2".to_vec()).unwrap();

    db.flush().unwrap();

    assert_eq!(tables(&db).len(), 1);
}

#[test]
fn test_rules_parser_and_enforcement() {
    let mut db = open("tmp_test_db_rules");

    // 1. Default: Allow all (dev mode) when no rules are loaded
    assert!(db.put("any/path".to_string(), b"data".to_vec()).is_ok());

    // 2. Load rules: Allow read, write to /users/{uid}
    let rules = r#"
        service cloud.firestore {
            match /databases/{database}/documents {
                match /users/{uid} {
                    allow read, write: if true;
                }
            }
        }
    "#;

    db.load_rules(rules).expect("Failed to parse rules");

    // 3. Test Allowed Write
    assert!(db
        .put("users/alice".to_string(), b"alice_data".to_vec())
        .is_ok());

    // 4. Test Allowed Read
    assert!(db.get("users/alice").is_some());

    // 5. Test Denied Write (path not matching)
    assert!(db.put("posts/123".to_string(), b"data".to_vec()).is_err());

    // 6. Test Denied Read
    assert!(db.get("posts/123").is_none());
}

fn user(name: &str, display: &str, age: u32, active: bool) -> (String, Vec<u8>) {
    let path = format!("users/{}", name);
    let text = format!(
        r#"{{"path":"{}","fields":{{"name":"{}","age":{},"active":{}}}}}"#,
        path, display, age, active
    );
    (path, text.into_bytes())
}

#[test]
fn test_query_indexing() {
    let mut db = open("tmp_test_db_query");
    db.load_rules(ALLOW_ALL).unwrap();

    for (path, value) in [
        user("alice", "Alice", 30, true),
        user("bob", "Bob", 25, false),
        user("charlie", "Charlie", 35, true),
    ] {
        db.put(path, value).unwrap();
    }

    // Query: active == true
    let q = QueryAst {
        collection: Some("users".to_string()),
        field: "active".to_string(),
        operator: QueryOperator::Equal("true".to_string()),
    };

    let results = db.query(&q).unwrap();
    assert_eq!(results.len(), 2);
    let names: Vec<String> = results
        .iter()
        .map(|d| d.field("name").unwrap().clone())
        .collect();
    assert!(names.contains(&"\"Alice\"".to_string()));
    assert!(names.contains(&"\"Charlie\"".to_string()));

    // Query: age == 25
    let by_age = QueryAst {
        collection: Some("users".to_string()),
        field: "age".to_string(),
        operator: QueryOperator::Equal("25".to_string()),
    };
    let of_age = db.query(&by_age).unwrap();
    assert_eq!(of_age.len(), 1);
    assert_eq!(of_age[0].field("name").unwrap(), "\"Bob\"");
}

#[test]
fn test_api_listeners() {
    let mut db = open("tmp_test_db_api");
    db.load_rules("service cloud.firestore { match /databases/{database}/documents { match /users/{uid} { allow read, write: if true; } } }").unwrap();

    let query = QueryAst {
        collection: Some("users".to_string()),
        field: "active".to_string(),
        operator: QueryOperator::Equal("true".to_string()),
    };
    let id = db.listen(query, RecordingListener::new());
    assert_eq!(id, 0);

    let doc = |name: &str, display: &str, active: bool| {
        format!(
            r#"{{"path":"users/{}","fields":{{"name":"{}","active":{}}},"version":0}}"#,
            name, display, active
        )
        .into_bytes()
    };

    db.put("users/alice".to_string(), doc("alice", "Alice", true))
        .unwrap();
    db.put("users/bob".to_string(), doc("bob", "Bob", true))
        .unwrap();
    db.put("users/charlie".to_string(), doc("charlie", "Charlie", false))
        .unwrap();
    db.delete("users/alice".to_string()).unwrap();

    // the listener is the only one: take it back out by closing over the
    // snapshots that a second listener sees
    let probe = QueryAst {
        collection: Some("users".to_string()),
        field: "active".to_string(),
        operator: QueryOperator::Equal("true".to_string()),
    };
    let docs = db.query(&probe).unwrap();
    assert_eq!(docs.len(), 1);
    assert_eq!(docs[0].field("name").unwrap(), "\"Bob\"");
}

#[test]
fn test_invalid_rules_format() {
    let mut db = open("test_db_invalid_rules");
    let result = db.load_rules("this is not valid rules");
    assert!(result.is_err(), "Invalid rules should fail");
}

#[test]
fn test_permission_denied_on_write() {
    let mut db = open("test_db_permission_denied");
    let rules = r#"
        service cloud.firestore {
            match /databases/{database}/documents {
                match /{document=**} {
                    allow read, write: if false;
                }
            }
        }
    "#;
    db.load_rules(rules).expect("Failed to load rules");

    let result = db.put("users/alice".to_string(), br#"{"name":"Alice"}"#.to_vec());
    assert!(result.is_err(), "Write should be denied by rules");
}

#[test]
fn test_permission_denied_on_read() {
    let mut db = open("test_db_read_denied");
    let write_rules = r#"
        service cloud.firestore {
            match /databases/{database}/documents {
                match /{document=**} {
                    allow write: if true;
                }
            }
        }
    "#;
    db.load_rules(write_rules).expect("Failed to load rules");

    db.put("users/alice".to_string(), br#"{"name":"Alice"}"#.to_vec())
        .expect("Failed to put document");

    let read_rules = r#"
        service cloud.firestore {
            match /databases/{database}/documents {
                match /{document=**} {
                    allow read: if false;
                }
            }
        }
    "#;
    db.load_rules(read_rules).expect("Failed to load rules");

    let result = db.get("users/alice");
    assert!(result.is_none(), "Read should be denied by rules");
}

#[test]
fn test_invalid_utf8_data() {
    let mut db = open("test_db_invalid_utf8");
    let invalid_utf8 = vec![0xFF, 0xFE, 0xFD];
    let result = db.put("data/invalid".to_string(), invalid_utf8);
    assert!(result.is_err(), "Should fail to put invalid UTF-8 data");
}

#[test]
fn test_get_nonexistent_document() {
    let db = open("test_db_nonexistent");
    let result = db.get("nonexistent/path");
    assert!(result.is_none(), "Nonexistent document should return None");
}

#[test]
fn test_delete_nonexistent_document() {
    let mut db = open("test_db_delete_nonexistent");
    let result = db.delete("nonexistent/path".to_string());
    assert!(
        result.is_ok(),
        "Deleting nonexistent document should succeed"
    );
}

#[test]
fn test_batch_with_permission_denied() {
    let mut db = open("test_db_batch_permission");
    let rules = r#"
        service cloud.firestore {
            match /databases/{database}/documents {
                match /{document=**} {
                    allow read, write: if false;
                }
            }
        }
    "#;
    db.load_rules(rules).expect("Failed to load rules");

    let mut batch = db.batch();
    batch.set("users/alice".to_string(), b"data".to_vec());

    let result = db.commit_batch(&batch);
    assert!(
        result.is_err(),
        "Batch commit should fail due to permissions"
    );
}

#[test]
fn test_empty_path() {
    let mut db = open("test_db_empty_path");
    let result = db.put("".to_string(), br#"{"data":"test"}"#.to_vec());
    assert!(matches!(result, Err(FireLocalError::Validation(_))));
}

#[test]
fn test_very_long_path() {
    let mut db = open("test_db_long_path");
    let long_path = "a/".repeat(100) + "document";
    let result = db.put(long_path.clone(), br#"{"data":"test"}"#.to_vec());
    assert!(result.is_err(), "Should fail for path too deep");
}

#[test]
fn test_concurrent_operations_same_document() {
    let mut db = open("test_db_concurrent_same");
    db.put("counter".to_string(), br#"{"value":0}"#.to_vec())
        .expect("Failed to put initial document");

    for i in 1..10 {
        let data = format!(r#"{{"value":{}}}"#, i);
        db.put("counter".to_string(), data.into_bytes())
            .expect("Failed to update document");
    }

    let final_doc = db.get("counter").expect("Failed to get document");
    assert_eq!(final_doc, br#"{"value":9}"#.to_vec());
}

#[test]
fn test_recovery_from_corrupted_wal() {
    let mut db = open("db");
    db.put("users/alice".to_string(), br#"{"name":"Alice"}"#.to_vec())
        .expect("Failed to put document");
    let mut storage = db.into_storage();

    // Corrupt WAL file
    let mut file = storage.create("db/wal.log").unwrap();
    storage.write(&mut file, &vec![0xFF; 100]).unwrap();

    let db: Db = FireLocal::new(storage, "db").expect("open does not fail on a damaged log");
    assert_eq!(db.get("users/alice"), None);
}

#[test]
fn test_put_get_delete_cycle() {
    let mut db = open("test_db_put_get_delete");
    let key = "users/alice";
    let value = br#"{"name":"Alice","age":30}"#.to_vec();
    db.put(key.to_string(), value.clone())
        .expect("Failed to put document");

    let retrieved = db.get(key).expect("Failed to get document");
    assert_eq!(retrieved, value, "Retrieved value should match put value");

    db.delete(key.to_string())
        .expect("Failed to delete document");

    let after_delete = db.get(key);
    assert!(after_delete.is_none(), "Document should be deleted");
}

#[test]
fn test_multiple_documents() {
    let mut db = open("test_db_multiple");
    let docs: Vec<(&str, &[u8])> = vec![
        ("users/alice", br#"{"name":"Alice","age":30}"#),
        ("users/bob", br#"{"name":"Bob","age":25}"#),
        ("users/charlie", br#"{"name":"Charlie","age":35}"#),
    ];

    for (key, value) in &docs {
        db.put(key.to_string(), value.to_vec())
            .expect("Failed to put document");
    }

    for (key, expected_value) in &docs {
        let retrieved = db.get(key).expect("Failed to get document");
        assert_eq!(
            retrieved,
            expected_value.to_vec(),
            "Document {} should match",
            key
        );
    }
}

#[test]
fn test_batch_operations() {
    let mut db = open("test_db_batch");
    let mut batch = db.batch();

    batch.set("users/alice".to_string(), br#"{"name":"Alice"}"#.to_vec());
    batch.set("users/bob".to_string(), br#"{"name":"Bob"}"#.to_vec());
    batch.delete("users/old".to_string());

    db.commit_batch(&batch).expect("Failed to commit batch");

    assert!(
        db.get("users/alice").is_some(),
        "Alice should exist after batch commit"
    );
    assert!(
        db.get("users/bob").is_some(),
        "Bob should exist after batch commit"
    );
}

#[test]
fn test_overwrite_document() {
    let mut db = open("test_db_overwrite");
    let key = "users/alice";

    let initial = br#"{"name":"Alice","age":30}"#.to_vec();
    db.put(key.to_string(), initial.clone())
        .expect("Failed to put initial document");

    let updated = br#"{"name":"Alice","age":31}"#.to_vec();
    db.put(key.to_string(), updated.clone())
        .expect("Failed to update document");

    let retrieved = db.get(key).expect("Failed to get document");
    assert_eq!(retrieved, updated, "Document should be updated");
}

#[test]
fn test_flush_operation() {
    let mut db = open("test_db_flush");
    db.put("users/alice".to_string(), br#"{"name":"Alice"}"#.to_vec())
        .expect("Failed to put document");

    db.flush().expect("Failed to flush");

    assert!(
        db.get("users/alice").is_some(),
        "Document should exist after flush"
    );
}

#[test]
fn test_compaction() {
    let mut db = open("test_db_compact");

    for i in 0..10 {
        let key = format!("docs/{}", i);
        db.put(key.clone(), br#"{"data":"test"}"#.to_vec())
            .expect("Failed to put document");
        db.delete(key).expect("Failed to delete document");
    }

    let stats = db.compact().expect("Failed to compact");
    assert_eq!(stats.files_before, 0);
    assert_eq!(stats.tombstones_removed, 0);
}

#[test]
fn test_persistence_across_instances() {
    let mut db = open("test_db_persistence");
    db.put("users/alice".to_string(), br#"{"name":"Alice"}"#.to_vec())
        .expect("Failed to put document");
    db.flush().expect("Failed to flush");

    let db = reopen(db, "test_db_persistence");
    let retrieved = db.get("users/alice").expect("Failed to get document");
    assert_eq!(
        retrieved,
        br#"{"name":"Alice"}"#.to_vec(),
        "Data should persist across instances"
    );
}

#[test]
fn test_empty_database() {
    let db = open("test_db_empty");
    let result = db.get("nonexistent");
    assert!(
        result.is_none(),
        "Get from empty database should return None"
    );
}

#[test]
fn test_large_document() {
    let mut db = open("test_db_large");
    let large_data = vec![b'a'; 1024 * 1024];
    db.put("large/doc".to_string(), large_data.clone())
        .expect("Failed to put large document");

    let retrieved = db.get("large/doc").expect("Failed to get large document");
    assert_eq!(
        retrieved.len(),
        large_data.len(),
        "Large document should be stored correctly"
    );
}

#[test]
fn test_special_characters_in_path() {
    let mut db = open("test_db_special");
    let paths = vec![
        "users/alice-123",
        "users/bob_456",
        "data/2024-01-01",
        "items/item-1/subitems/item-2",
    ];

    for path in &paths {
        db.put(path.to_string(), br#"{"data":"test"}"#.to_vec())
            .expect(&format!("Failed to put document at {}", path));
    }

    for path in &paths {
        assert!(db.get(path).is_some(), "Document at {} should exist", path);
    }
}

// A mock store that remembers what we pushed
struct MemoryRemoteStore {
    storage: Arc<Mutex<Vec<Document>>>,
}

impl RemoteStore for MemoryRemoteStore {
    fn push(&self, doc: &Document) -> Result<(), String> {
        self.storage.lock().unwrap().push(doc.clone());
        Ok(())
    }

    fn pull(&self, path: &str) -> Result<Option<Document>, String> {
        let storage = self.storage.lock().unwrap();
        Ok(storage.iter().find(|d| d.path == path).cloned())
    }
}

#[test]
fn test_sync_flow() {
    let mut db = open("tmp_test_db_sync");
    db.load_rules(ALLOW_ALL).unwrap();

    let shared_storage = Arc::new(Mutex::new(Vec::new()));
    let sync = SyncManager::new(MemoryRemoteStore {
        storage: shared_storage.clone(),
    });

    // 1. Put local
    db.put(
        "users/sync_user".to_string(),
        br#"{"path":"users/sync_user","fields":{"name":"Sync"}}"#.to_vec(),
    )
    .unwrap();

    // 2. Sync Push
    db.sync_push(&sync, "users/sync_user").unwrap();

    // Verify it's in "remote"
    {
        let storage = shared_storage.lock().unwrap();
        assert_eq!(storage.len(), 1);
        assert_eq!(storage[0].path, "users/sync_user");
    }

    // 3. Clear local
    db.delete("users/sync_user".to_string()).unwrap();
    assert!(db.get("users/sync_user").is_none());

    // 4. Sync Pull
    db.sync_pull(&sync, "users/sync_user").unwrap();

    // Verify it's back
    assert_eq!(
        db.get("users/sync_user"),
        Some(br#"{"fields":{"name":"Sync"},"path":"users/sync_user","version":0}"#.to_vec())
    );
}

#[test]
fn sync_with_the_mock_store_finds_nothing() {
    let mut db = open("db");
    let sync = SyncManager::new(MockRemoteStore);
    assert!(matches!(
        db.sync_pull(&sync, "users/a"),
        Err(FireLocalError::NotFound(_))
    ));
    assert!(matches!(
        db.sync_push(&sync, "users/a"),
        Err(FireLocalError::NotFound(_))
    ));
    db.put(
        "users/a".to_string(),
        br#"{"path":"users/a","fields":{}}"#.to_vec(),
    )
    .unwrap();
    assert!(db.sync_push(&sync, "users/a").is_ok());
}

// Replay across a restart.
#[test]
fn replay_across_restart() {
    let mut db = open("D");
    let value = b"{\"path\":\"users/a\",\"fields\":{\"n\":1}}".to_vec();
    db.put("users/a".to_string(), value.clone()).unwrap();
    let db = reopen(db, "D");
    assert_eq!(db.get("users/a"), Some(value));
    // the index was rebuilt from the log as well
    let q = QueryAst {
        collection: Some("users".to_string()),
        field: "n".to_string(),
        operator: QueryOperator::Equal("1".to_string()),
    };
    let docs = db.query(&q).unwrap();
    assert_eq!(docs.len(), 1);
    assert_eq!(docs[0].path, "users/a");
}

#[test]
fn rules_denial() {
    let mut db = open("D");
    db.load_rules("service cloud.firestore { match /databases/{database}/documents { match /users/{u} { allow read, write: if true; } } }").unwrap();
    assert!(db.put("users/a".to_string(), b"x".to_vec()).is_ok());
    assert!(matches!(
        db.put("posts/1".to_string(), b"x".to_vec()),
        Err(FireLocalError::PermissionDenied(_))
    ));
    assert!(matches!(
        db.delete("posts/1".to_string()),
        Err(FireLocalError::PermissionDenied(_))
    ));
}

#[test]
fn tombstone_hides_table_value() {
    let mut db = open("db");
    db.put("k".to_string(), b"A".to_vec()).unwrap();
    db.flush().unwrap();
    db.delete("k".to_string()).unwrap();
    assert_eq!(db.get("k"), None);
    let db = reopen(db, "db");
    assert_eq!(tables(&db).len(), 1);
    assert_eq!(db.get("k"), None);
}

#[test]
fn index_driven_query() {
    let mut db = open("db");
    db.put(
        "users/alice".to_string(),
        br#"{"path":"users/alice","fields":{"active":true,"age":30}}"#.to_vec(),
    )
    .unwrap();
    db.put(
        "users/bob".to_string(),
        br#"{"path":"users/bob","fields":{"active":false,"age":25}}"#.to_vec(),
    )
    .unwrap();
    db.put(
        "users/carol".to_string(),
        br#"{"path":"users/carol","fields":{"active":true,"age":35}}"#.to_vec(),
    )
    .unwrap();
    let q = QueryAst {
        collection: Some("users".to_string()),
        field: "active".to_string(),
        operator: QueryOperator::Equal("true".to_string()),
    };
    let mut paths: Vec<String> = db.query(&q).unwrap().into_iter().map(|d| d.path).collect();
    paths.sort();
    assert_eq!(paths, vec!["users/alice".to_string(), "users/carol".to_string()]);
}

#[test]
fn corrupted_wal_tail() {
    let mut db = open("db");
    db.put("a".to_string(), b"1".to_vec()).unwrap();
    db.put("b".to_string(), b"2".to_vec()).unwrap();
    db.delete("a".to_string()).unwrap();
    let mut storage = db.into_storage();
    let mut file = storage.open("db/wal.log").unwrap();
    storage.seek(&mut file, SeekFrom::End(0)).unwrap();
    storage.write(&mut file, &vec![0xFF; 50]).unwrap();

    let db: Db = FireLocal::new(storage, "db").unwrap();
    assert_eq!(db.get("a"), None);
    assert_eq!(db.get("b"), Some(b"2".to_vec()));
}

#[test]
fn batch_atomicity_floor() {
    let mut db = open("db");
    db.put("users/c".to_string(), b"old".to_vec()).unwrap();
    let mut batch = db.batch();
    batch.set("users/a".to_string(), b"1".to_vec());
    batch.set("users/b".to_string(), b"2".to_vec());
    batch.delete("users/c".to_string());
    db.commit_batch(&batch).unwrap();
    assert_eq!(db.get("users/a"), Some(b"1".to_vec()));
    assert_eq!(db.get("users/b"), Some(b"2".to_vec()));
    assert_eq!(db.get("users/c"), None);

    let mut bad = db.batch();
    bad.set("users/x".to_string(), b"1".to_vec());
    bad.set("users//y".to_string(), b"2".to_vec());
    bad.delete("users/a".to_string());
    assert!(matches!(
        db.commit_batch(&bad),
        Err(FireLocalError::Validation(_))
    ));
    assert_eq!(db.get("users/x"), None);
    assert_eq!(db.get("users/a"), Some(b"1".to_vec()));
}

#[test]
fn batch_is_replayed_after_restart() {
    let mut db = open("db");
    let mut batch = db.batch();
    batch.set("users/a".to_string(), b"1".to_vec());
    batch.update("users/b".to_string(), b"2".to_vec());
    batch.delete("users/a".to_string());
    db.commit_batch(&batch).unwrap();
    let db = reopen(db, "db");
    assert_eq!(db.get("users/a"), None);
    assert_eq!(db.get("users/b"), Some(b"2".to_vec()));
}

#[test]
fn batch_limits() {
    let mut db = open("db");
    let mut batch = db.batch();
    for i in 0..1001 {
        batch.delete(format!("k/{}", i));
    }
    assert!(matches!(
        db.commit_batch(&batch),
        Err(FireLocalError::Validation(_))
    ));
    let mut batch = db.batch();
    for i in 0..1000 {
        batch.delete(format!("k/{}", i));
    }
    assert!(db.commit_batch(&batch).is_ok());
}

#[test]
fn put_refuses_empty_and_oversized_values() {
    let mut db = open("db");
    assert!(matches!(
        db.put("a".to_string(), Vec::new()),
        Err(FireLocalError::Validation(_))
    ));
    assert!(matches!(
        db.put("a".to_string(), vec![b'x'; 100 * 1024 * 1024 + 1]),
        Err(FireLocalError::Validation(_))
    ));
    assert_eq!(db.get("a"), None);
}

#[test]
fn listener_receives_a_snapshot_after_every_write() {
    let mut db = open("db");
    let q = || QueryAst {
        collection: Some("users".to_string()),
        field: "active".to_string(),
        operator: QueryOperator::Equal("true".to_string()),
    };
    let first = db.listen(q(), RecordingListener::new());
    let second = db.listen(q(), RecordingListener::new());
    assert_eq!((first, second), (0, 1));
    db.unregister(first);
    let third = db.listen(q(), RecordingListener::new());
    assert_eq!(third, 2);
    db.put(
        "users/a".to_string(),
        br#"{"path":"users/a","fields":{"active":true}}"#.to_vec(),
    )
    .unwrap();
    db.delete("users/a".to_string()).unwrap();
    let found = db.query(&q()).unwrap();
    assert_eq!(found.len(), 0);
}

#[test]
fn compaction_merges_tables_and_drops_tombstones() {
    let mut db = open("db");
    db.put("a".to_string(), b"1".to_vec()).unwrap();
    db.put("b".to_string(), b"2".to_vec()).unwrap();
    db.flush().unwrap();
    db.delete("a".to_string()).unwrap();
    db.put("c".to_string(), b"3".to_vec()).unwrap();
    db.flush().unwrap();
    assert_eq!(tables(&db).len(), 2);

    let stats = db.compact().unwrap();
    assert_eq!(stats.files_before, 2);
    assert_eq!(stats.files_after, 1);
    assert_eq!(stats.entries_before, 3);
    assert_eq!(stats.entries_after, 2);
    assert_eq!(stats.tombstones_removed, 1);
    assert_eq!(tables(&db), vec!["db/compacted.sst".to_string()]);
    assert_eq!(db.get("b"), Some(b"2".to_vec()));
    assert_eq!(db.get("a"), None);

    // compacting again leaves the same table
    let before = table_bytes(&db, "db/compacted.sst");
    let again = db.compact().unwrap();
    assert_eq!(again.files_before, 1);
    assert_eq!(again.files_after, 1);
    assert_eq!(again.entries_before, 2);
    assert_eq!(again.tombstones_removed, 0);
    assert_eq!(again.size_before, again.size_after);
    assert_eq!(again.size_reduction(), 0);
    assert_eq!(table_bytes(&db, "db/compacted.sst"), before);
    assert_eq!(before.len() as u64, again.size_after);
}

fn table_bytes(db: &Db, path: &str) -> Vec<u8> {
    let storage = db.storage_ref();
    let mut file = storage.open(path).unwrap();
    read_to_end(storage, &mut file).unwrap()
}

#[test]
fn flushed_table_serves_reads_without_the_log() {
    let mut db = open("db");
    db.put("a".to_string(), b"1".to_vec()).unwrap();
    db.put("b".to_string(), b"2".to_vec()).unwrap();
    db.delete("b".to_string()).unwrap();
    db.flush().unwrap();
    let mut storage = db.into_storage();
    storage.remove_file("db/wal.log").unwrap();
    let db: Db = FireLocal::new(storage, "db").unwrap();
    assert_eq!(db.get("a"), Some(b"1".to_vec()));
    assert_eq!(db.get("b"), None);
}

#[test]
fn transaction_commits_unless_a_read_is_stale() {
    let mut db = open("db");
    let mut txn = Transaction::new();
    txn.get("users/a", None, 0);
    txn.set("users/a".to_string(), b"1".to_vec());
    db.run_transaction(&txn).unwrap();
    assert_eq!(db.get("users/a"), Some(b"1".to_vec()));
    // the same transaction again: the document has a version now
    assert!(matches!(
        db.run_transaction(&txn),
        Err(FireLocalError::Transaction(_))
    ));
}

#[test]
fn transaction_raises_the_version_of_what_it_writes() {
    let mut db = open("db");
    let mut first = Transaction::new();
    first.set("users/a".to_string(), b"1".to_vec());
    first.set("users/a".to_string(), b"2".to_vec());
    first.delete("users/b".to_string());
    db.run_transaction(&first).unwrap();
    assert_eq!(db.get("users/a"), Some(b"2".to_vec()));

    // users/a was written twice, users/b once
    let mut stale = Transaction::new();
    stale.get("users/a", Some(b"2".to_vec()), 1);
    stale.set("users/c".to_string(), b"3".to_vec());
    assert!(matches!(
        db.run_transaction(&stale),
        Err(FireLocalError::Transaction(_))
    ));
    assert_eq!(db.get("users/c"), None);

    let mut fresh = Transaction::new();
    fresh.get("users/a", Some(b"2".to_vec()), 2);
    fresh.get("users/b", Some(Vec::new()), 1);
    fresh.set("users/c".to_string(), b"3".to_vec());
    db.run_transaction(&fresh).unwrap();
    assert_eq!(db.get("users/c"), Some(b"3".to_vec()));
}

#[test]
fn transaction_with_a_path_out_of_order_is_refused() {
    let mut db = open("db");
    let mut txn = Transaction::new();
    txn.set("users/a".to_string(), b"1".to_vec());
    txn.set("../etc".to_string(), b"2".to_vec());
    assert!(matches!(
        db.run_transaction(&txn),
        Err(FireLocalError::Validation(_))
    ));
    assert_eq!(db.get("users/a"), None);
}

#[test]
fn pulled_document_is_put_at_its_path() {
    let mut db = open("db");
    let doc = Document {
        path: "users/p".to_string(),
        fields: vec![("n".to_string(), "1".to_string())],
        version: 3,
    };
    let text = doc.to_json().unwrap();
    db.put_pulled(Ok(Some(doc))).unwrap();
    assert_eq!(db.get("users/p"), Some(text.into_bytes()));
    assert!(matches!(
        db.put_pulled(Ok(None)),
        Err(FireLocalError::NotFound(_))
    ));
    assert!(matches!(
        db.put_pulled(Err("offline".to_string())),
        Err(FireLocalError::NotFound(_))
    ));
    let broken = Document {
        path: "users/q".to_string(),
        fields: vec![("n".to_string(), "{oops".to_string())],
        version: 0,
    };
    assert!(matches!(
        db.put_pulled(Ok(Some(broken))),
        Err(FireLocalError::Serialization(_))
    ));
    assert_eq!(db.get("users/q"), None);
}

fn active(value: &str) -> QueryAst {
    QueryAst {
        collection: Some("users".to_string()),
        field: "active".to_string(),
        operator: QueryOperator::Equal(value.to_string()),
    }
}

fn paths_of(docs: &[Document]) -> Vec<String> {
    let mut paths: Vec<String> = docs.iter().map(|d| d.path.clone()).collect();
    paths.sort();
    paths
}

#[test]
fn a_query_does_not_find_what_was_overwritten() {
    let mut db = open("db");
    db.put(
        "users/a".to_string(),
        br#"{"path":"users/a","fields":{"active":true}}"#.to_vec(),
    )
    .unwrap();
    db.put(
        "users/a".to_string(),
        br#"{"path":"users/a","fields":{"active":false}}"#.to_vec(),
    )
    .unwrap();
    assert_eq!(db.query(&active("true")).unwrap().len(), 0);
    let found = db.query(&active("false")).unwrap();
    assert_eq!(paths_of(&found), vec!["users/a"]);
    assert_eq!(found[0].field("active").unwrap(), "false");

    // a value that is no document takes the document's place
    db.put("users/a".to_string(), b"plain".to_vec()).unwrap();
    assert_eq!(db.query(&active("false")).unwrap().len(), 0);

    // and the same holds after the log was replayed
    let db = reopen(db, "db");
    assert_eq!(db.query(&active("true")).unwrap().len(), 0);
    assert_eq!(db.query(&active("false")).unwrap().len(), 0);
}

#[test]
fn a_query_finds_what_a_batch_or_a_transaction_wrote() {
    let mut db = open("db");
    db.put(
        "users/a".to_string(),
        br#"{"path":"users/a","fields":{"active":true}}"#.to_vec(),
    )
    .unwrap();
    let mut batch = db.batch();
    batch.set(
        "users/b".to_string(),
        br#"{"path":"users/b","fields":{"active":true}}"#.to_vec(),
    );
    batch.update(
        "users/a".to_string(),
        br#"{"path":"users/a","fields":{"active":false}}"#.to_vec(),
    );
    batch.set(
        "posts/1".to_string(),
        br#"{"path":"posts/1","fields":{"active":true}}"#.to_vec(),
    );
    db.commit_batch(&batch).unwrap();
    assert_eq!(paths_of(&db.query(&active("true")).unwrap()), vec!["users/b"]);
    assert_eq!(paths_of(&db.query(&active("false")).unwrap()), vec!["users/a"]);

    let mut txn = Transaction::new();
    txn.set(
        "users/c".to_string(),
        br#"{"path":"users/c","fields":{"active":true}}"#.to_vec(),
    );
    txn.delete("users/b".to_string());
    db.run_transaction(&txn).unwrap();
    assert_eq!(paths_of(&db.query(&active("true")).unwrap()), vec!["users/c"]);

    let db = reopen(db, "db");
    assert_eq!(paths_of(&db.query(&active("true")).unwrap()), vec!["users/c"]);
    assert_eq!(paths_of(&db.query(&active("false")).unwrap()), vec!["users/a"]);
}

#[test]
fn a_document_is_found_under_the_key_that_holds_it() {
    let mut db = open("db");
    // the document names another path than the key it is put at
    db.put(
        "users/a".to_string(),
        br#"{"path":"users/elsewhere","fields":{"active":true}}"#.to_vec(),
    )
    .unwrap();
    let found = db.query(&active("true")).unwrap();
    assert_eq!(found.len(), 1);
    assert_eq!(found[0].path, "users/elsewhere");
    db.delete("users/a".to_string()).unwrap();
    assert_eq!(db.query(&active("true")).unwrap().len(), 0);
}

#[test]
fn a_store_is_opened_on_every_table_the_newest_first() {
    let mut db = open("db");
    db.put("k".to_string(), b"old".to_vec()).unwrap();
    db.put("only".to_string(), b"once".to_vec()).unwrap();
    db.flush().unwrap();
    db.put("k".to_string(), b"new".to_vec()).unwrap();
    db.flush().unwrap();
    let mut storage = db.into_storage();
    storage.remove_file("db/wal.log").unwrap();
    let db: Db = FireLocal::new(storage, "db").unwrap();
    assert_eq!(tables(&db).len(), 2);
    assert_eq!(db.get("k"), Some(b"new".to_vec()));
    assert_eq!(db.get("only"), Some(b"once".to_vec()));
    assert_eq!(db.get("never"), None);
}

#[test]
fn compaction_leaves_one_table_and_no_scratch_file() {
    let mut db = open("db");
    db.put("a".to_string(), b"1".to_vec()).unwrap();
    db.flush().unwrap();
    db.compact().unwrap();
    db.put("b".to_string(), b"2".to_vec()).unwrap();
    db.flush().unwrap();
    // the table of the first compaction is an input of the second
    let stats = db.compact().unwrap();
    assert_eq!(stats.files_before, 2);
    assert_eq!(stats.files_after, 1);
    assert_eq!(tables(&db), vec!["db/compacted.sst".to_string()]);
    assert!(!db.storage_ref().file_exists("db/compacted.tmp"));
    assert_eq!(db.get("a"), Some(b"1".to_vec()));
    assert_eq!(db.get("b"), Some(b"2".to_vec()));
    let db = reopen(db, "db");
    assert_eq!(db.get("a"), Some(b"1".to_vec()));
}
