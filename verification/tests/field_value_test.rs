use firelocal_core::field_value::{
    now_millis, process_field_values, process_field_values_at, FieldEntry, FieldValue,
};
use firelocal_core::listener::RecordingListener;
use firelocal_core::store::io::MemoryStorage;
use firelocal_core::FireLocal;
use serde_json::Value;

type Db = FireLocal<MemoryStorage, RecordingListener>;

fn value(text: &str) -> Value {
    serde_json::from_str(text).unwrap()
}

fn texts(items: &[&str]) -> Vec<String> {
    items.iter().map(|s| s.to_string()).collect()
}

#[test]
fn test_server_timestamp() {
    let fv = FieldValue::server_timestamp();
    let result = fv.apply(None);
    assert!(result.is_some());
    assert!(value(&result.unwrap()).is_number());
}

#[test]
fn test_increment() {
    let fv = FieldValue::increment(5);

    let existing = Value::from(10).to_string();
    let result = fv.apply(Some(&existing));
    assert_eq!(result.map(|t| value(&t)), Some(Value::from(15)));

    let result = fv.apply(None);
    assert_eq!(result.map(|t| value(&t)), Some(Value::from(5)));
}

#[test]
fn test_array_union() {
    let fv = FieldValue::array_union(vec![
        Value::from("a").to_string(),
        Value::from("b").to_string(),
    ]);

    let existing = Value::from(vec!["a", "c"]).to_string();
    let result = fv.apply(Some(&existing));
    assert_eq!(
        result.map(|t| value(&t)),
        Some(Value::from(vec!["a", "c", "b"]))
    );

    let result = fv.apply(None);
    assert_eq!(result.map(|t| value(&t)), Some(Value::from(vec!["a", "b"])));
}

#[test]
fn test_array_remove() {
    let fv = FieldValue::array_remove(vec![Value::from("b").to_string()]);

    let existing = Value::from(vec!["a", "b", "c"]).to_string();
    let result = fv.apply(Some(&existing));
    assert_eq!(result.map(|t| value(&t)), Some(Value::from(vec!["a", "c"])));
}

#[test]
fn field_value_test_delete() {
    let fv = FieldValue::delete();
    let existing = "{\"key\":\"value\"}";
    let result = fv.apply(Some(existing));
    assert_eq!(result, None);
}

#[test]
fn test_process_field_values() {
    let data = vec![
        (
            "count".to_string(),
            FieldEntry::Change(FieldValue::Increment(1)),
        ),
        (
            "name".to_string(),
            FieldEntry::Plain(Value::from("Alice").to_string()),
        ),
    ];
    let existing = vec![("count".to_string(), Value::from(5).to_string())];

    let data = process_field_values(&data, Some(&existing));

    let get = |name: &str| {
        data.iter()
            .find(|(n, _)| n == name)
            .map(|(_, text)| value(text))
    };
    assert_eq!(get("count"), Some(Value::from(6)));
    assert_eq!(get("name"), Some(Value::from("Alice")));
}

#[test]
fn increment_gives_exact_texts() {
    assert_eq!(
        FieldValue::increment(5).apply_at(Some("10"), 0),
        Some("15".to_string())
    );
    assert_eq!(
        FieldValue::increment(-20).apply_at(Some("10"), 0),
        Some("-10".to_string())
    );
    // what is no integer counts as 0
    assert_eq!(
        FieldValue::increment(3).apply_at(Some("\"ten\""), 0),
        Some("3".to_string())
    );
    assert_eq!(
        FieldValue::increment(3).apply_at(Some("1.5"), 0),
        Some("3".to_string())
    );
    assert_eq!(
        FieldValue::increment(3).apply_at(Some("not json"), 0),
        Some("3".to_string())
    );
}

#[test]
fn increment_wraps_at_the_bounds() {
    let top = i64::MAX.to_string();
    assert_eq!(
        FieldValue::increment(1).apply_at(Some(&top), 0),
        Some(i64::MIN.to_string())
    );
    let bottom = i64::MIN.to_string();
    assert_eq!(
        FieldValue::increment(-1).apply_at(Some(&bottom), 0),
        Some(i64::MAX.to_string())
    );
    assert_eq!(
        FieldValue::increment(0).apply_at(Some(&bottom), 0),
        Some("-9223372036854775808".to_string())
    );
}

#[test]
fn timestamp_is_the_time_given() {
    assert_eq!(
        FieldValue::server_timestamp().apply_at(Some("1"), 1700000000123),
        Some("1700000000123".to_string())
    );
    assert_eq!(
        FieldValue::server_timestamp().apply_at(None, 0),
        Some("0".to_string())
    );
    assert!(now_millis() >= 0);
}

#[test]
fn union_keeps_order_and_adds_each_value_once() {
    let fv = FieldValue::array_union(texts(&["3", "1", "3", "\"x\"", "1.0"]));
    assert_eq!(
        fv.apply_at(Some("[1, 2]"), 0),
        Some("[1,2,3,\"x\",1.0]".to_string())
    );
    // what is no array counts as the empty one
    assert_eq!(
        fv.apply_at(Some("{\"a\":1}"), 0),
        Some("[3,1,\"x\",1.0]".to_string())
    );
    assert_eq!(
        FieldValue::array_union(Vec::new()).apply_at(None, 0),
        Some("[]".to_string())
    );
    // values are compared as JSON, not as texts
    assert_eq!(
        FieldValue::array_union(texts(&["{\"b\":2,\"a\":1}"])).apply_at(Some("[{\"a\":1, \"b\":2}]"), 0),
        Some("[{\"a\":1,\"b\":2}]".to_string())
    );
}

#[test]
fn remove_takes_every_equal_value_out() {
    let fv = FieldValue::array_remove(texts(&["1", "\"b\""]));
    assert_eq!(
        fv.apply_at(Some("[1,\"a\",1,\"b\",2,[1]]"), 0),
        Some("[\"a\",2,[1]]".to_string())
    );
    assert_eq!(fv.apply_at(None, 0), Some("[]".to_string()));
    assert_eq!(fv.apply_at(Some("7"), 0), Some("[]".to_string()));
    assert_eq!(
        FieldValue::array_remove(Vec::new()).apply_at(Some("[1,2]"), 0),
        Some("[1,2]".to_string())
    );
}

#[test]
fn an_element_that_is_no_json_gives_no_text() {
    let fv = FieldValue::array_union(texts(&["{oops"]));
    assert_eq!(fv.apply_at(Some("[1]"), 0), None);
}

#[test]
fn changes_are_worked_out_field_by_field() {
    let data = vec![
        ("a".to_string(), FieldEntry::Plain("1".to_string())),
        ("gone".to_string(), FieldEntry::Change(FieldValue::Delete)),
        (
            "seen".to_string(),
            FieldEntry::Change(FieldValue::ServerTimestamp),
        ),
        (
            "tags".to_string(),
            FieldEntry::Change(FieldValue::ArrayUnion(texts(&["\"new\""]))),
        ),
        (
            "visits".to_string(),
            FieldEntry::Change(FieldValue::Increment(2)),
        ),
    ];
    let existing = vec![
        ("gone".to_string(), "true".to_string()),
        ("tags".to_string(), "[\"old\"]".to_string()),
        ("visits".to_string(), "40".to_string()),
    ];
    let out = process_field_values_at(&data, Some(&existing), 99);
    assert_eq!(
        out,
        vec![
            ("a".to_string(), "1".to_string()),
            ("seen".to_string(), "99".to_string()),
            ("tags".to_string(), "[\"old\",\"new\"]".to_string()),
            ("visits".to_string(), "42".to_string()),
        ]
    );
    let fresh = process_field_values_at(&data, None, 99);
    assert_eq!(
        fresh,
        vec![
            ("a".to_string(), "1".to_string()),
            ("seen".to_string(), "99".to_string()),
            ("tags".to_string(), "[\"new\"]".to_string()),
            ("visits".to_string(), "2".to_string()),
        ]
    );
    assert_eq!(process_field_values_at(&Vec::new(), None, 0), Vec::new());
}

#[test]
fn put_with_field_values_reads_what_the_store_holds() {
    let mut db: Db = FireLocal::new(MemoryStorage::new(), "db").unwrap();
    db.put(
        "users/a".to_string(),
        b"{\"name\":\"A\",\"visits\":41}".to_vec(),
    )
    .unwrap();
    let data = vec![
        ("name".to_string(), FieldEntry::Plain("\"A\"".to_string())),
        (
            "visits".to_string(),
            FieldEntry::Change(FieldValue::Increment(1)),
        ),
    ];
    db.put_with_field_values("users/a".to_string(), data).unwrap();
    assert_eq!(
        db.get("users/a"),
        Some(b"{\"name\":\"A\",\"visits\":42}".to_vec())
    );

    // at a given time, against a given value
    let data = vec![(
        "seen".to_string(),
        FieldEntry::Change(FieldValue::ServerTimestamp),
    )];
    db.put_with_field_values_at("users/b".to_string(), &data, None, 1234)
        .unwrap();
    assert_eq!(db.get("users/b"), Some(b"{\"seen\":1234}".to_vec()));

    // a field that is not JSON is refused and nothing is written
    let data = vec![("x".to_string(), FieldEntry::Plain("{oops".to_string()))];
    let refused = db.put_with_field_values("users/c".to_string(), data);
    assert!(matches!(
        refused,
        Err(firelocal_core::error::FireLocalError::Serialization(_))
    ));
    assert_eq!(db.get("users/c"), None);
}
