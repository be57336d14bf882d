use firelocal_core::collections::StringMap;
use firelocal_core::index::basic_index::{collection_name, value_to_key, BasicIndexProvider};
use firelocal_core::index::composite::CompositeIndex;
use firelocal_core::index::{IndexProvider, QueryAst, QueryOperator};
use firelocal_core::listener::{ListenerManager, RecordingListener, SnapshotListener};
use firelocal_core::model::{Document, DocumentError};
use firelocal_core::sync::enhanced::{resolve_conflict, runs_unattended, ConflictResolution, SyncMode};
use firelocal_core::text::{compare_bytes, compare_str, decimal_chars, str_eq, Order};

fn doc(path: &str, fields: &[(&str, &str)]) -> Document {
    Document {
        path: path.to_string(),
        fields: fields
            .iter()
            .map(|(k, v)| (k.to_string(), v.to_string()))
            .collect(),
        version: 0,
    }
}

fn sorted(mut v: Vec<String>) -> Vec<String> {
    v.sort();
    v
}

#[test]
fn value_keys() {
    assert_eq!(value_to_key("\"alice\""), "alice");
    assert_eq!(value_to_key("\"a\\nb\""), "a\nb");
    assert_eq!(value_to_key("30"), "30");
    assert_eq!(value_to_key(" 30 "), "30");
    assert_eq!(value_to_key("1.50"), "1.5");
    assert_eq!(value_to_key("true"), "true");
    assert_eq!(value_to_key("null"), "null");
    assert_eq!(value_to_key("[1, 2]"), "[1,2]");
    assert_eq!(value_to_key("{ \"b\": 1, \"a\": 2 }"), "{\"a\":2,\"b\":1}");
    assert_eq!(value_to_key("not json"), "not json");
}

#[test]
fn collection_is_the_first_segment() {
    assert_eq!(collection_name("users/alice"), "users");
    assert_eq!(collection_name("users"), "users");
    assert_eq!(collection_name("a/b/c/d"), "a");
    assert_eq!(collection_name(""), "");
    assert_eq!(collection_name("/x"), "");
}

#[test]
fn index_answers_equality() {
    let mut index = BasicIndexProvider::new();
    index.on_put("users/alice", &doc("users/alice", &[("active", "true"), ("age", "30")]));
    index.on_put("users/bob", &doc("users/bob", &[("active", "false"), ("age", "25")]));
    index.on_put("users/carol", &doc("users/carol", &[("active", "true"), ("name", "\"true\"")]));
    index.on_put("posts/1", &doc("posts/1", &[("active", "true")]));

    assert_eq!(
        sorted(index.query_equal("users", "active", "true")),
        vec!["users/alice", "users/carol"]
    );
    assert_eq!(index.query_equal("users", "age", "25"), vec!["users/bob"]);
    assert_eq!(index.query_equal("users", "age", "25.0"), Vec::<String>::new());
    assert_eq!(index.query_equal("posts", "active", "true"), vec!["posts/1"]);
    assert_eq!(index.query_equal("users", "missing", "true"), Vec::<String>::new());
    // a string and a boolean with the same token share a key
    assert_eq!(index.query_equal("users", "name", "true"), vec!["users/carol"]);

    // putting the same document again adds nothing
    index.on_put("users/bob", &doc("users/bob", &[("active", "false"), ("age", "25")]));
    assert_eq!(index.query_equal("users", "age", "25"), vec!["users/bob"]);

    index.on_delete("users/alice");
    assert_eq!(index.query_equal("users", "active", "true"), vec!["users/carol"]);
    assert_eq!(index.query_equal("users", "age", "30"), Vec::<String>::new());
    index.on_delete("users/none");
    assert_eq!(index.query_equal("posts", "active", "true"), vec!["posts/1"]);
}

#[test]
fn index_holds_the_latest_document_of_a_path() {
    let mut index = BasicIndexProvider::new();
    index.on_put("users/a", &doc("users/a", &[("active", "true"), ("n", "1")]));
    index.on_put("users/b", &doc("users/b", &[("active", "true")]));
    index.on_put("users/a", &doc("users/a", &[("active", "false")]));
    assert_eq!(index.query_equal("users", "active", "true"), vec!["users/b"]);
    assert_eq!(index.query_equal("users", "active", "false"), vec!["users/a"]);
    // a field that the new document lacks is gone as well
    assert_eq!(index.query_equal("users", "n", "1"), Vec::<String>::new());
    index.on_delete("users/a");
    assert_eq!(index.query_equal("users", "active", "false"), Vec::<String>::new());
    assert_eq!(index.query_equal("users", "active", "true"), vec!["users/b"]);
}

#[test]
fn index_query_by_ast() {
    let mut index = BasicIndexProvider::new();
    index.on_put("default/x", &doc("default/x", &[("n", "1")]));
    index.on_put("users/y", &doc("users/y", &[("n", "1")]));
    let q = |collection: Option<&str>, operator: QueryOperator| QueryAst {
        collection: collection.map(|c| c.to_string()),
        field: "n".to_string(),
        operator,
    };
    assert_eq!(
        index.query(&q(None, QueryOperator::Equal("1".to_string()))),
        vec!["default/x"]
    );
    assert_eq!(
        index.query(&q(Some("users"), QueryOperator::Equal("1".to_string()))),
        vec!["users/y"]
    );
    assert_eq!(
        index.query(&q(Some("users"), QueryOperator::GreaterThan("0".to_string()))),
        Vec::<String>::new()
    );
    assert_eq!(
        index.query(&q(Some("users"), QueryOperator::In(vec!["1".to_string()]))),
        Vec::<String>::new()
    );
}

#[test]
fn document_from_json() {
    let d = Document::from_json(r#"{"path":"users/a","fields":{"n":1,"s":"x","o":{"k":[1,2]}},"version":7,"other":true}"#).unwrap();
    assert_eq!(d.path, "users/a");
    assert_eq!(d.version, 7);
    assert_eq!(d.field("n").unwrap(), "1");
    assert_eq!(d.field("s").unwrap(), "\"x\"");
    assert_eq!(d.field("o").unwrap(), "{\"k\":[1,2]}");
    assert!(d.field("missing").is_none());

    let d = Document::from_json(r#"{"fields":{},"path":"p"}"#).unwrap();
    assert_eq!(d.version, 0);
    assert_eq!(d.fields.len(), 0);

    assert_eq!(Document::from_json("7").err(), Some(DocumentError::NotAnObject));
    // the array of the path, the fields and the version
    let d = Document::from_json(r#"["users/a",{"n":1},7]"#).unwrap();
    assert_eq!(d.path, "users/a");
    assert_eq!(d.field("n").unwrap(), "1");
    assert_eq!(d.version, 7);
    assert_eq!(Document::from_json(r#"["p",{}]"#).unwrap().version, 0);
    assert_eq!(Document::from_json("[]").err(), Some(DocumentError::MissingPath));
    assert_eq!(Document::from_json("[1]").err(), Some(DocumentError::PathNotAString));
    assert_eq!(Document::from_json(r#"["p"]"#).err(), Some(DocumentError::MissingFields));
    assert_eq!(
        Document::from_json(r#"["p",[]]"#).err(),
        Some(DocumentError::FieldsNotAnObject)
    );
    assert_eq!(Document::from_json(r#"["p",{},-1]"#).err(), Some(DocumentError::BadVersion));
    assert_eq!(
        Document::from_json(r#"["p",{},1,2]"#).err(),
        Some(DocumentError::TooManyItems)
    );
    assert_eq!(Document::from_json("nope").err(), Some(DocumentError::NotAnObject));
    assert_eq!(Document::from_json(r#"{"fields":{}}"#).err(), Some(DocumentError::MissingPath));
    assert_eq!(
        Document::from_json(r#"{"path":1,"fields":{}}"#).err(),
        Some(DocumentError::PathNotAString)
    );
    assert_eq!(Document::from_json(r#"{"path":"p"}"#).err(), Some(DocumentError::MissingFields));
    assert_eq!(
        Document::from_json(r#"{"path":"p","fields":[]}"#).err(),
        Some(DocumentError::FieldsNotAnObject)
    );
    assert_eq!(
        Document::from_json(r#"{"path":"p","fields":{},"version":-1}"#).err(),
        Some(DocumentError::BadVersion)
    );
    assert_eq!(
        Document::from_json(r#"{"path":"p","fields":{},"version":null}"#).err(),
        Some(DocumentError::BadVersion)
    );
}

#[test]
fn document_to_json() {
    let d = doc("users/\"a\"", &[("n", " 1 "), ("s", "\"x\"")]);
    let text = d.to_json().unwrap();
    assert_eq!(
        text,
        r#"{"fields":{"n":1,"s":"x"},"path":"users/\"a\"","version":0}"#
    );
    let back = Document::from_json(&text).unwrap();
    assert_eq!(back.path, d.path);
    assert_eq!(back.field("n").unwrap(), "1");
    assert_eq!(
        doc("p", &[("bad", "{")]).to_json().err(),
        Some(DocumentError::BadFieldValue)
    );
    let mut versioned = doc("p", &[]);
    versioned.version = 18446744073709551615;
    assert_eq!(
        versioned.to_json().unwrap(),
        r#"{"fields":{},"path":"p","version":18446744073709551615}"#
    );
    assert_eq!(versioned.duplicate().version, versioned.version);
}

#[test]
fn listeners_get_increasing_ids() {
    let mut manager: ListenerManager<RecordingListener> = ListenerManager::new();
    let q = || QueryAst {
        collection: None,
        field: "f".to_string(),
        operator: QueryOperator::Equal("1".to_string()),
    };
    assert_eq!(manager.register(q(), RecordingListener::new()), 0);
    assert_eq!(manager.register(q(), RecordingListener::new()), 1);
    manager.unregister(0);
    manager.unregister(7);
    assert_eq!(manager.register(q(), RecordingListener::new()), 2);
    let ids: Vec<u64> = manager.get_listeners().into_iter().map(|(id, _)| id).collect();
    assert_eq!(ids, vec![1, 2]);
    assert_eq!(manager.get_listener_snapshots().len(), 2);
    manager.notify(2, vec![doc("a", &[])]);
    manager.notify_single(9, Vec::new());
}

#[test]
fn recording_listener_keeps_every_snapshot() {
    let mut listener = RecordingListener::new();
    assert_eq!(listener.count(), 0);
    assert!(listener.last().is_none());
    listener.on_snapshot(vec![doc("a", &[])]);
    listener.on_snapshot(vec![doc("b", &[]), doc("c", &[])]);
    assert_eq!(listener.count(), 2);
    assert_eq!(listener.last().unwrap().len(), 2);
    assert_eq!(listener.last().unwrap()[1].path, "c");
}

#[test]
fn test_conflict_resolution() {
    let mut local = doc("test", &[]);
    local.version = 2;
    let mut remote = doc("test", &[]);
    remote.version = 1;

    let result = resolve_conflict(ConflictResolution::LastWriteWins, &local, &remote);
    assert_eq!(result.version, 2); // Local wins (higher version)
}

#[test]
fn conflict_resolution_by_strategy() {
    let mut local = doc("l", &[]);
    local.version = 1;
    let mut remote = doc("r", &[]);
    remote.version = 2;
    assert_eq!(resolve_conflict(ConflictResolution::LastWriteWins, &local, &remote).path, "r");
    assert_eq!(resolve_conflict(ConflictResolution::ClientWins, &local, &remote).path, "l");
    assert_eq!(resolve_conflict(ConflictResolution::ServerWins, &local, &remote).path, "r");
    remote.version = 1;
    assert_eq!(resolve_conflict(ConflictResolution::LastWriteWins, &local, &remote).path, "l");
    assert!(!runs_unattended(SyncMode::Off));
    assert!(!runs_unattended(SyncMode::Manual));
    assert!(runs_unattended(SyncMode::Live));
    assert!(runs_unattended(SyncMode::Batch));
    assert!(runs_unattended(SyncMode::Background));
}

#[test]
fn string_map() {
    let mut map: StringMap<u32> = StringMap::new();
    assert_eq!(map.len(), 0);
    assert_eq!(map.insert("a".to_string(), 1), None);
    assert_eq!(map.insert("b".to_string(), 2), None);
    assert_eq!(map.insert("a".to_string(), 3), Some(1));
    assert_eq!(map.len(), 2);
    assert_eq!(map.get("a"), Some(&3));
    assert_eq!(map.get("c"), None);
    assert!(map.contains_key("b"));
    assert_eq!(map.position("b"), Some(1));
    assert_eq!(map.key_at(0), "a");
    assert_eq!(map.value_at(1), &2);
    assert_eq!(map.remove("a"), Some(3));
    assert_eq!(map.remove("a"), None);
    assert_eq!(map.key_at(0), "b");
    assert_eq!(map.len(), 1);
}

#[test]
fn text_helpers() {
    assert_eq!(compare_bytes(b"a", b"b"), Order::Less);
    assert_eq!(compare_bytes(b"ab", b"a"), Order::Greater);
    assert_eq!(compare_bytes(b"", b""), Order::Equal);
    assert_eq!(compare_bytes(b"", b"\0"), Order::Less);
    assert_eq!(compare_str("é", "z"), Order::Greater);
    assert_eq!(compare_str("abc", "abc"), Order::Equal);
    assert!(str_eq("ü", "ü"));
    assert!(!str_eq("u", "ü"));
    let text: String = decimal_chars(0).into_iter().collect();
    assert_eq!(text, "0");
    let text: String = decimal_chars(1203).into_iter().collect();
    assert_eq!(text, "1203");
    let text: String = decimal_chars(u64::MAX).into_iter().collect();
    assert_eq!(text, "18446744073709551615");
}

fn conditions(items: &[(&str, &str)]) -> Vec<(String, String)> {
    items
        .iter()
        .map(|(n, v)| (n.to_string(), v.to_string()))
        .collect()
}

#[test]
fn test_composite_index_add() {
    let mut index = CompositeIndex::new(vec!["age".to_string(), "city".to_string()]);

    let doc = doc("users/alice", &[("age", "30"), ("city", "\"NYC\"")]);

    index.add(&doc);

    let results = index.query(&conditions(&[("age", "30"), ("city", "\"NYC\"")]));

    assert_eq!(results.len(), 1);
    assert_eq!(results[0], "users/alice");
}

#[test]
fn test_composite_index_remove() {
    let mut index = CompositeIndex::new(vec!["age".to_string()]);

    let doc = doc("users/alice", &[("age", "30")]);

    index.add(&doc);
    index.remove(&doc);

    let results = index.query(&conditions(&[("age", "30")]));
    assert_eq!(results.len(), 0);
}

#[test]
fn composite_index_answers_in_the_order_of_arrival() {
    let mut index = CompositeIndex::new(vec!["age".to_string(), "city".to_string()]);
    index.add(&doc("users/c", &[("age", "30"), ("city", "\"NYC\"")]));
    index.add(&doc("users/a", &[("city", "\"NYC\""), ("age", "30")]));
    index.add(&doc("users/b", &[("age", "31"), ("city", "\"NYC\"")]));
    index.add(&doc("users/d", &[("age", "30")]));
    // a second time changes nothing
    index.add(&doc("users/c", &[("age", "30"), ("city", "\"NYC\"")]));
    assert_eq!(index.len(), 4);

    let wanted = conditions(&[("city", "\"NYC\""), ("age", "30"), ("age", "31")]);
    assert_eq!(index.query(&wanted), vec!["users/c", "users/a"]);
    // a field that a document lacks counts as null
    assert_eq!(
        index.query(&conditions(&[("age", "30"), ("city", "null")])),
        vec!["users/d"]
    );
    // every field of the index needs a condition
    assert_eq!(index.query(&conditions(&[("age", "30")])), Vec::<String>::new());
    assert_eq!(index.query(&Vec::new()), Vec::<String>::new());

    index.remove(&doc("users/c", &[("age", "30"), ("city", "\"NYC\"")]));
    // a document that is not there under these values: nothing changes
    index.remove(&doc("users/a", &[("age", "99"), ("city", "\"NYC\"")]));
    assert_eq!(index.query(&wanted), vec!["users/a"]);
    assert_eq!(index.len(), 3);
    let (key, path) = index.entry_at(0);
    assert_eq!(key, &vec!["30".to_string(), "\"NYC\"".to_string()]);
    assert_eq!(path, "users/a");
}

fn values(items: &[&str]) -> Vec<String> {
    items.iter().map(|s| s.to_string()).collect()
}

#[test]
fn operators_on_equal_values() {
    let equal = QueryOperator::Equal("{\"a\":1,\"b\":[true]}".to_string());
    assert!(equal.matches("{ \"b\": [true], \"a\": 1 }", 0));
    assert!(!equal.matches("{\"a\":1}", 0));
    assert!(!equal.matches("not json", 0));
    assert!(!QueryOperator::Equal("1".to_string()).matches("1.0", 0));
    assert!(!QueryOperator::Equal("1".to_string()).matches("\"1\"", 0));

    let within = QueryOperator::In(values(&["1", "\"two\"", "null"]));
    assert!(within.matches("\"two\"", 0));
    assert!(within.matches("null", 0));
    assert!(!within.matches("2", 0));
    let without = QueryOperator::NotIn(values(&["1", "\"two\"", "null"]));
    assert!(!without.matches("\"two\"", 0));
    assert!(without.matches("2", 0));
    assert!(!QueryOperator::In(Vec::new()).matches("1", 0));
    assert!(QueryOperator::NotIn(Vec::new()).matches("1", 0));
    assert!(!equal.is_ordering());
    assert!(!within.is_ordering());
}

#[test]
fn operators_on_arrays() {
    let holds = QueryOperator::ArrayContains("\"b\"".to_string());
    assert!(holds.matches("[\"a\", \"b\"]", 0));
    assert!(!holds.matches("[\"a\", [\"b\"]]", 0));
    assert!(!holds.matches("\"b\"", 0));
    assert!(!holds.matches("[]", 0));

    let any = QueryOperator::ArrayContainsAny(values(&["7", "\"b\""]));
    assert!(any.matches("[1, 2, \"b\"]", 0));
    assert!(any.matches("[7]", 0));
    assert!(!any.matches("[1, 2]", 0));
    assert!(!any.matches("{\"b\":7}", 0));
    assert!(!QueryOperator::ArrayContainsAny(Vec::new()).matches("[1]", 0));
    assert!(!any.is_ordering());
}

#[test]
fn operators_of_order_go_by_the_comparison() {
    let less = QueryOperator::LessThan("5".to_string());
    assert!(less.matches("3", -1));
    assert!(!less.matches("5", 0));
    assert!(!less.matches("7", 1));
    let at_most = QueryOperator::LessThanOrEqual("5".to_string());
    assert!(at_most.matches("3", -1));
    assert!(at_most.matches("5", 0));
    assert!(!at_most.matches("7", 1));
    let more = QueryOperator::GreaterThan("5".to_string());
    assert!(!more.matches("3", -1));
    assert!(!more.matches("5", 0));
    assert!(more.matches("7", 1));
    let at_least = QueryOperator::GreaterThanOrEqual("5".to_string());
    assert!(!at_least.matches("3", -1));
    assert!(at_least.matches("5", 0));
    assert!(at_least.matches("7", 1));
    assert!(less.is_ordering() && at_most.is_ordering());
    assert!(more.is_ordering() && at_least.is_ordering());
}

fn told_and_asked<I: IndexProvider>(index: &mut I) -> Vec<String> {
    index.on_put("users/a", &doc("users/a", &[("age", "30")]));
    index.on_put("users/b", &doc("users/b", &[("age", "30")]));
    index.on_delete("users/a");
    index.query(&QueryAst {
        collection: Some("users".to_string()),
        field: "age".to_string(),
        operator: QueryOperator::Equal("30".to_string()),
    })
}

#[test]
fn the_basic_index_is_an_index_provider() {
    let mut index = BasicIndexProvider::new();
    assert_eq!(told_and_asked(&mut index), vec!["users/b"]);
}

#[test]
fn range_query_takes_the_entries_that_compare_right() {
    let mut index = CompositeIndex::new(vec!["age".to_string(), "city".to_string()]);
    index.add(&doc("users/a", &[("age", "30"), ("city", "\"B\"")]));
    index.add(&doc("users/b", &[("age", "40"), ("city", "\"B\"")]));
    index.add(&doc("users/c", &[("age", "35"), ("city", "\"Z\"")]));
    index.add(&doc("users/a", &[("age", "31"), ("city", "\"C\"")]));
    // ages 30 to 36, cities B to D
    let compared = vec![
        vec![(true, true), (true, true)],
        vec![(true, false), (true, true)],
        vec![(true, true), (true, false)],
        vec![(true, true), (true, true)],
    ];
    // users/a lies in the range with two entries and is given once
    assert_eq!(index.range_query(2, 2, &compared), vec!["users/a"]);
    // a range of another width holds nothing
    assert_eq!(index.range_query(1, 1, &compared), Vec::<String>::new());
    assert_eq!(index.range_query(2, 3, &compared), Vec::<String>::new());
    // an entry without a row of its width does not lie in the range
    let short = vec![vec![(true, true)], vec![(true, true), (true, true)]];
    assert_eq!(index.range_query(2, 2, &short), vec!["users/b"]);
    assert_eq!(index.range_query(2, 2, &Vec::new()), Vec::<String>::new());
}
