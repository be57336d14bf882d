use firelocal_core::rules::ast::{AllowStatement, MatchBlock, Ruleset};
use firelocal_core::rules::parser::RulesParser;
use firelocal_core::rules::RulesEngine;
use std::collections::HashMap;

fn parse(text: &str) -> Result<Ruleset, String> {
    RulesParser::new(text).parse()
}

const USERS: &str = r#"
    service cloud.firestore {
        match /databases/{database}/documents {
            match /users/{uid} {
                allow read, write: if true;
            }
            match /logs/{rest=**} {
                allow read: if true;
                allow write: if request.auth != null;
            }
        }
    }
"#;

#[test]
fn parser_builds_the_tree() {
    let rules = parse(USERS).unwrap();
    assert_eq!(rules.service_name, "cloud.firestore");
    let top = &rules.match_block;
    assert_eq!(top.path_pattern, "/databases/{database}/documents");
    assert_eq!(top.allow_statements.len(), 0);
    assert_eq!(top.sub_matches.len(), 2);
    let users = &top.sub_matches[0];
    assert_eq!(users.path_pattern, "/users/{uid}");
    assert_eq!(users.allow_statements.len(), 1);
    assert_eq!(users.allow_statements[0].operations, vec!["read", "write"]);
    assert_eq!(users.allow_statements[0].condition, "true");
    let logs = &top.sub_matches[1];
    assert_eq!(logs.allow_statements.len(), 2);
    assert_eq!(logs.allow_statements[1].operations, vec!["write"]);
    assert_eq!(logs.allow_statements[1].condition, "request.auth != null");
}

#[test]
fn parser_reports_the_unexpected_character() {
    assert_eq!(
        parse("this is not valid rules").err().unwrap(),
        "Expected 's', found 't'"
    );
    assert_eq!(parse("").err().unwrap(), "Expected 's', found EOF");
    assert_eq!(
        parse("service cloud.firestore [").err().unwrap(),
        "Expected '{', found '['"
    );
    assert_eq!(
        parse("service { }").err().unwrap(),
        "Expected identifier"
    );
    assert_eq!(
        parse("service s { match /a { allow : if true; } }").err().unwrap(),
        "Expected identifier"
    );
    assert_eq!(
        parse("service s { match /a { allow read if true; } }").err().unwrap(),
        "Expected ':', found 'i'"
    );
    assert_eq!(
        parse("service s { match /a { deny read; } }").err().unwrap(),
        "Unexpected token in match block"
    );
    assert_eq!(
        parse("service s { match /a { allow read: if true } }").err().unwrap(),
        "Expected ';', found EOF"
    );
    assert_eq!(
        parse("service s { match /a { }").err().unwrap(),
        "Expected '}', found EOF"
    );
}

#[test]
fn parser_takes_any_service_name() {
    let rules = parse("service my_app.v { match /a { } } trailing").unwrap();
    assert_eq!(rules.service_name, "my_app.v");
    assert_eq!(rules.match_block.path_pattern, "/a");
}

fn allowed(text: &str, path: &str, operation: &str) -> bool {
    let mut engine = RulesEngine::new();
    engine.load_rules(text).unwrap();
    engine.evaluate(path, operation, &HashMap::new())
}

#[test]
fn evaluation_follows_the_blocks() {
    let base = "/databases/(default)/documents";
    assert!(allowed(USERS, &format!("{}/users/alice", base), "read"));
    assert!(allowed(USERS, &format!("{}/users/alice", base), "write"));
    assert!(!allowed(USERS, &format!("{}/users/alice", base), "delete"));
    assert!(!allowed(USERS, &format!("{}/users/alice/posts/1", base), "read"));
    assert!(!allowed(USERS, &format!("{}/users", base), "read"));
    assert!(!allowed(USERS, &format!("{}/posts/1", base), "read"));
    // {rest=**} takes the whole remainder
    assert!(allowed(USERS, &format!("{}/logs/a/b/c", base), "read"));
    // a condition other than `true` denies
    assert!(!allowed(USERS, &format!("{}/logs/a", base), "write"));
    // the pattern must match from the start
    assert!(!allowed(USERS, "/other/(default)/documents/users/alice", "read"));
    assert!(!allowed(USERS, "", "read"));
}

#[test]
fn evaluation_ignores_repeated_slashes() {
    let base = "/databases/(default)/documents";
    assert!(allowed(USERS, &format!("{}//users///alice/", base), "read"));
}

#[test]
fn match_all_allows_every_operation() {
    let text = "service s { match /a { allow match_all: if  true ; } }";
    assert!(allowed(text, "/a", "read"));
    assert!(allowed(text, "a", "anything"));
    assert!(!allowed(text, "/a/b", "read"));
    assert!(!allowed(text, "/b", "read"));
}

#[test]
fn engine_without_rules_denies() {
    let engine = RulesEngine::new();
    assert!(engine.is_empty());
    assert!(!engine.evaluate("/a", "read", &HashMap::new()));
    assert!(!engine.permits("/a", "read"));
}

#[test]
fn engine_keeps_its_rules_when_loading_fails() {
    let mut engine = RulesEngine::new();
    engine
        .load_rules("service s { match /a { allow read: if true; } }")
        .unwrap();
    assert!(!engine.is_empty());
    assert!(engine.load_rules("service s {").is_err());
    assert!(engine.permits("/a", "read"));
}

#[test]
fn consume_pattern_leaves_the_remainder() {
    let block = |pattern: &str| MatchBlock {
        path_pattern: pattern.to_string(),
        sub_matches: Vec::new(),
        allow_statements: Vec::new(),
    };
    assert_eq!(
        block("/databases/{database}/documents").consume_pattern("/databases/(default)/documents/users/a"),
        Some("users/a".to_string())
    );
    assert_eq!(block("/users/{u}").consume_pattern("users/a"), Some("".to_string()));
    assert_eq!(block("/users/{u}").consume_pattern("users/a//"), Some("".to_string()));
    assert_eq!(block("/users/{u}").consume_pattern("users"), None);
    assert_eq!(block("/users/{u}").consume_pattern("posts/a"), None);
    assert_eq!(block("/{all=**}").consume_pattern("a/b/c"), Some("".to_string()));
    // a pattern without segments leaves the path as it is
    assert_eq!(block("/").consume_pattern("/a/b"), Some("/a/b".to_string()));
    // the path must have as many segments as the pattern, even behind a `**`
    assert_eq!(block("/a/{x=**}/b/c").consume_pattern("/a/z"), None);
    // a literal segment in braces that do not close is a literal
    assert_eq!(block("/{a").consume_pattern("/{a"), Some("".to_string()));
    assert_eq!(block("/{a").consume_pattern("/b"), None);
}

#[test]
fn hand_built_rules_are_evaluated() {
    let rules = Ruleset {
        service_name: "s".to_string(),
        match_block: MatchBlock {
            path_pattern: "/docs".to_string(),
            sub_matches: vec![MatchBlock {
                path_pattern: "/{id}".to_string(),
                sub_matches: Vec::new(),
                allow_statements: vec![AllowStatement {
                    operations: vec!["read".to_string()],
                    condition: "  true\t".to_string(),
                }],
            }],
            allow_statements: vec![AllowStatement {
                operations: vec!["write".to_string()],
                condition: "false".to_string(),
            }],
        },
    };
    let context = HashMap::new();
    assert!(rules.is_allowed("/docs/1", "read", &context));
    assert!(!rules.is_allowed("/docs/1", "write", &context));
    assert!(!rules.is_allowed("/docs", "write", &context));
    assert!(rules.match_block.matches_recursive("docs/x", "read", &context));
    assert!(rules.match_block.allow_statements[0].permits("write") == false);
    assert!(rules.match_block.sub_matches[0].allow_statements[0].permits("read"));
}
