use firelocal_core::validation::{
    validate_data_size, validate_json, validate_path, validate_rules, RateLimiter, ValidationError,
};

#[test]
fn test_validate_path_valid() {
    assert!(validate_path("users/alice").is_ok());
    assert!(validate_path("users/alice/posts/post1").is_ok());
    assert!(validate_path("users-2024/alice_123").is_ok());
}

#[test]
fn test_validate_path_invalid() {
    assert!(validate_path("").is_err());
    assert!(validate_path("/users/alice").is_err());
    assert!(validate_path("users/alice/").is_err());
    assert!(validate_path("users//alice").is_err());
    assert!(validate_path("users/alice@domain").is_err());
}

#[test]
fn test_validate_path_too_long() {
    let long_path = "a/".repeat(600);
    assert!(validate_path(&long_path).is_err());
}

#[test]
fn test_validate_data_size() {
    assert!(validate_data_size(b"test").is_ok());
    assert!(validate_data_size(b"").is_err());
}

#[test]
fn test_validate_json_valid() {
    assert!(validate_json(br#"{"name":"Alice"}"#).is_ok());
    assert!(validate_json(br#"[1,2,3]"#).is_ok());
    assert!(validate_json(br#""string""#).is_ok());
}

#[test]
fn test_validate_json_invalid() {
    assert!(validate_json(b"not json").is_err());
    assert!(validate_json(b"{invalid}").is_err());
}

#[test]
fn test_validate_rules() {
    let valid_rules = r#"
            service cloud.firestore {
                match /databases/{database}/documents {
                    match /{document=**} {
                        allow read, write: if true;
                    }
                }
            }
        "#;
    assert!(validate_rules(valid_rules).is_ok());

    assert!(validate_rules("").is_err());
    assert!(validate_rules("invalid rules").is_err());
}

#[test]
fn validation_test_rate_limiter() {
    let mut limiter = RateLimiter::new(3, 1);

    // First 3 requests should succeed
    assert!(limiter.check().is_ok());
    assert!(limiter.check().is_ok());
    assert!(limiter.check().is_ok());

    // 4th request should fail
    assert!(limiter.check().is_err());
}

#[test]
fn path_errors_name_the_first_fault() {
    assert_eq!(validate_path(""), Err(ValidationError::EmptyPath));
    assert_eq!(validate_path("/a"), Err(ValidationError::SlashAtEdge));
    assert_eq!(validate_path("a/"), Err(ValidationError::SlashAtEdge));
    assert_eq!(validate_path("a//b"), Err(ValidationError::ConsecutiveSlashes));
    assert_eq!(
        validate_path("users/al ice"),
        Err(ValidationError::InvalidCharacter(' '))
    );
    assert_eq!(
        validate_path("a@b/c#d"),
        Err(ValidationError::InvalidCharacter('@'))
    );
    let too_long = "a".repeat(4097);
    assert_eq!(validate_path(&too_long), Err(ValidationError::PathTooLong));
    let longest = "a".repeat(4096);
    assert_eq!(validate_path(&longest), Ok(()));
}

#[test]
fn path_depth_limit_is_one_hundred_segments() {
    let hundred = vec!["a"; 100].join("/");
    assert_eq!(validate_path(&hundred), Ok(()));
    let more = vec!["a"; 101].join("/");
    assert_eq!(validate_path(&more), Err(ValidationError::PathTooDeep));
}

#[test]
fn path_may_hold_letters_of_any_script() {
    assert_eq!(validate_path("benutzer/jürgen"), Ok(()));
    assert_eq!(validate_path("用户/一"), Ok(()));
}

#[test]
fn data_size_limit_is_one_hundred_mebibytes() {
    assert_eq!(validate_data_size(b""), Err(ValidationError::EmptyData));
    let limit = vec![b'x'; 100 * 1024 * 1024];
    assert_eq!(validate_data_size(&limit), Ok(()));
    let over = vec![b'x'; 100 * 1024 * 1024 + 1];
    assert_eq!(validate_data_size(&over), Err(ValidationError::DataTooLarge));
}

#[test]
fn json_validation_tells_utf8_from_json() {
    assert_eq!(validate_json(&[0xFF, 0xFE]), Err(ValidationError::InvalidUtf8));
    assert_eq!(validate_json(b"{"), Err(ValidationError::InvalidJson));
    assert_eq!(validate_json(b"null"), Ok(()));
}

#[test]
fn rules_errors_name_the_first_fault() {
    assert_eq!(validate_rules(""), Err(ValidationError::EmptyRules));
    assert_eq!(validate_rules("service x {}"), Err(ValidationError::MissingService));
    let big = format!("service cloud.firestore {}", " ".repeat(1024 * 1024));
    assert_eq!(validate_rules(&big), Err(ValidationError::RulesTooLarge));
    assert_eq!(validate_rules("xservice cloud.firestorex"), Ok(()));
}

#[test]
fn rate_limiter_forgets_requests_outside_the_window() {
    let second: u64 = 1_000_000_000;
    let mut limiter = RateLimiter::new(2, 1);
    assert_eq!(limiter.check_at(10 * second), Ok(()));
    assert_eq!(limiter.check_at(10 * second + 1), Ok(()));
    assert_eq!(
        limiter.check_at(10 * second + 2),
        Err(ValidationError::RateLimitExceeded)
    );
    // exactly one window later the first request still counts
    assert_eq!(
        limiter.check_at(11 * second),
        Err(ValidationError::RateLimitExceeded)
    );
    // one nanosecond more and it is forgotten
    assert_eq!(limiter.check_at(11 * second + 1), Ok(()));
}

#[test]
fn validation_messages() {
    assert_eq!(ValidationError::EmptyPath.message(), "Path cannot be empty");
    assert_eq!(
        ValidationError::InvalidCharacter('@').message(),
        "Invalid character in path: '@'"
    );
}
