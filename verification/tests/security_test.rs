use firelocal_core::error::FireLocalError;
use firelocal_core::security::{
    create_default_security_auditor, InputSanitizer, SecurityAuditor, SecurityConfig,
    SecurityContext, SecurityRateLimiter,
};

#[test]
fn test_input_sanitizer_path() {
    // Valid path
    assert!(InputSanitizer::sanitize_path("users/alice", 32).is_ok());

    // Path traversal
    assert!(InputSanitizer::sanitize_path("../../../etc/passwd", 32).is_err());

    // Too deep
    let deep_path = "a/".repeat(40);
    assert!(InputSanitizer::sanitize_path(&deep_path, 32).is_err());

    // Invalid characters
    assert!(InputSanitizer::sanitize_path("users/alice@domain", 32).is_err());
}

#[test]
fn test_input_sanitizer_document() {
    // Valid document
    let valid_doc = br#"{"name": "Alice", "age": 30}"#;
    assert!(InputSanitizer::sanitize_document(valid_doc, 1024).is_ok());

    // Too large
    let large_doc = vec![b'x'; 1024 * 1024 + 1];
    assert!(InputSanitizer::sanitize_document(&large_doc, 1024 * 1024).is_err());

    // Null bytes
    let null_doc = b"test\x00data";
    assert!(InputSanitizer::sanitize_document(null_doc, 1024).is_err());
}

#[test]
fn test_security_context() {
    let anonymous = SecurityContext::anonymous();
    assert!(!anonymous.is_authenticated());

    let authenticated = SecurityContext::authenticated("user123", vec!["reader".to_string()]);
    assert!(authenticated.is_authenticated());
    assert!(authenticated.has_role("reader"));
    assert!(!authenticated.has_role("admin"));
}

#[test]
fn security_test_rate_limiter() {
    let mut limiter = SecurityRateLimiter::new(2, 1); // 2 requests per minute

    assert!(limiter.check_rate_limit("client1").is_ok());
    assert!(limiter.check_rate_limit("client1").is_ok());
    assert!(limiter.check_rate_limit("client1").is_err());
}

#[test]
fn test_security_auditor() {
    let mut auditor = create_default_security_auditor();
    let context = SecurityContext::anonymous();

    // Should succeed for anonymous read (in default config)
    assert!(auditor
        .pre_operation_check(&context, "read", "users/alice", None)
        .is_ok());

    // Should also succeed for anonymous write (authentication disabled by default)
    assert!(auditor
        .pre_operation_check(&context, "write", "users/alice", None)
        .is_ok());

    // Test with authentication enabled
    let mut auth_auditor = SecurityAuditor::new(SecurityConfig {
        authentication_enabled: true,
        ..Default::default()
    });

    // Should succeed for read
    assert!(auth_auditor
        .pre_operation_check(&context, "read", "users/alice", None)
        .is_ok());

    // Should fail for write when authentication is enabled
    assert!(auth_auditor
        .pre_operation_check(&context, "write", "users/alice", None)
        .is_err());
}

#[test]
fn sanitize_path_cuts_whitespace_and_slashes() {
    assert_eq!(
        InputSanitizer::sanitize_path("  /users/alice/  ", 32).unwrap(),
        "users/alice"
    );
    assert_eq!(
        InputSanitizer::sanitize_path("notes/a.b-c_d", 32).unwrap(),
        "notes/a.b-c_d"
    );
}

#[test]
fn sanitize_path_tells_security_from_validation() {
    assert!(matches!(
        InputSanitizer::sanitize_path("", 32),
        Err(FireLocalError::Validation(_))
    ));
    assert!(matches!(
        InputSanitizer::sanitize_path("a/../b", 32),
        Err(FireLocalError::Security(_))
    ));
    assert!(matches!(
        InputSanitizer::sanitize_path("a\\b", 32),
        Err(FireLocalError::Security(_))
    ));
    assert!(matches!(
        InputSanitizer::sanitize_path("a\0b", 32),
        Err(FireLocalError::Security(_))
    ));
    assert!(matches!(
        InputSanitizer::sanitize_path("a//b", 32),
        Err(FireLocalError::Validation(_))
    ));
    assert!(matches!(
        InputSanitizer::sanitize_path("///", 32),
        Err(FireLocalError::Validation(_))
    ));
    assert!(matches!(
        InputSanitizer::sanitize_path("a/b/c", 2),
        Err(FireLocalError::Validation(_))
    ));
    assert!(InputSanitizer::sanitize_path("a/b", 2).is_ok());
    let long = "a".repeat(4097);
    assert!(matches!(
        InputSanitizer::sanitize_path(&long, 32),
        Err(FireLocalError::Validation(_))
    ));
}

#[test]
fn sanitize_document_hands_back_a_copy() {
    let doc = br#"{"a":1}"#;
    assert_eq!(InputSanitizer::sanitize_document(doc, 7).unwrap(), doc.to_vec());
    assert!(matches!(
        InputSanitizer::sanitize_document(doc, 6),
        Err(FireLocalError::Validation(_))
    ));
    assert!(matches!(
        InputSanitizer::sanitize_document(b"", 6),
        Err(FireLocalError::Validation(_))
    ));
    assert!(matches!(
        InputSanitizer::sanitize_document(b"a\0", 6),
        Err(FireLocalError::Security(_))
    ));
    assert!(matches!(
        InputSanitizer::sanitize_document(&[0xFF], 6),
        Err(FireLocalError::Validation(_))
    ));
}

#[test]
fn json_with_prototype_names_is_refused() {
    assert!(InputSanitizer::validate_json(br#"{"a":1}"#).is_ok());
    assert!(matches!(
        InputSanitizer::validate_json(br#"{"__proto__":1}"#),
        Err(FireLocalError::Security(_))
    ));
    assert!(matches!(
        InputSanitizer::validate_json(br#"{"constructor":1}"#),
        Err(FireLocalError::Security(_))
    ));
    assert!(matches!(
        InputSanitizer::validate_json(b"{"),
        Err(FireLocalError::Validation(_))
    ));
    assert!(matches!(
        InputSanitizer::validate_json(&[0xC0]),
        Err(FireLocalError::Validation(_))
    ));
}

#[test]
fn rate_limit_counts_each_client_and_forgets_old_requests() {
    let minute: u64 = 60_000_000_000;
    let mut limiter = SecurityRateLimiter::new(1, 1);
    assert!(limiter.check_rate_limit_at("a", 5).is_ok());
    assert!(matches!(
        limiter.check_rate_limit_at("a", 6),
        Err(FireLocalError::RateLimitExceeded(_))
    ));
    assert!(limiter.check_rate_limit_at("b", 6).is_ok());
    // one window later the request of `a` is forgotten
    assert!(limiter.check_rate_limit_at("a", 5 + minute).is_ok());
}

#[test]
fn blocked_address_is_denied_before_anything_else() {
    let mut auditor = SecurityAuditor::new(SecurityConfig {
        blocked_ips: vec!["10.0.0.1".to_string()],
        ..Default::default()
    });
    let mut context = SecurityContext::anonymous();
    context.client_ip = Some("10.0.0.1".to_string());
    assert!(matches!(
        auditor.pre_operation_check(&context, "read", "users/a", None),
        Err(FireLocalError::PermissionDenied(_))
    ));
    context.client_ip = Some("10.0.0.2".to_string());
    assert!(auditor
        .pre_operation_check(&context, "read", "users/a", Some(br#"{"a":1}"#))
        .is_ok());
    assert!(matches!(
        auditor.pre_operation_check(&context, "read", "users/a", Some(b"{")),
        Err(FireLocalError::Validation(_))
    ));
    assert!(matches!(
        auditor.pre_operation_check(&context, "read", "a/../b", None),
        Err(FireLocalError::Security(_))
    ));
}

#[test]
fn auditor_applies_the_rate_limit() {
    let mut auditor = SecurityAuditor::new(SecurityConfig {
        max_requests_per_minute: 1,
        ..Default::default()
    });
    let context = SecurityContext::anonymous();
    assert!(auditor
        .pre_operation_check_at(&context, "read", "users/a", None, 100)
        .is_ok());
    assert!(matches!(
        auditor.pre_operation_check_at(&context, "read", "users/a", None, 101),
        Err(FireLocalError::RateLimitExceeded(_))
    ));
}

#[test]
fn permissions_go_by_role() {
    let auditor = create_default_security_auditor();
    let reader = SecurityContext::authenticated("r", vec!["reader".to_string()]);
    let writer = SecurityContext::authenticated("w", vec!["writer".to_string()]);
    let admin = SecurityContext::authenticated("a", vec!["admin".to_string()]);
    let nobody = SecurityContext::anonymous();
    assert!(auditor.check_permission(&reader, "read", "x").is_ok());
    assert!(auditor.check_permission(&reader, "write", "x").is_err());
    assert!(auditor.check_permission(&writer, "read", "x").is_ok());
    assert!(auditor.check_permission(&writer, "write", "x").is_ok());
    assert!(auditor.check_permission(&writer, "delete", "x").is_ok());
    assert!(auditor.check_permission(&writer, "admin", "x").is_err());
    assert!(auditor.check_permission(&admin, "anything", "x").is_ok());
    assert!(matches!(
        auditor.check_permission(&nobody, "read", "x"),
        Err(FireLocalError::PermissionDenied(_))
    ));
    let open = SecurityAuditor::new(SecurityConfig {
        authorization_enabled: false,
        ..Default::default()
    });
    assert!(open.check_permission(&nobody, "write", "x").is_ok());
}

#[test]
fn a_payload_has_to_read_as_a_json_value() {
    assert!(InputSanitizer::validate_json(b"{\"a\":[1,2,{\"b\":null}]}").is_ok());
    // a number that no JSON value holds
    assert!(InputSanitizer::validate_json(b"1e999").is_err());
    assert!(InputSanitizer::validate_json(b"{\"a\":1,}").is_err());
    assert!(InputSanitizer::validate_json(b"").is_err());
}
