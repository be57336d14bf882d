use firelocal_core::error::{
    get_recovery_strategy, retry_step, ErrorContext, ErrorKind, FireLocalError, RecoveryStrategy,
    RetryStep,
};
use firelocal_core::store::io::IoErrorKind;
use std::io;

#[test]
fn test_error_context() {
    let error = FireLocalError::Validation("Invalid path".to_string());
    let context = ErrorContext::new("put")
        .with_path("users/invalid")
        .with_detail("contains special characters")
        .build(error);

    assert!(matches!(context, FireLocalError::Validation(_)));
    assert!(context.to_string().contains("put"));
    assert!(context.to_string().contains("users/invalid"));
}

#[test]
fn test_error_conversions() {
    let io_error = io::Error::new(io::ErrorKind::NotFound, "file not found");
    let firelocal_error: FireLocalError = io_error.into();

    assert!(matches!(firelocal_error, FireLocalError::Io(_)));
}

#[test]
fn test_recovery_strategy() {
    let io_error = FireLocalError::Io("disk error".to_string());
    let strategy = get_recovery_strategy(&io_error);

    match strategy {
        RecoveryStrategy::Retry {
            max_attempts,
            delay_ms,
        } => {
            assert_eq!(max_attempts, 3);
            assert_eq!(delay_ms, 100);
        }
        _ => panic!("Expected retry strategy"),
    }

    let validation_error = FireLocalError::Validation("invalid data".to_string());
    let strategy = get_recovery_strategy(&validation_error);

    assert!(matches!(strategy, RecoveryStrategy::Abort));
}

#[test]
fn error_text_has_label_and_message() {
    let e = FireLocalError::NotFound("users/a".to_string());
    assert_eq!(e.to_string(), "Not Found: users/a");
    assert_eq!(e.error_kind(), ErrorKind::NotFound);
    let e = FireLocalError::Generic("boom".to_string());
    assert_eq!(e.to_string(), "Error: boom");
}

#[test]
fn context_message_is_exact() {
    let e = ErrorContext::new("put")
        .with_path("users/a")
        .with_detail("first")
        .with_detail("second")
        .build(FireLocalError::Io("disk".to_string()));
    assert_eq!(
        e.message_text(),
        "put: I/O Error: disk (path: users/a) - first, second"
    );
    let bare = ErrorContext::new("get").build(FireLocalError::Generic("x".to_string()));
    assert_eq!(bare.message_text(), "get: Error: x");
}

#[test]
fn recovery_strategy_for_each_kind() {
    let network = get_recovery_strategy(&FireLocalError::Network("n".to_string()));
    assert!(matches!(
        network,
        RecoveryStrategy::Retry {
            max_attempts: 5,
            delay_ms: 1000
        }
    ));
    let limit = get_recovery_strategy(&FireLocalError::RateLimitExceeded("n".to_string()));
    assert!(matches!(
        limit,
        RecoveryStrategy::Retry {
            max_attempts: 2,
            delay_ms: 5000
        }
    ));
    assert!(matches!(
        get_recovery_strategy(&FireLocalError::NotFound("n".to_string())),
        RecoveryStrategy::Skip
    ));
    assert!(matches!(
        get_recovery_strategy(&FireLocalError::Corruption("n".to_string())),
        RecoveryStrategy::Abort
    ));
    assert!(matches!(
        get_recovery_strategy(&FireLocalError::PermissionDenied("n".to_string())),
        RecoveryStrategy::Abort
    ));
    assert!(matches!(
        get_recovery_strategy(&FireLocalError::Storage("n".to_string())),
        RecoveryStrategy::Retry {
            max_attempts: 3,
            delay_ms: 100
        }
    ));
}

#[test]
fn retry_step_doubles_the_delay_until_attempts_run_out() {
    assert_eq!(
        retry_step(1, 3, 10),
        RetryStep::Wait {
            wait_ms: 10,
            next_delay_ms: 20
        }
    );
    assert_eq!(
        retry_step(2, 3, 20),
        RetryStep::Wait {
            wait_ms: 20,
            next_delay_ms: 40
        }
    );
    assert_eq!(retry_step(3, 3, 40), RetryStep::GiveUp);
    assert_eq!(
        retry_step(1, 2, u64::MAX),
        RetryStep::Wait {
            wait_ms: u64::MAX,
            next_delay_ms: u64::MAX
        }
    );
}

#[test]
fn json_error_becomes_serialization_error() {
    let err = serde_json::from_str::<u64>("nope").unwrap_err();
    let e: FireLocalError = err.into();
    assert!(matches!(e, FireLocalError::Serialization(_)));
    assert!(e.message_text().starts_with("JSON error: "));
}

#[test]
fn each_kind_of_error_has_its_kind_of_io_failure() {
    let m = || "m".to_string();
    assert_eq!(FireLocalError::Io(m()).io_kind(), IoErrorKind::Other);
    assert_eq!(FireLocalError::NotFound(m()).io_kind(), IoErrorKind::NotFound);
    assert_eq!(
        FireLocalError::PermissionDenied(m()).io_kind(),
        IoErrorKind::PermissionDenied
    );
    assert_eq!(
        FireLocalError::Validation(m()).io_kind(),
        IoErrorKind::InvalidInput
    );
    assert_eq!(
        FireLocalError::Corruption(m()).io_kind(),
        IoErrorKind::InvalidData
    );
    assert_eq!(
        FireLocalError::RateLimitExceeded(m()).io_kind(),
        IoErrorKind::WouldBlock
    );
    assert_eq!(
        FireLocalError::Network(m()).io_kind(),
        IoErrorKind::ConnectionAborted
    );
    assert_eq!(FireLocalError::Storage(m()).io_kind(), IoErrorKind::Other);
    assert_eq!(FireLocalError::Transaction(m()).io_kind(), IoErrorKind::Other);
    assert_eq!(
        FireLocalError::Security(m()).io_kind(),
        IoErrorKind::PermissionDenied
    );
    assert_eq!(
        FireLocalError::Configuration(m()).io_kind(),
        IoErrorKind::InvalidInput
    );
    assert_eq!(
        FireLocalError::Serialization(m()).io_kind(),
        IoErrorKind::InvalidData
    );
    assert_eq!(FireLocalError::Generic(m()).io_kind(), IoErrorKind::Other);
}
