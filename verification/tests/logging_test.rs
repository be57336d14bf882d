use firelocal_core::logging::{
    log_level, HealthStatus, LogLevel, LoggingConfig, PerformanceMetrics,
};
use std::time::Duration;

fn nanos(d: Duration) -> u64 {
    d.as_nanos() as u64
}

#[test]
fn test_performance_metrics() {
    let mut metrics = PerformanceMetrics::new();

    metrics.record_operation(nanos(Duration::from_millis(100)), true);
    metrics.record_operation(nanos(Duration::from_millis(200)), true);
    metrics.record_operation(nanos(Duration::from_millis(50)), false);

    assert_eq!(metrics.operation_count, 3);
    assert_eq!(metrics.errors, 1);
    let success_rate = metrics.successes() as f64 / metrics.operation_count as f64;
    assert!(success_rate > 0.5);
    assert!(success_rate < 1.0);
}

#[test]
fn test_health_status() {
    let mut status = HealthStatus::healthy();
    assert!(status.is_healthy());

    status.database_healthy = false;
    assert!(!status.is_healthy());
}

#[test]
fn test_logging_config_default() {
    let config = LoggingConfig::default();
    assert_eq!(config.level, "info");
    assert_eq!(config.max_file_size, 10 * 1024 * 1024);
    assert_eq!(config.max_files, 5);
}

#[test]
fn metrics_track_total_average_and_extremes() {
    let mut metrics = PerformanceMetrics::new();
    assert_eq!(metrics.min_duration, u64::MAX);
    metrics.record_operation(100, true);
    metrics.record_operation(200, true);
    metrics.record_operation(51, false);
    assert_eq!(metrics.total_duration, 351);
    assert_eq!(metrics.avg_duration, 117);
    assert_eq!(metrics.min_duration, 51);
    assert_eq!(metrics.max_duration, 200);
    assert_eq!(metrics.successes(), 2);
}

#[test]
fn metrics_stop_at_the_largest_value() {
    let mut metrics = PerformanceMetrics::new();
    metrics.record_operation(u64::MAX, true);
    metrics.record_operation(5, true);
    assert_eq!(metrics.total_duration, u64::MAX);
    assert_eq!(metrics.operation_count, 2);
}

#[test]
fn log_level_ignores_case_and_defaults_to_info() {
    let mut config = LoggingConfig::default();
    assert_eq!(log_level(&config), LogLevel::Info);
    config.level = "ERROR".to_string();
    assert_eq!(log_level(&config), LogLevel::Error);
    config.level = "Warn".to_string();
    assert_eq!(log_level(&config), LogLevel::Warn);
    config.level = "debug".to_string();
    assert_eq!(log_level(&config), LogLevel::Debug);
    config.level = "trace".to_string();
    assert_eq!(log_level(&config), LogLevel::Trace);
    config.level = "loud".to_string();
    assert_eq!(log_level(&config), LogLevel::Info);
}

#[test]
fn update_check_keeps_the_status() {
    let mut status = HealthStatus::healthy();
    status.storage_healthy = false;
    status.update_check();
    assert!(status.database_healthy);
    assert!(!status.storage_healthy);
}
