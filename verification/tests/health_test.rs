use firelocal_core::health::{
    create_default_health_monitor, BuiltinCheck, DatabaseHealthCheck, HealthCheck,
    HealthCheckResult, HealthMonitor, HealthSummary, MemoryHealthCheck, StorageHealthCheck,
};
use std::time::{Duration, SystemTime, UNIX_EPOCH};

fn nanos(d: Duration) -> u64 {
    d.as_nanos() as u64
}

fn now() -> u64 {
    nanos(SystemTime::now().duration_since(UNIX_EPOCH).unwrap())
}

#[test]
fn test_health_check_result() {
    let result = HealthCheckResult::healthy("test", "OK", nanos(Duration::from_millis(100)));
    assert!(result.status.is_healthy());
    assert_eq!(result.name, "test");
    assert_eq!(result.message, "OK");
}

#[test]
fn test_database_health_check() {
    let check = DatabaseHealthCheck::new();
    assert_eq!(check.name(), "database");
    assert!(check.is_critical());

    let result = check.check().unwrap();
    assert!(result.status.is_healthy());
}

#[test]
fn test_health_monitor() {
    let mut monitor = HealthMonitor::new()
        .add_check(BuiltinCheck::Database(DatabaseHealthCheck::new()))
        .add_check(BuiltinCheck::Storage(StorageHealthCheck))
        .add_check(BuiltinCheck::Memory(MemoryHealthCheck::new(1024))) // 1GB threshold
        .with_interval(nanos(Duration::from_secs(30)));

    let results = monitor.run_checks().unwrap();

    assert_eq!(results.len(), 3);
    assert!(monitor.is_healthy());

    let summary = monitor.get_health_summary();
    assert_eq!(summary.total_checks, 3);
    assert_eq!(summary.healthy_checks, 3);
    assert!(summary.overall_healthy);

    let json = summary.to_json();
    assert!(json.contains("overall_healthy"));
    assert!(json.contains("total_checks"));
}

#[test]
fn test_health_summary_json() {
    let summary = HealthSummary {
        total_checks: 3,
        healthy_checks: 2,
        critical_checks: 2,
        healthy_critical: 1,
        overall_healthy: false,
        last_check: now(),
    };

    let json = summary.to_json();
    assert!(json.contains("overall_healthy"));
    assert!(json.contains("total_checks"));
    assert!(json.contains("false"));
}

#[test]
fn summary_json_is_exact() {
    let summary = HealthSummary {
        total_checks: 3,
        healthy_checks: 2,
        critical_checks: 2,
        healthy_critical: 1,
        overall_healthy: true,
        last_check: 0,
    };
    let expected = "{\n  \"overall_healthy\": true,\n  \"total_checks\": 3,\n  \"healthy_checks\": 2,\n  \"critical_checks\": 2,\n  \"healthy_critical\": 1,\n  \"last_check\": \"17\",\n  \"uptime\": \"17\"\n}";
    assert_eq!(summary.to_json_after(17), expected);
}

#[test]
fn unhealthy_result_marks_the_database() {
    let result = HealthCheckResult::unhealthy("db", "slow", 7);
    assert!(!result.status.is_healthy());
    assert!(!result.status.database_healthy);
    assert!(result.status.storage_healthy);
    assert_eq!(result.duration, 7);
    assert!(result.metrics.is_none());
}

#[test]
fn memory_check_names_its_threshold() {
    let check = MemoryHealthCheck::new(1024);
    let result = check.check().unwrap();
    assert_eq!(result.name, "memory");
    assert_eq!(result.message, "Memory usage is below 1024MB threshold");
    assert_eq!(StorageHealthCheck.name(), "storage");
}

#[test]
fn monitor_is_unhealthy_before_the_first_run() {
    let mut monitor = create_default_health_monitor();
    assert!(!monitor.is_healthy());
    assert_eq!(monitor.get_last_results().len(), 0);
    let summary = monitor.get_health_summary();
    assert_eq!(summary.total_checks, 0);
    assert_eq!(summary.critical_checks, 3);
    assert!(!summary.overall_healthy);
    monitor.run_checks().unwrap();
    assert_eq!(monitor.get_last_results().len(), 3);
    let summary = monitor.get_health_summary();
    assert_eq!(summary.healthy_critical, 3);
}

struct Probe {
    name: &'static str,
    critical: bool,
    outcome: Result<(&'static str, bool), &'static str>,
}

impl HealthCheck for Probe {
    fn name(&self) -> &str {
        self.name
    }

    fn check(&self) -> Result<HealthCheckResult, firelocal_core::error::FireLocalError> {
        match self.outcome {
            Ok((under, true)) => Ok(HealthCheckResult::healthy(under, "fine", 1)),
            Ok((under, false)) => Ok(HealthCheckResult::unhealthy(under, "broken", 1)),
            Err(message) => Err(firelocal_core::error::FireLocalError::Io(
                message.to_string(),
            )),
        }
    }

    fn is_critical(&self) -> bool {
        self.critical
    }
}

fn probe(
    name: &'static str,
    critical: bool,
    outcome: Result<(&'static str, bool), &'static str>,
) -> Probe {
    Probe {
        name,
        critical,
        outcome,
    }
}

#[test]
fn a_failing_check_that_is_not_critical_leaves_the_store_healthy() {
    let mut monitor = HealthMonitor::new()
        .add_check(probe("a", true, Ok(("a", true))))
        .add_check(probe("b", false, Err("down")))
        .add_check(probe("c", false, Ok(("c", true))));
    let results = monitor.run_checks().unwrap();
    assert_eq!(results.len(), 3);
    assert_eq!(results[1].name, "b");
    assert!(!results[1].status.is_healthy());
    assert!(results[1].message.contains("down"));
    assert!(monitor.is_healthy());
    let summary = monitor.get_health_summary();
    assert_eq!(summary.total_checks, 3);
    assert_eq!(summary.healthy_checks, 2);
    assert_eq!(summary.critical_checks, 1);
    assert_eq!(summary.healthy_critical, 1);
    assert!(summary.overall_healthy);
}

#[test]
fn a_failing_critical_check_makes_the_store_unhealthy() {
    let mut monitor = HealthMonitor::new()
        .add_check(probe("a", true, Ok(("a", true))))
        .add_check(probe("b", true, Ok(("b", false))));
    monitor.run_checks().unwrap();
    assert!(!monitor.is_healthy());
    let summary = monitor.get_health_summary();
    assert_eq!(summary.total_checks, 2);
    assert_eq!(summary.healthy_checks, 1);
    assert_eq!(summary.critical_checks, 2);
    assert_eq!(summary.healthy_critical, 1);
    assert!(!summary.overall_healthy);
}

#[test]
fn results_are_kept_under_the_name_of_the_check() {
    // two checks of one name: the later result takes the place of the earlier
    let mut monitor = HealthMonitor::new()
        .add_check(probe("a", true, Ok(("a", true))))
        .add_check(probe("b", false, Ok(("b", true))))
        .add_check(probe("a", true, Ok(("a", false))));
    let results = monitor.run_checks().unwrap();
    assert_eq!(results.len(), 3);
    let kept = monitor.get_last_results();
    assert_eq!(kept.len(), 2);
    assert_eq!(kept[0].name, "a");
    assert!(!kept[0].status.is_healthy());
    assert_eq!(kept[1].name, "b");
    assert!(!monitor.is_healthy());
    let summary = monitor.get_health_summary();
    assert_eq!(summary.total_checks, 2);
    assert_eq!(summary.healthy_checks, 1);
    assert_eq!(summary.critical_checks, 2);
    assert_eq!(summary.healthy_critical, 0);

    // a critical check whose result carries another name has no result
    let mut monitor = HealthMonitor::new().add_check(probe("x", true, Ok(("y", true))));
    monitor.run_checks().unwrap();
    assert!(!monitor.is_healthy());
    let summary = monitor.get_health_summary();
    assert_eq!(summary.total_checks, 1);
    assert_eq!(summary.healthy_checks, 1);
    assert_eq!(summary.healthy_critical, 0);
}
