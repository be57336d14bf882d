//! Measurements of the store's operations and of its health, and the
//! configuration of logging.

use crate::store::io::now_nanos;
use crate::text::{lowercase, str_eq, to_lowercase};
use vstd::prelude::*;

verus! {

/// The largest duration that is measured, in nanoseconds.
pub const MAX_DURATION: u64 = 18446744073709551615;

/// What the operations of one kind have cost so far. Durations are in
/// nanoseconds.
#[derive(Debug, Clone, Copy)]
pub struct PerformanceMetrics {
    pub operation_count: u64,
    pub total_duration: u64,
    pub avg_duration: u64,
    pub min_duration: u64,
    pub max_duration: u64,
    pub errors: u64,
}

/// `a + b`, or the largest `u64` where the sum is greater.
pub open spec fn capped_sum(a: u64, b: u64) -> u64 {
    if a + b > u64::MAX {
        u64::MAX
    } else {
        (a + b) as u64
    }
}

/// The metrics after one more operation that took `duration` and succeeded
/// or not: the counts and the total grow, stopping at the largest `u64`;
/// the shortest and the longest duration take the new one in; the average
/// is the total divided by the count.
pub open spec fn recorded(m: PerformanceMetrics, duration: u64, success: bool) -> PerformanceMetrics {
    let count = capped_sum(m.operation_count, 1);
    let total = capped_sum(m.total_duration, duration);
    PerformanceMetrics {
        operation_count: count,
        total_duration: total,
        avg_duration: (total / count) as u64,
        min_duration: if duration < m.min_duration {
            duration
        } else {
            m.min_duration
        },
        max_duration: if duration > m.max_duration {
            duration
        } else {
            m.max_duration
        },
        errors: if success {
            m.errors
        } else {
            capped_sum(m.errors, 1)
        },
    }
}

impl PerformanceMetrics {
    /// Metrics of nothing: no operation, no duration, and the shortest
    /// duration at its largest value.
    pub fn new() -> (r: Self)
        ensures
            r == (PerformanceMetrics {
                operation_count: 0,
                total_duration: 0,
                avg_duration: 0,
                min_duration: MAX_DURATION,
                max_duration: 0,
                errors: 0,
            }),
    {
        PerformanceMetrics {
            operation_count: 0,
            total_duration: 0,
            avg_duration: 0,
            min_duration: MAX_DURATION,
            max_duration: 0,
            errors: 0,
        }
    }

    /// Takes in one more operation that took `duration` nanoseconds.
    pub fn record_operation(&mut self, duration: u64, success: bool)
        ensures
            *final(self) == recorded(*old(self), duration, success),
    {
        self.operation_count = self.operation_count.saturating_add(1);
        self.total_duration = self.total_duration.saturating_add(duration);
        if duration < self.min_duration {
            self.min_duration = duration;
        }
        if duration > self.max_duration {
            self.max_duration = duration;
        }
        if !success {
            self.errors = self.errors.saturating_add(1);
        }
        self.avg_duration = self.total_duration / self.operation_count;
    }

    /// The number of operations that succeeded.
    pub fn successes(&self) -> (r: u64)
        ensures
            r == if self.operation_count >= self.errors {
                (self.operation_count - self.errors) as u64
            } else {
                0u64
            },
    {
        if self.operation_count >= self.errors {
            self.operation_count - self.errors
        } else {
            0
        }
    }
}

impl Default for PerformanceMetrics {
    fn default() -> (r: Self)
        ensures
            r.operation_count == 0 && r.errors == 0,
    {
        PerformanceMetrics::new()
    }
}

/// Whether the database and the storage are in order, when that was last
/// looked at (in nanoseconds since the Unix epoch), and for how long the
/// store has been up.
#[derive(Debug, Clone, Copy)]
pub struct HealthStatus {
    pub database_healthy: bool,
    pub storage_healthy: bool,
    pub last_check: u64,
    pub uptime: u64,
    pub metrics: PerformanceMetrics,
}

impl HealthStatus {
    /// A status that says that everything is in order, looked at now.
    pub fn healthy() -> (r: Self)
        ensures
            r.database_healthy,
            r.storage_healthy,
            r.uptime == 0,
            r.metrics.operation_count == 0,
    {
        HealthStatus {
            database_healthy: true,
            storage_healthy: true,
            last_check: now_nanos(),
            uptime: 0,
            metrics: PerformanceMetrics::new(),
        }
    }

    /// Whether the database and the storage are both in order.
    pub fn is_healthy(&self) -> (r: bool)
        ensures
            r == (self.database_healthy && self.storage_healthy),
    {
        self.database_healthy && self.storage_healthy
    }

    /// Notes that the status was looked at now.
    pub fn update_check(&mut self)
        ensures
            final(self).database_healthy == old(self).database_healthy,
            final(self).storage_healthy == old(self).storage_healthy,
            final(self).uptime == old(self).uptime,
            final(self).metrics == old(self).metrics,
    {
        self.last_check = now_nanos();
    }
}

/// How much is logged, and where to.
#[derive(Debug, Clone)]
pub struct LoggingConfig {
    pub level: String,
    pub file_path: Option<String>,
    pub max_file_size: u64,
    pub max_files: u32,
}

impl Default for LoggingConfig {
    fn default() -> (r: Self)
        ensures
            r.level@ == "info"@,
            r.file_path is None,
            r.max_file_size == 10485760,
            r.max_files == 5,
    {
        LoggingConfig { level: "info".to_owned(), file_path: None, max_file_size: 10485760, max_files: 5 }
    }
}

/// The levels of logging.
#[derive(Debug, Clone, Copy, PartialEq, Eq, Structural)]
pub enum LogLevel {
    Error,
    Warn,
    Info,
    Debug,
    Trace,
}

/// The level that a name stands for, whatever the case of its letters:
/// `Info` for a name that is none of the five.
pub open spec fn level_of(name: Seq<char>) -> LogLevel {
    let lower = lowercase(name);
    if lower == "error"@ {
        LogLevel::Error
    } else if lower == "warn"@ {
        LogLevel::Warn
    } else if lower == "info"@ {
        LogLevel::Info
    } else if lower == "debug"@ {
        LogLevel::Debug
    } else if lower == "trace"@ {
        LogLevel::Trace
    } else {
        LogLevel::Info
    }
}

/// The level that a configuration asks for.
pub fn log_level(config: &LoggingConfig) -> (r: LogLevel)
    ensures
        r == level_of(config.level@),
{
    let lower = to_lowercase(config.level.as_str());
    if str_eq(lower.as_str(), "error") {
        LogLevel::Error
    } else if str_eq(lower.as_str(), "warn") {
        LogLevel::Warn
    } else if str_eq(lower.as_str(), "info") {
        LogLevel::Info
    } else if str_eq(lower.as_str(), "debug") {
        LogLevel::Debug
    } else if str_eq(lower.as_str(), "trace") {
        LogLevel::Trace
    } else {
        LogLevel::Info
    }
}

} // verus!
