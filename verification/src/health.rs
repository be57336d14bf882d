//! Health checks, and the monitor that runs them.

use crate::collections::StringMap;
use crate::error::{push_text, FireLocalError};
use crate::logging::{HealthStatus, PerformanceMetrics};
use crate::store::io::now_nanos;
use crate::text::{chars_of, decimal, decimal_chars, str_eq, string_of};
use vstd::prelude::*;

verus! {

/// One way of looking at the health of the store. A check has a name and
/// is critical or not; neither changes.
pub trait HealthCheck {
    /// The name of the check, as a plain value.
    open spec fn label(&self) -> Seq<char> {
        arbitrary()
    }

    /// Whether the store counts as unhealthy while this check fails.
    open spec fn critical(&self) -> bool {
        arbitrary()
    }

    /// The name of the check.
    fn name(&self) -> (r: &str)
        ensures
            r@ == self.label(),
    ;

    /// Looks at the store and says how it is.
    fn check(&self) -> Result<HealthCheckResult, FireLocalError>;

    /// Whether the store counts as unhealthy while this check fails.
    fn is_critical(&self) -> (r: bool)
        ensures
            r == self.critical(),
    ;
}

/// What a health check found, as plain values: the name of the check,
/// whether it found the database and the storage in order, its message and
/// the time that it took.
pub struct ResultModel {
    pub name: Seq<char>,
    pub sound: bool,
    pub message: Seq<char>,
    pub duration: u64,
}

/// What a health check found. The duration is in nanoseconds.
#[derive(Debug, Clone)]
pub struct HealthCheckResult {
    pub name: String,
    pub status: HealthStatus,
    pub message: String,
    pub duration: u64,
    pub metrics: Option<PerformanceMetrics>,
}

impl View for HealthCheckResult {
    type V = ResultModel;

    open spec fn view(&self) -> ResultModel {
        ResultModel {
            name: self.name@,
            sound: self.status.database_healthy && self.status.storage_healthy,
            message: self.message@,
            duration: self.duration,
        }
    }
}

impl HealthCheckResult {
    /// The result of a check that found everything in order.
    pub fn healthy(name: &str, message: &str, duration: u64) -> (r: Self)
        ensures
            r.name@ == name@,
            r.message@ == message@,
            r.duration == duration,
            r.status.database_healthy && r.status.storage_healthy,
            r.metrics is None,
    {
        HealthCheckResult {
            name: name.to_owned(),
            status: HealthStatus::healthy(),
            message: message.to_owned(),
            duration,
            metrics: None,
        }
    }

    /// The result of a check that found the database out of order.
    pub fn unhealthy(name: &str, message: &str, duration: u64) -> (r: Self)
        ensures
            r.name@ == name@,
            r.message@ == message@,
            r.duration == duration,
            !r.status.database_healthy && r.status.storage_healthy,
            r.metrics is None,
    {
        let mut status = HealthStatus::healthy();
        status.database_healthy = false;
        HealthCheckResult {
            name: name.to_owned(),
            status,
            message: message.to_owned(),
            duration,
            metrics: None,
        }
    }

    /// A copy of the result.
    pub fn duplicate(&self) -> (r: Self)
        ensures
            r.name@ == self.name@,
            r.message@ == self.message@,
            r.duration == self.duration,
            r.status == self.status,
            r.metrics == self.metrics,
            r@ == self@,
    {
        HealthCheckResult {
            name: self.name.clone(),
            status: self.status,
            message: self.message.clone(),
            duration: self.duration,
            metrics: self.metrics,
        }
    }
}

/// The time that has passed since `start`, a time in nanoseconds since the
/// Unix epoch; 0 where the clock has gone back.
fn elapsed_since(start: u64) -> (r: u64)
    ensures
        exists|now: u64| r == #[trigger] elapsed(start, now),
{
    let now = now_nanos();
    let r = if now >= start {
        now - start
    } else {
        0
    };
    assert(r == elapsed(start, now));
    r
}

/// The time from `start` to `now`, both in nanoseconds since the Unix
/// epoch; 0 where `now` is the earlier.
pub open spec fn elapsed(start: u64, now: u64) -> u64 {
    if now >= start {
        (now - start) as u64
    } else {
        0
    }
}

/// Five seconds, in nanoseconds: a database that answers more slowly is
/// unhealthy.
pub const SLOW_RESPONSE: u64 = 5000000000;

/// Looks at whether the database answers in time.
pub struct DatabaseHealthCheck;

impl Default for DatabaseHealthCheck {
    fn default() -> Self {
        DatabaseHealthCheck
    }
}

impl DatabaseHealthCheck {
    /// The check of the database.
    pub fn new() -> Self {
        DatabaseHealthCheck
    }
}

impl HealthCheck for DatabaseHealthCheck {
    open spec fn label(&self) -> Seq<char> {
        "database"@
    }

    open spec fn critical(&self) -> bool {
        true
    }

    fn name(&self) -> (r: &str) {
        "database"
    }

    fn check(&self) -> (r: Result<HealthCheckResult, FireLocalError>)
        ensures
            r matches Ok(result) && result.name@ == "database"@ && result.status.storage_healthy
                && (result.status.database_healthy <==> result.duration < SLOW_RESPONSE)
                && result.message@ == (if result.duration < SLOW_RESPONSE {
                "Database is responsive"@
            } else {
                "Database response time is too slow"@
            }),
    {
        let start = now_nanos();
        let duration = elapsed_since(start);
        if duration < SLOW_RESPONSE {
            Ok(HealthCheckResult::healthy("database", "Database is responsive", duration))
        } else {
            Ok(
                HealthCheckResult::unhealthy(
                    "database",
                    "Database response time is too slow",
                    duration,
                ),
            )
        }
    }

    fn is_critical(&self) -> (r: bool) {
        true
    }
}

/// Looks at whether the storage is there.
pub struct StorageHealthCheck;

impl HealthCheck for StorageHealthCheck {
    open spec fn label(&self) -> Seq<char> {
        "storage"@
    }

    open spec fn critical(&self) -> bool {
        true
    }

    fn name(&self) -> (r: &str) {
        "storage"
    }

    fn check(&self) -> (r: Result<HealthCheckResult, FireLocalError>)
        ensures
            r matches Ok(result) && result.name@ == "storage"@ && result.status.database_healthy
                && result.status.storage_healthy && result.message@ == "Storage is available"@,
    {
        let start = now_nanos();
        let duration = elapsed_since(start);
        Ok(HealthCheckResult::healthy("storage", "Storage is available", duration))
    }

    fn is_critical(&self) -> (r: bool) {
        true
    }
}

/// Looks at whether the memory in use is below a threshold.
pub struct MemoryHealthCheck {
    threshold_mb: usize,
}

impl MemoryHealthCheck {
    /// The threshold in MiB.
    pub closed spec fn threshold(&self) -> usize {
        self.threshold_mb
    }

    /// The check of the memory against a threshold of `threshold_mb` MiB.
    pub fn new(threshold_mb: usize) -> (r: Self)
        ensures
            r.threshold() == threshold_mb,
    {
        MemoryHealthCheck { threshold_mb }
    }
}

impl HealthCheck for MemoryHealthCheck {
    open spec fn label(&self) -> Seq<char> {
        "memory"@
    }

    open spec fn critical(&self) -> bool {
        true
    }

    fn name(&self) -> (r: &str) {
        "memory"
    }

    fn check(&self) -> (r: Result<HealthCheckResult, FireLocalError>)
        ensures
            r matches Ok(result) && result.name@ == "memory"@ && result.status.database_healthy
                && result.status.storage_healthy && result.message@ == "Memory usage is below "@
                + decimal(self.threshold() as nat) + "MB threshold"@,
    {
        let start = now_nanos();
        let duration = elapsed_since(start);
        let mut message = chars_of("Memory usage is below ");
        let mut digits = decimal_chars(self.threshold_mb as u64);
        message.append(&mut digits);
        push_text(&mut message, "MB threshold");
        let text = string_of(message.as_slice());
        Ok(HealthCheckResult::healthy("memory", text.as_str(), duration))
    }

    fn is_critical(&self) -> (r: bool) {
        true
    }
}

/// One of the checks that come with the store.
pub enum BuiltinCheck {
    Database(DatabaseHealthCheck),
    Storage(StorageHealthCheck),
    Memory(MemoryHealthCheck),
}

impl HealthCheck for BuiltinCheck {
    open spec fn label(&self) -> Seq<char> {
        match self {
            BuiltinCheck::Database(_) => "database"@,
            BuiltinCheck::Storage(_) => "storage"@,
            BuiltinCheck::Memory(_) => "memory"@,
        }
    }

    open spec fn critical(&self) -> bool {
        true
    }

    fn name(&self) -> (r: &str) {
        match self {
            BuiltinCheck::Database(c) => c.name(),
            BuiltinCheck::Storage(c) => c.name(),
            BuiltinCheck::Memory(c) => c.name(),
        }
    }

    fn check(&self) -> (r: Result<HealthCheckResult, FireLocalError>)
        ensures
            r matches Ok(result) && result.name@ == self.label() && match self {
                BuiltinCheck::Database(_) => (result@.sound <==> result.duration < SLOW_RESPONSE)
                    && result.message@ == (if result.duration < SLOW_RESPONSE {
                    "Database is responsive"@
                } else {
                    "Database response time is too slow"@
                }),
                BuiltinCheck::Storage(_) => result@.sound && result.message@
                    == "Storage is available"@,
                BuiltinCheck::Memory(c) => result@.sound && result.message@
                    == "Memory usage is below "@ + decimal(c.threshold() as nat)
                    + "MB threshold"@,
            },
    {
        match self {
            BuiltinCheck::Database(c) => c.check(),
            BuiltinCheck::Storage(c) => c.check(),
            BuiltinCheck::Memory(c) => c.check(),
        }
    }

    fn is_critical(&self) -> (r: bool) {
        true
    }
}

/// The results as plain values.
pub open spec fn result_models(results: Seq<HealthCheckResult>) -> Seq<ResultModel> {
    Seq::new(results.len(), |i: int| results[i]@)
}

/// The first of `results` that carries the name `name`.
pub open spec fn first_named(results: Seq<ResultModel>, name: Seq<char>) -> Option<ResultModel>
    decreases results.len(),
{
    if results.len() == 0 {
        None
    } else if results[0].name == name {
        Some(results[0])
    } else {
        first_named(results.drop_first(), name)
    }
}

/// Whether `results` let the check with the given name pass: a check that
/// is not critical always passes, a critical one where the first result
/// under its name found everything in order.
pub open spec fn passes(results: Seq<ResultModel>, check: (Seq<char>, bool)) -> bool {
    check.1 ==> (first_named(results, check.0) matches Some(r) && r.sound)
}

/// Whether the store is healthy: there are results, and they let every
/// check pass.
pub open spec fn all_pass(checks: Seq<(Seq<char>, bool)>, results: Seq<ResultModel>) -> bool {
    results.len() > 0 && forall|i: int|
        0 <= i < checks.len() ==> passes(results, #[trigger] checks[i])
}

/// The number of results that found everything in order.
pub open spec fn sound_count(results: Seq<ResultModel>) -> nat
    decreases results.len(),
{
    if results.len() == 0 {
        0
    } else {
        sound_count(results.drop_last()) + if results.last().sound {
            1nat
        } else {
            0nat
        }
    }
}

/// The number of checks that are critical.
pub open spec fn critical_count(checks: Seq<(Seq<char>, bool)>) -> nat
    decreases checks.len(),
{
    if checks.len() == 0 {
        0
    } else {
        critical_count(checks.drop_last()) + if checks.last().1 {
            1nat
        } else {
            0nat
        }
    }
}

/// Whether a critical check carries the name `name`.
pub open spec fn names_critical(checks: Seq<(Seq<char>, bool)>, name: Seq<char>) -> bool {
    exists|i: int| 0 <= i < checks.len() && (#[trigger] checks[i]).0 == name && checks[i].1
}

/// The number of results that found everything in order and carry the name
/// of a critical check.
pub open spec fn sound_critical_count(
    results: Seq<ResultModel>,
    checks: Seq<(Seq<char>, bool)>,
) -> nat
    decreases results.len(),
{
    if results.len() == 0 {
        0
    } else {
        sound_critical_count(results.drop_last(), checks) + if results.last().sound
            && names_critical(checks, results.last().name) {
            1nat
        } else {
            0nat
        }
    }
}

/// The list of results once `value` is noted under `key`: in the place of
/// the result that stood under the key, and at the end where none did.
pub open spec fn noted(
    list: Seq<(Seq<char>, ResultModel)>,
    key: Seq<char>,
    value: ResultModel,
) -> Seq<(Seq<char>, ResultModel)> {
    if exists|i: int| 0 <= i < list.len() && (#[trigger] list[i]).0 == key {
        list.update(choose|i: int| 0 <= i < list.len() && (#[trigger] list[i]).0 == key, (key, value))
    } else {
        list.push((key, value))
    }
}

/// The list of results after a run: the result of each check noted under
/// the name of the check, in the order of the checks.
pub open spec fn recorded(checks: Seq<(Seq<char>, bool)>, results: Seq<ResultModel>) -> Seq<
    (Seq<char>, ResultModel),
>
    decreases checks.len(),
{
    if checks.len() == 0 || results.len() != checks.len() {
        Seq::empty()
    } else {
        noted(recorded(checks.drop_last(), results.drop_last()), checks.last().0, results.last())
    }
}

/// Runs health checks and remembers what they found.
pub struct HealthMonitor<C: HealthCheck> {
    checks: Vec<C>,
    last_check: u64,
    results: StringMap<HealthCheckResult>,
    check_interval: u64,
}

/// What the monitor knows after its checks have run.
#[derive(Debug, Clone, Copy)]
pub struct HealthSummary {
    pub total_checks: usize,
    pub healthy_checks: usize,
    pub critical_checks: usize,
    pub healthy_critical: usize,
    pub overall_healthy: bool,
    pub last_check: u64,
}

impl<C: HealthCheck> HealthMonitor<C> {
    /// The monitor's invariant.
    pub closed spec fn wf(&self) -> bool {
        self.results.wf()
    }

    /// The checks of the monitor, each as its name and whether it is
    /// critical.
    pub closed spec fn checks(&self) -> Seq<(Seq<char>, bool)> {
        Seq::new(self.checks@.len(), |i: int| (self.checks@[i].label(), self.checks@[i].critical()))
    }

    /// The number of checks of the monitor.
    pub open spec fn check_count(&self) -> nat {
        self.checks().len()
    }

    /// The results of the last run, each under the name of its check.
    pub closed spec fn results(&self) -> Seq<(Seq<char>, ResultModel)> {
        Seq::new(
            self.results.order().len(),
            |i: int| (self.results.order()[i], self.results.items()[i]@),
        )
    }

    /// The results of the last run.
    pub open spec fn found(&self) -> Seq<ResultModel> {
        Seq::new(self.results().len(), |i: int| self.results()[i].1)
    }

    /// The time between two runs, in nanoseconds.
    pub closed spec fn interval(&self) -> u64 {
        self.check_interval
    }

    /// A monitor without checks that runs every 30 seconds.
    pub fn new() -> (r: Self)
        ensures
            r.wf(),
            r.checks() == Seq::<(Seq<char>, bool)>::empty(),
            r.results() == Seq::<(Seq<char>, ResultModel)>::empty(),
            r.interval() == 30000000000,
    {
        let r = HealthMonitor {
            checks: Vec::new(),
            last_check: now_nanos(),
            results: StringMap::new(),
            check_interval: 30000000000,
        };
        assert(r.checks() =~= Seq::<(Seq<char>, bool)>::empty());
        assert(r.results() =~= Seq::<(Seq<char>, ResultModel)>::empty());
        r
    }

    /// The monitor with `interval` nanoseconds between two runs.
    pub fn with_interval(self, interval: u64) -> (r: Self)
        requires
            self.wf(),
        ensures
            r.wf(),
            r.checks() == self.checks(),
            r.results() == self.results(),
            r.interval() == interval,
    {
        HealthMonitor {
            checks: self.checks,
            last_check: self.last_check,
            results: self.results,
            check_interval: interval,
        }
    }

    /// The monitor with one more check.
    pub fn add_check(self, check: C) -> (r: Self)
        requires
            self.wf(),
        ensures
            r.wf(),
            r.checks() == self.checks().push((check.label(), check.critical())),
            r.results() == self.results(),
            r.interval() == self.interval(),
    {
        let mut checks = self.checks;
        checks.push(check);
        let r = HealthMonitor {
            checks,
            last_check: self.last_check,
            results: self.results,
            check_interval: self.check_interval,
        };
        assert(r.checks() =~= self.checks().push((check.label(), check.critical())));
        r
    }

    /// Runs every check and remembers the results, each under the name of
    /// its check. A check that fails counts as one that found the database
    /// out of order. The results are returned in the order of the checks.
    pub fn run_checks(&mut self) -> (r: Result<Vec<HealthCheckResult>, FireLocalError>)
        requires
            old(self).wf(),
        ensures
            final(self).wf(),
            final(self).checks() == old(self).checks(),
            final(self).interval() == old(self).interval(),
            r matches Ok(results) && results@.len() == old(self).check_count() && final(self).results() == recorded(old(self).checks(), result_models(results@)),
    {
        let mut results: Vec<HealthCheckResult> = Vec::new();
        let mut by_name: StringMap<HealthCheckResult> = StringMap::new();
        let ghost checks = self.checks();
        let mut i: usize = 0;
        proof {
            assert(checks.take(0) =~= Seq::<(Seq<char>, bool)>::empty());
            assert(listed(by_name) =~= Seq::<(Seq<char>, ResultModel)>::empty());
        }
        while i < self.checks.len()
            invariant
                i <= self.checks.len(),
                by_name.wf(),
                results@.len() == i,
                checks == self.checks(),
                checks.len() == self.checks@.len(),
                *self == *old(self),
                listed(by_name) == recorded(checks.take(i as int), result_models(results@)),
            decreases self.checks.len() - i,
        {
            let start = now_nanos();
            let name = self.checks[i].name();
            let result = match self.checks[i].check() {
                Ok(result) => result,
                Err(e) => HealthCheckResult::unhealthy(
                    name,
                    e.to_string().as_str(),
                    elapsed_since(start),
                ),
            };
            let ghost models = result_models(results@);
            results.push(result.duplicate());
            proof {
                by_name.lemma_view();
                assert(result_models(results@).drop_last() =~= models);
                assert(result_models(results@).last() == result@);
                assert(checks.take(i + 1).drop_last() =~= checks.take(i as int));
                assert(checks.take(i + 1).last() == checks[i as int]);
                assert(checks[i as int].0 == name@);
            }
            let ghost held = by_name;
            let _ = by_name.insert(name.to_owned(), result);
            proof {
                by_name.lemma_view();
                held.lemma_view();
                lemma_noted(held, by_name, name@, result);
            }
            i = i + 1;
        }
        proof {
            assert(checks.take(self.checks@.len() as int) =~= checks);
        }
        self.results = by_name;
        self.last_check = now_nanos();
        Ok(results)
    }

    /// The results of the last run.
    pub fn get_last_results(&self) -> (r: Vec<HealthCheckResult>)
        requires
            self.wf(),
        ensures
            result_models(r@) == self.found(),
    {
        let n = self.results.len();
        let mut out: Vec<HealthCheckResult> = Vec::new();
        let mut i: usize = 0;
        while i < n
            invariant
                i <= n,
                self.results.wf(),
                n == self.results.order().len(),
                out@.len() == i,
                forall|k: int| 0 <= k < i ==> (#[trigger] out@[k])@ == self.results.items()[k]@,
            decreases n - i,
        {
            out.push(self.results.value_at(i).duplicate());
            i = i + 1;
        }
        proof {
            self.results.lemma_view();
            assert(result_models(out@) =~= self.found());
        }
        out
    }

    /// The first result of the last run that carries the name `name`.
    fn first_result(&self, name: &str) -> (r: Option<&HealthCheckResult>)
        requires
            self.wf(),
        ensures
            match r {
                Some(result) => first_named(self.found(), name@) == Some(result@),
                None => first_named(self.found(), name@) is None,
            },
    {
        let n = self.results.len();
        let ghost all = self.found();
        let mut i: usize = 0;
        proof {
            self.results.lemma_view();
            assert(all.skip(0) =~= all);
        }
        while i < n
            invariant
                i <= n,
                self.results.wf(),
                n == self.results.order().len(),
                all == self.found(),
                all.len() == n,
                first_named(all, name@) == first_named(all.skip(i as int), name@),
            decreases n - i,
        {
            let result = self.results.value_at(i);
            proof {
                assert(all.skip(i as int)[0] == all[i as int]);
                assert(all[i as int] == result@);
                assert(all.skip(i as int).drop_first() =~= all.skip(i + 1));
            }
            if str_eq(result.name.as_str(), name) {
                return Some(result);
            }
            i = i + 1;
        }
        None
    }

    /// Whether the store is healthy: the checks have run, and for every
    /// critical check the first result under its name found everything in
    /// order.
    pub fn is_healthy(&self) -> (r: bool)
        requires
            self.wf(),
        ensures
            r == all_pass(self.checks(), self.found()),
    {
        proof {
            self.results.lemma_view();
        }
        if self.results.len() == 0 {
            return false;
        }
        let mut i: usize = 0;
        while i < self.checks.len()
            invariant
                i <= self.checks.len(),
                self.wf(),
                self.found().len() > 0,
                forall|k: int| 0 <= k < i ==> passes(self.found(), #[trigger] self.checks()[k]),
            decreases self.checks.len() - i,
        {
            assert(self.checks()[i as int] == (
                self.checks@[i as int].label(),
                self.checks@[i as int].critical(),
            ));
            if self.checks[i].is_critical() {
                match self.first_result(self.checks[i].name()) {
                    Some(result) => {
                        if !result.status.is_healthy() {
                            return false;
                        }
                    },
                    None => {
                        return false;
                    },
                }
            }
            i = i + 1;
        }
        true
    }

    /// Whether a critical check carries the name `name`.
    fn is_critical_name(&self, name: &str) -> (r: bool)
        ensures
            r == names_critical(self.checks(), name@),
    {
        let mut j: usize = 0;
        while j < self.checks.len()
            invariant
                j <= self.checks.len(),
                forall|k: int|
                    0 <= k < j ==> !((#[trigger] self.checks()[k]).0 == name@
                        && self.checks()[k].1),
            decreases self.checks.len() - j,
        {
            assert(self.checks()[j as int] == (
                self.checks@[j as int].label(),
                self.checks@[j as int].critical(),
            ));
            if str_eq(self.checks[j].name(), name) && self.checks[j].is_critical() {
                return true;
            }
            j = j + 1;
        }
        false
    }

    /// Counts the results of the last run: how many there are, how many of
    /// them found everything in order, how many checks are critical, how
    /// many results that found everything in order carry the name of a
    /// critical check, and whether the store is healthy.
    pub fn get_health_summary(&self) -> (r: HealthSummary)
        requires
            self.wf(),
        ensures
            r.total_checks == self.found().len(),
            r.healthy_checks == sound_count(self.found()),
            r.critical_checks == critical_count(self.checks()),
            r.healthy_critical == sound_critical_count(self.found(), self.checks()),
            r.overall_healthy == all_pass(self.checks(), self.found()),
    {
        let n = self.results.len();
        let ghost all = self.found();
        let ghost checks = self.checks();
        let mut healthy: usize = 0;
        let mut healthy_critical: usize = 0;
        let mut i: usize = 0;
        proof {
            self.results.lemma_view();
            assert(all.take(0) =~= Seq::<ResultModel>::empty());
        }
        while i < n
            invariant
                i <= n,
                self.wf(),
                n == self.results.order().len(),
                all == self.found(),
                all.len() == n,
                checks == self.checks(),
                healthy <= i,
                healthy_critical <= i,
                healthy == sound_count(all.take(i as int)),
                healthy_critical == sound_critical_count(all.take(i as int), checks),
            decreases n - i,
        {
            let result = self.results.value_at(i);
            proof {
                self.results.lemma_view();
                assert(all.take(i + 1).drop_last() =~= all.take(i as int));
                assert(all.take(i + 1).last() == all[i as int]);
                assert(all[i as int] == result@);
            }
            if result.status.is_healthy() {
                healthy = healthy + 1;
                if self.is_critical_name(result.name.as_str()) {
                    healthy_critical = healthy_critical + 1;
                }
            }
            i = i + 1;
        }
        let mut critical_checks: usize = 0;
        let mut k: usize = 0;
        proof {
            assert(all.take(n as int) =~= all);
            assert(checks.take(0) =~= Seq::<(Seq<char>, bool)>::empty());
        }
        while k < self.checks.len()
            invariant
                k <= self.checks.len(),
                checks == self.checks(),
                checks.len() == self.checks@.len(),
                critical_checks <= k,
                critical_checks == critical_count(checks.take(k as int)),
            decreases self.checks.len() - k,
        {
            proof {
                assert(checks.take(k + 1).drop_last() =~= checks.take(k as int));
                assert(checks.take(k + 1).last() == checks[k as int]);
                assert(checks[k as int] == (
                    self.checks@[k as int].label(),
                    self.checks@[k as int].critical(),
                ));
            }
            if self.checks[k].is_critical() {
                critical_checks = critical_checks + 1;
            }
            k = k + 1;
        }
        proof {
            assert(checks.take(self.checks@.len() as int) =~= checks);
        }
        HealthSummary {
            total_checks: n,
            healthy_checks: healthy,
            critical_checks,
            healthy_critical,
            overall_healthy: self.is_healthy(),
            last_check: self.last_check,
        }
    }
}

/// The results that a map holds, each under its key, in the order of the
/// keys.
spec fn listed(map: StringMap<HealthCheckResult>) -> Seq<(Seq<char>, ResultModel)> {
    Seq::new(map.order().len(), |i: int| (map.order()[i], map.items()[i]@))
}

/// What `insert` makes of the list of a map.
proof fn lemma_noted(
    before: StringMap<HealthCheckResult>,
    after: StringMap<HealthCheckResult>,
    key: Seq<char>,
    value: HealthCheckResult,
)
    requires
        before.wf(),
        after.wf(),
        after@ == before@.insert(key, value),
        after.order() == if before@.contains_key(key) {
            before.order()
        } else {
            before.order().push(key)
        },
    ensures
        listed(after) == noted(listed(before), key, value@),
{
    before.lemma_view();
    after.lemma_view();
    let list = listed(before);
    if before@.contains_key(key) {
        let j = before.order().index_of(key);
        assert(before.order().contains(key));
        assert(0 <= j < list.len() && list[j].0 == key);
        let i = choose|i: int| 0 <= i < list.len() && (#[trigger] list[i]).0 == key;
        assert(before.order()[i] == key);
        assert(i == j);
        assert(listed(after) =~= list.update(i, (key, value@)));
    } else {
        assert forall|i: int| 0 <= i < list.len() implies (#[trigger] list[i]).0 != key by {
            assert(before@.contains_key(before.order()[i]));
        }
        assert(listed(after) =~= list.push((key, value@)));
    }
}

impl<C: HealthCheck> Default for HealthMonitor<C> {
    fn default() -> (r: Self)
        ensures
            r.wf(),
            r.checks() == Seq::<(Seq<char>, bool)>::empty(),
            r.results() == Seq::<(Seq<char>, ResultModel)>::empty(),
    {
        HealthMonitor::new()
    }
}

/// The summary as JSON text, `elapsed` being the seconds since the last
/// run.
pub open spec fn summary_json(s: HealthSummary, elapsed: u64) -> Seq<char> {
    "{\n  \"overall_healthy\": "@ + (if s.overall_healthy {
        "true"@
    } else {
        "false"@
    }) + ",\n  \"total_checks\": "@ + decimal(s.total_checks as nat)
        + ",\n  \"healthy_checks\": "@ + decimal(s.healthy_checks as nat)
        + ",\n  \"critical_checks\": "@ + decimal(s.critical_checks as nat)
        + ",\n  \"healthy_critical\": "@ + decimal(s.healthy_critical as nat)
        + ",\n  \"last_check\": \""@ + decimal(elapsed as nat) + "\",\n  \"uptime\": \""@
        + decimal(elapsed as nat) + "\"\n}"@
}

impl HealthSummary {
    /// The summary as JSON text, `elapsed` being the seconds since the last
    /// run.
    pub fn to_json_after(&self, elapsed: u64) -> (r: String)
        ensures
            r@ == summary_json(*self, elapsed),
    {
        let mut out = chars_of("{\n  \"overall_healthy\": ");
        if self.overall_healthy {
            push_text(&mut out, "true");
        } else {
            push_text(&mut out, "false");
        }
        push_text(&mut out, ",\n  \"total_checks\": ");
        let mut digits = decimal_chars(self.total_checks as u64);
        out.append(&mut digits);
        push_text(&mut out, ",\n  \"healthy_checks\": ");
        let mut digits = decimal_chars(self.healthy_checks as u64);
        out.append(&mut digits);
        push_text(&mut out, ",\n  \"critical_checks\": ");
        let mut digits = decimal_chars(self.critical_checks as u64);
        out.append(&mut digits);
        push_text(&mut out, ",\n  \"healthy_critical\": ");
        let mut digits = decimal_chars(self.healthy_critical as u64);
        out.append(&mut digits);
        push_text(&mut out, ",\n  \"last_check\": \"");
        let mut digits = decimal_chars(elapsed);
        out.append(&mut digits);
        push_text(&mut out, "\",\n  \"uptime\": \"");
        let mut digits = decimal_chars(elapsed);
        out.append(&mut digits);
        push_text(&mut out, "\"\n}");
        string_of(out.as_slice())
    }

    /// The summary as JSON text, with the seconds that have passed since
    /// the last run.
    pub fn to_json(&self) -> (r: String)
        ensures
            exists|elapsed: u64| r@ == #[trigger] summary_json(*self, elapsed),
    {
        let elapsed = elapsed_since(self.last_check) / 1000000000;
        self.to_json_after(elapsed)
    }
}

/// A monitor with the checks of the database, the storage and the memory
/// (below 1024 MiB), that runs every 30 seconds.
pub fn create_default_health_monitor() -> (r: HealthMonitor<BuiltinCheck>)
    ensures
        r.wf(),
        r.checks() == seq![("database"@, true), ("storage"@, true), ("memory"@, true)],
        r.results() == Seq::<(Seq<char>, ResultModel)>::empty(),
        r.interval() == 30000000000,
{
    HealthMonitor::new().add_check(BuiltinCheck::Database(DatabaseHealthCheck::new())).add_check(
        BuiltinCheck::Storage(StorageHealthCheck),
    ).add_check(BuiltinCheck::Memory(MemoryHealthCheck::new(1024))).with_interval(30000000000)
}

} // verus!
