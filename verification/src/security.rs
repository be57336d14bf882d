//! A second line of checks in front of the store: a limit on the rate of
//! requests, the cleaning of paths and payloads, and permissions by role.

use crate::collections::StringMap;
use crate::error::{ErrorKind, FireLocalError};
use crate::model::{canonical_json, json_canonical, text_from_utf8};
use crate::rules::ast::skip_slashes;
use crate::store::io::now_nanos;
use crate::text::{
    char_is_alphanumeric, chars_of, is_alphanumeric, str_eq, string_of, trim, trimmed,
};
use crate::validation::{contains_text, has_double_slash, slash_count, text_contains};
use vstd::prelude::*;
use vstd::utf8::{decode_utf8, encode_utf8, valid_utf8};

verus! {

/// What the security checks look at.
#[derive(Debug, Clone)]
pub struct SecurityConfig {
    /// Whether a user has to be known.
    pub authentication_enabled: bool,
    /// Whether permissions are checked.
    pub authorization_enabled: bool,
    /// Whether the rate of requests is limited.
    pub rate_limit_enabled: bool,
    /// Whether operations are logged.
    pub audit_logging_enabled: bool,
    /// The requests that a client may make in a minute.
    pub max_requests_per_minute: u32,
    /// The largest document, in bytes.
    pub max_document_size: usize,
    /// The largest number of segments in a path.
    pub max_path_depth: usize,
    /// The addresses that are not served.
    pub blocked_ips: Vec<String>,
    /// The operations that an unknown user may make.
    pub anonymous_operations: Vec<String>,
}

impl Default for SecurityConfig {
    fn default() -> (r: Self)
        ensures
            !r.authentication_enabled,
            r.authorization_enabled,
            r.rate_limit_enabled,
            r.audit_logging_enabled,
            r.max_requests_per_minute == 1000,
            r.max_document_size == 10485760,
            r.max_path_depth == 32,
            r.blocked_ips@.len() == 0,
            r.anonymous_operations@.len() == 1,
            r.anonymous_operations@[0]@ == "read"@,
    {
        let mut anonymous_operations: Vec<String> = Vec::new();
        anonymous_operations.push("read".to_owned());
        SecurityConfig {
            authentication_enabled: false,
            authorization_enabled: true,
            rate_limit_enabled: true,
            audit_logging_enabled: true,
            max_requests_per_minute: 1000,
            max_document_size: 10485760,
            max_path_depth: 32,
            blocked_ips: Vec::new(),
            anonymous_operations,
        }
    }
}

/// Whether one of `list` is `s`.
pub open spec fn lists(list: Seq<String>, s: Seq<char>) -> bool {
    exists|i: int| 0 <= i < list.len() && (#[trigger] list[i])@ == s
}

/// Whether one of `list` is `s`.
pub fn list_contains(list: &Vec<String>, s: &str) -> (r: bool)
    ensures
        r == lists(list@, s@),
{
    let mut i: usize = 0;
    while i < list.len()
        invariant
            i <= list.len(),
            forall|j: int| 0 <= j < i ==> (#[trigger] list@[j])@ != s@,
        decreases list.len() - i,
    {
        if str_eq(list[i].as_str(), s) {
            return true;
        }
        i = i + 1;
    }
    false
}

/// Who makes a request. The time is in nanoseconds since the Unix epoch.
#[derive(Debug, Clone)]
pub struct SecurityContext {
    pub user_id: Option<String>,
    pub roles: Vec<String>,
    pub client_ip: Option<String>,
    pub user_agent: Option<String>,
    pub auth_token: Option<String>,
    pub timestamp: u64,
}

impl SecurityContext {
    /// The context of an unknown user.
    pub fn anonymous() -> (r: Self)
        ensures
            r.user_id is None,
            r.roles@.len() == 0,
            r.client_ip is None,
            r.user_agent is None,
            r.auth_token is None,
    {
        SecurityContext {
            user_id: None,
            roles: Vec::new(),
            client_ip: None,
            user_agent: None,
            auth_token: None,
            timestamp: now_nanos(),
        }
    }

    /// The context of the user `user_id` with the given roles.
    pub fn authenticated(user_id: &str, roles: Vec<String>) -> (r: Self)
        ensures
            r.user_id matches Some(id) && id@ == user_id@,
            r.roles == roles,
            r.client_ip is None,
            r.user_agent is None,
            r.auth_token is None,
    {
        SecurityContext {
            user_id: Some(user_id.to_owned()),
            roles,
            client_ip: None,
            user_agent: None,
            auth_token: None,
            timestamp: now_nanos(),
        }
    }

    /// Whether the user is known.
    pub fn is_authenticated(&self) -> (r: bool)
        ensures
            r == self.user_id is Some,
    {
        self.user_id.is_some()
    }

    /// Whether the user has the role.
    pub fn has_role(&self, role: &str) -> (r: bool)
        ensures
            r == lists(self.roles@, role@),
    {
        list_contains(&self.roles, role)
    }
}

/// The times of `times` that lie less than `window` before `now`.
pub open spec fn within(times: Seq<u64>, now: u64, window: u64) -> Seq<u64>
    decreases times.len(),
{
    if times.len() == 0 {
        Seq::empty()
    } else if now <= times.last() || now - times.last() < window {
        within(times.drop_last(), now, window).push(times.last())
    } else {
        within(times.drop_last(), now, window)
    }
}

/// Limits the requests of each client within a window of time.
pub struct SecurityRateLimiter {
    requests: StringMap<Vec<u64>>,
    max_requests: u32,
    window: u64,
}

impl SecurityRateLimiter {
    /// The limiter's invariant.
    pub closed spec fn wf(&self) -> bool {
        self.requests.wf()
    }

    /// The requests allowed to one client in one window.
    pub closed spec fn limit(&self) -> u32 {
        self.max_requests
    }

    /// The length of the window, in nanoseconds.
    pub closed spec fn window(&self) -> u64 {
        self.window
    }

    /// The times of the requests of `client` that are remembered.
    pub closed spec fn times(&self, client: Seq<char>) -> Seq<u64> {
        if self.requests@.contains_key(client) {
            self.requests@[client]@
        } else {
            Seq::empty()
        }
    }

    /// A limiter that allows each client `max_requests` requests in any
    /// `window_minutes` minutes.
    pub fn new(max_requests: u32, window_minutes: u64) -> (r: Self)
        ensures
            r.wf(),
            r.limit() == max_requests,
            r.window() == if window_minutes * 60000000000 > u64::MAX {
                u64::MAX
            } else {
                (window_minutes * 60000000000) as u64
            },
            forall|c: Seq<char>| r.times(c) == Seq::<u64>::empty(),
    {
        let window = match window_minutes.checked_mul(60000000000) {
            Some(w) => w,
            None => u64::MAX,
        };
        SecurityRateLimiter { requests: StringMap::new(), max_requests, window }
    }

    /// Decides on a request of `client_id` at the time `now`: the requests
    /// of the client that are older than the window are forgotten, and the
    /// request is let through and remembered unless as many as the limit
    /// remain.
    pub fn check_rate_limit_at(&mut self, client_id: &str, now: u64) -> (r: Result<
        (),
        FireLocalError,
    >)
        requires
            old(self).wf(),
        ensures
            final(self).wf(),
            final(self).limit() == old(self).limit(),
            final(self).window() == old(self).window(),
            forall|c: Seq<char>| c != client_id@ ==> final(self).times(c) == old(self).times(c),
            ({
                let kept = within(old(self).times(client_id@), now, old(self).window());
                if kept.len() >= old(self).limit() {
                    r matches Err(e) && e.kind() == ErrorKind::RateLimitExceeded && final(self).times(client_id@) == kept
                } else {
                    r is Ok && final(self).times(client_id@) == kept.push(now)
                }
            }),
    {
        let ghost before = self.times(client_id@);
        let recorded: Vec<u64> = match self.requests.remove(client_id) {
            Some(times) => times,
            None => Vec::new(),
        };
        assert(recorded@ =~= before);
        let mut kept: Vec<u64> = Vec::new();
        let mut i: usize = 0;
        assert(recorded@.take(0) =~= Seq::<u64>::empty());
        while i < recorded.len()
            invariant
                i <= recorded.len(),
                kept@ == within(recorded@.take(i as int), now, self.window),
            decreases recorded.len() - i,
        {
            let t = recorded[i];
            proof {
                assert(recorded@.take(i + 1).drop_last() =~= recorded@.take(i as int));
                assert(recorded@.take(i + 1).last() == t);
            }
            if now <= t || now - t < self.window {
                kept.push(t);
            }
            i = i + 1;
        }
        assert(recorded@.take(recorded@.len() as int) =~= recorded@);
        if kept.len() >= self.max_requests as usize {
            let _ = self.requests.insert(client_id.to_owned(), kept);
            proof {
                assert forall|c: Seq<char>| c != client_id@ implies self.times(c) == old(self).times(c) by {}
            }
            return Err(
                FireLocalError::RateLimitExceeded("Rate limit exceeded".to_owned()),
            );
        }
        kept.push(now);
        let _ = self.requests.insert(client_id.to_owned(), kept);
        proof {
            assert forall|c: Seq<char>| c != client_id@ implies self.times(c) == old(self).times(
                c,
            ) by {}
        }
        Ok(())
    }

    /// Whether the limiter is what `check_rate_limit_at` makes of `before`
    /// for a request of `client` at the time `now` that it answers with `r`.
    pub open spec fn is_after_check(
        &self,
        before: &Self,
        client: Seq<char>,
        now: u64,
        r: Result<(), FireLocalError>,
    ) -> bool {
        let kept = within(before.times(client), now, before.window());
        if kept.len() >= before.limit() {
            r matches Err(e) && e.kind() == ErrorKind::RateLimitExceeded && self.times(client)
                == kept
        } else {
            r is Ok && self.times(client) == kept.push(now)
        }
    }

    /// Decides on a request of `client_id` that arrives now: what
    /// `check_rate_limit_at` does at the time of the machine's clock.
    pub fn check_rate_limit(&mut self, client_id: &str) -> (r: Result<(), FireLocalError>)
        requires
            old(self).wf(),
        ensures
            final(self).wf(),
            final(self).limit() == old(self).limit(),
            final(self).window() == old(self).window(),
            forall|c: Seq<char>| c != client_id@ ==> final(self).times(c) == old(self).times(c),
            exists|now: u64| #[trigger] final(self).is_after_check(old(self), client_id@, now, r),
            r matches Err(e) ==> e.kind() == ErrorKind::RateLimitExceeded,
            old(self).times(client_id@).len() < old(self).limit() ==> r is Ok,
    {
        let now = now_nanos();
        proof {
            lemma_within_len(self.times(client_id@), now, self.window());
        }
        let r = self.check_rate_limit_at(client_id, now);
        proof {
            assert(self.is_after_check(old(self), client_id@, now, r));
        }
        r
    }
}

/// Forgetting old requests does not add any.
pub proof fn lemma_within_len(times: Seq<u64>, now: u64, window: u64)
    ensures
        within(times, now, window).len() <= times.len(),
    decreases times.len(),
{
    if times.len() > 0 {
        lemma_within_len(times.drop_last(), now, window);
    }
}

/// `s` without the slashes at its two ends.
pub open spec fn strip_slashes(s: Seq<char>) -> Seq<char> {
    let start = skip_slashes(s, 0);
    let end = slashes_end(s, start, s.len() as int);
    s.subrange(start, end)
}

/// Where the text of `s` ends once the slashes at its end are cut off, not
/// going below `floor`.
pub open spec fn slashes_end(s: Seq<char>, floor: int, to: int) -> int
    decreases to,
{
    if 0 <= floor < to <= s.len() && s[to - 1] == '/' {
        slashes_end(s, floor, to - 1)
    } else {
        to
    }
}

/// Whether `c` may stand in a cleaned path: a slash, a letter or digit,
/// `-`, `_` or `.`.
pub open spec fn is_clean_char(c: char) -> bool {
    c == '/' || is_alphanumeric(c) || c == '-' || c == '_' || c == '.'
}

/// A path without the whitespace and the slashes at its two ends.
pub open spec fn cleaned(path: Seq<char>) -> Seq<char> {
    strip_slashes(trimmed(path))
}

/// Why a path is not taken, if it is not: it is empty or longer than 4096
/// bytes (`Validation`); cleaned, it holds `..`, a backslash or a NUL
/// (`Security`); cleaned, it has more segments than `max_depth`, an empty
/// segment, or a character that may not stand in a path (`Validation`).
pub open spec fn sanitize_refusal(path: Seq<char>, max_depth: usize) -> Option<ErrorKind> {
    let p = cleaned(path);
    if path.len() == 0 || encode_utf8(path).len() > 4096 {
        Some(ErrorKind::Validation)
    } else if contains_text(p, ".."@) || p.contains('\\') || p.contains('\0') {
        Some(ErrorKind::Security)
    } else if slash_count(p) + 1 > max_depth || p.len() == 0 || has_double_slash(p) || exists|
        i: int,
    | 0 <= i < p.len() && !is_clean_char(#[trigger] p[i]) {
        Some(ErrorKind::Validation)
    } else {
        None
    }
}

/// Whether `c` stands in `s`.
fn has_char(s: &Vec<char>, c: char) -> (r: bool)
    ensures
        r == s@.contains(c),
{
    let mut i: usize = 0;
    while i < s.len()
        invariant
            i <= s.len(),
            forall|j: int| 0 <= j < i ==> s@[j] != c,
        decreases s.len() - i,
    {
        if s[i] == c {
            return true;
        }
        i = i + 1;
    }
    false
}

/// `s` without the slashes at its two ends.
fn trim_slashes(s: &Vec<char>) -> (r: Vec<char>)
    ensures
        r@ == strip_slashes(s@),
{
    let mut start: usize = 0;
    while start < s.len() && s[start] == '/'
        invariant
            start <= s.len(),
            skip_slashes(s@, 0) == skip_slashes(s@, start as int),
        decreases s.len() - start,
    {
        start = start + 1;
    }
    let mut end: usize = s.len();
    while end > start && s[end - 1] == '/'
        invariant
            start <= end <= s.len(),
            slashes_end(s@, start as int, s@.len() as int) == slashes_end(
                s@,
                start as int,
                end as int,
            ),
        decreases end,
    {
        end = end - 1;
    }
    let mut out: Vec<char> = Vec::new();
    let mut i: usize = start;
    while i < end
        invariant
            start <= i <= end <= s.len(),
            out@ == s@.subrange(start as int, i as int),
        decreases end - i,
    {
        out.push(s[i]);
        assert(s@.subrange(start as int, i + 1) =~= s@.subrange(start as int, i as int).push(
            s@[i as int],
        ));
        i = i + 1;
    }
    out
}

/// Cleans paths and payloads.
pub struct InputSanitizer;

impl InputSanitizer {
    /// Cleans a path: the whitespace and the slashes at its two ends are
    /// cut off, and the path is refused where it is empty, too long, too
    /// deep, tries to leave its directory, or holds a character that may not
    /// stand in a path.
    pub fn sanitize_path(path: &str, max_depth: usize) -> (r: Result<String, FireLocalError>)
        ensures
            match sanitize_refusal(path@, max_depth) {
                Some(kind) => r matches Err(e) && e.kind() == kind,
                None => r matches Ok(p) && p@ == cleaned(path@),
            },
    {
        let chars = chars_of(path);
        if chars.len() == 0 {
            return Err(FireLocalError::Validation("Path cannot be empty".to_owned()));
        }
        if path.as_bytes().len() > 4096 {
            return Err(FireLocalError::Validation("Path too long".to_owned()));
        }
        let p = trim_slashes(&trim(&chars));
        let dots = chars_of("..");
        if text_contains(&p, &dots) || has_char(&p, '\\') {
            return Err(FireLocalError::Security("Path traversal detected".to_owned()));
        }
        if has_char(&p, '\0') {
            return Err(FireLocalError::Security("Null byte detected in path".to_owned()));
        }
        let n = p.len();
        let mut slashes: usize = 0;
        let mut doubled = false;
        let mut bad = false;
        let mut i: usize = 0;
        while i < n
            invariant
                i <= n,
                n == p@.len(),
                slashes <= i,
                slashes == slash_count(p@.take(i as int)),
                doubled == exists|j: int|
                    0 <= j < i && j + 1 < n && #[trigger] p@[j] == '/' && p@[j + 1] == '/',
                bad == exists|j: int| 0 <= j < i && !is_clean_char(#[trigger] p@[j]),
            decreases n - i,
        {
            assert(p@.take(i + 1).drop_last() =~= p@.take(i as int));
            let c = p[i];
            if c == '/' {
                slashes = slashes + 1;
                if i + 1 < n && p[i + 1] == '/' {
                    doubled = true;
                }
            } else if !(char_is_alphanumeric(c) || c == '-' || c == '_' || c == '.') {
                bad = true;
            }
            i = i + 1;
        }
        assert(p@.take(n as int) =~= p@);
        proof {
            if has_double_slash(p@) {
                let j = choose|j: int|
                    0 <= j && j + 1 < p@.len() && #[trigger] p@[j] == '/' && p@[j + 1] == '/';
                assert(p@[j] == '/');
            }
        }
        if slashes >= max_depth {
            return Err(FireLocalError::Validation("Path depth exceeds maximum".to_owned()));
        }
        if n == 0 || doubled {
            return Err(FireLocalError::Validation("Empty path segment".to_owned()));
        }
        if bad {
            return Err(FireLocalError::Validation("Invalid character in path".to_owned()));
        }
        Ok(string_of(p.as_slice()))
    }

    /// Why a document is not taken, if it is not.
    pub open spec fn document_refusal(data: Seq<u8>, max_size: usize) -> Option<ErrorKind> {
        if data.len() == 0 || data.len() > max_size {
            Some(ErrorKind::Validation)
        } else if data.contains(0u8) {
            Some(ErrorKind::Security)
        } else if !valid_utf8(data) {
            Some(ErrorKind::Validation)
        } else {
            None
        }
    }

    /// Takes a document that is not empty, not larger than `max_size`,
    /// without a NUL byte, and well-formed UTF-8, and hands back a copy of
    /// it.
    pub fn sanitize_document(data: &[u8], max_size: usize) -> (r: Result<Vec<u8>, FireLocalError>)
        ensures
            match Self::document_refusal(data@, max_size) {
                Some(kind) => r matches Err(e) && e.kind() == kind,
                None => r matches Ok(copy) && copy@ == data@,
            },
    {
        if data.len() == 0 {
            return Err(FireLocalError::Validation("Document cannot be empty".to_owned()));
        }
        if data.len() > max_size {
            return Err(FireLocalError::Validation("Document size exceeds maximum".to_owned()));
        }
        let mut i: usize = 0;
        while i < data.len()
            invariant
                i <= data.len(),
                data@.len() > 0,
                data@.len() <= max_size,
                forall|j: int| 0 <= j < i ==> data@[j] != 0u8,
            decreases data.len() - i,
        {
            if data[i] == 0 {
                return Err(
                    FireLocalError::Security("Null byte detected in document".to_owned()),
                );
            }
            i = i + 1;
        }
        match text_from_utf8(data) {
            Some(_) => Ok(vstd::slice::slice_to_vec(data)),
            None => Err(FireLocalError::Validation("Document must be valid UTF-8".to_owned())),
        }
    }

    /// Why a payload is not taken as JSON, if it is not.
    pub open spec fn json_refusal(data: Seq<u8>) -> Option<ErrorKind> {
        if !valid_utf8(data) {
            Some(ErrorKind::Validation)
        } else if contains_text(decode_utf8(data), "__proto__"@) || contains_text(
            decode_utf8(data),
            "constructor"@,
        ) {
            Some(ErrorKind::Security)
        } else if json_canonical(decode_utf8(data)) is None {
            Some(ErrorKind::Validation)
        } else {
            None
        }
    }

    /// Takes a payload that reads as a JSON value and names neither
    /// `__proto__` nor `constructor`.
    pub fn validate_json(data: &[u8]) -> (r: Result<(), FireLocalError>)
        ensures
            match Self::json_refusal(data@) {
                Some(kind) => r matches Err(e) && e.kind() == kind,
                None => r is Ok,
            },
    {
        let text = match text_from_utf8(data) {
            Some(text) => text,
            None => {
                return Err(FireLocalError::Validation("Invalid UTF-8".to_owned()));
            },
        };
        let chars = chars_of(text);
        if text_contains(&chars, &chars_of("__proto__")) || text_contains(
            &chars,
            &chars_of("constructor"),
        ) {
            return Err(FireLocalError::Security("Prototype pollution detected".to_owned()));
        }
        if canonical_json(text).is_none() {
            return Err(FireLocalError::Validation("Invalid JSON".to_owned()));
        }
        Ok(())
    }
}

/// A payload that may be absent, as a plain value.
pub open spec fn data_model(data: Option<&[u8]>) -> Option<Seq<u8>> {
    match data {
        Some(d) => Some(d@),
        None => None,
    }
}

/// Whether a user with the given roles may make `operation`: an `admin`
/// may do everything, a `writer` may read, write and delete, a `reader` may
/// read.
pub open spec fn role_permits(roles: Seq<String>, operation: Seq<char>) -> bool {
    ||| lists(roles, "admin"@)
    ||| operation == "read"@ && (lists(roles, "reader"@) || lists(roles, "writer"@))
    ||| (operation == "write"@ || operation == "delete"@) && lists(roles, "writer"@)
}

/// Checks requests before they reach the store.
pub struct SecurityAuditor {
    config: SecurityConfig,
    rate_limiter: SecurityRateLimiter,
}

impl SecurityAuditor {
    /// The auditor's invariant.
    pub closed spec fn wf(&self) -> bool {
        self.rate_limiter.wf()
    }

    /// The configuration that the auditor goes by.
    pub closed spec fn config(&self) -> SecurityConfig {
        self.config
    }

    /// The auditor's rate limiter.
    pub closed spec fn limiter(&self) -> SecurityRateLimiter {
        self.rate_limiter
    }

    /// An auditor that goes by `config`, with a limit of
    /// `config.max_requests_per_minute` requests in a minute.
    pub fn new(config: SecurityConfig) -> (r: Self)
        ensures
            r.wf(),
            r.config() == config,
            r.limiter().limit() == config.max_requests_per_minute,
            forall|c: Seq<char>| r.limiter().times(c) == Seq::<u64>::empty(),
    {
        SecurityAuditor {
            rate_limiter: SecurityRateLimiter::new(config.max_requests_per_minute, 1),
            config,
        }
    }

    /// The name under which the requests of a context are counted: its
    /// address, or `anonymous`.
    pub open spec fn client_of(context: &SecurityContext) -> Seq<char> {
        match context.client_ip {
            Some(ip) => ip@,
            None => "anonymous"@,
        }
    }

    /// Whether the address of the context is blocked.
    pub open spec fn blocked(&self, context: &SecurityContext) -> bool {
        context.client_ip matches Some(ip) && lists(self.config().blocked_ips@, ip@)
    }

    /// Whether the context has to be known for `operation` and is not.
    pub open spec fn unauthenticated(&self, context: &SecurityContext, operation: Seq<char>) -> bool {
        self.config().authentication_enabled && context.user_id is None && !lists(
            self.config().anonymous_operations@,
            operation,
        )
    }

    /// Why the inputs of a request are not taken, if they are not.
    pub open spec fn input_refusal(&self, path: Seq<char>, data: Option<Seq<u8>>) -> Option<
        ErrorKind,
    > {
        match sanitize_refusal(path, self.config().max_path_depth) {
            Some(kind) => Some(kind),
            None => match data {
                Some(d) => match InputSanitizer::document_refusal(
                    d,
                    self.config().max_document_size,
                ) {
                    Some(kind) => Some(kind),
                    None => InputSanitizer::json_refusal(d),
                },
                None => None,
            },
        }
    }

    /// Checks a request that arrives at the time `now`, in this order: a
    /// blocked address is denied; the rate limit is applied, where it is
    /// enabled; an unknown user is denied where a user has to be known,
    /// unless the operation is open to everyone; the path is cleaned; the
    /// data, where there is any, has to be a clean document and JSON. A
    /// request that gets past the rate limit is counted, whatever becomes
    /// of it afterwards.
    pub fn pre_operation_check_at(
        &mut self,
        context: &SecurityContext,
        operation: &str,
        path: &str,
        data: Option<&[u8]>,
        now: u64,
    ) -> (r: Result<(), FireLocalError>)
        requires
            old(self).wf(),
        ensures
            final(self).wf(),
            final(self).config() == old(self).config(),
            final(self).limiter().limit() == old(self).limiter().limit(),
            final(self).limiter().window() == old(self).limiter().window(),
            forall|c: Seq<char>|
                c != Self::client_of(context) ==> final(self).limiter().times(c) == old(self).limiter().times(c),
            ({
                let kept = within(
                    old(self).limiter().times(Self::client_of(context)),
                    now,
                    old(self).limiter().window(),
                );
                final(self).limiter().times(Self::client_of(context)) == if old(self).blocked(
                    context,
                ) || !old(self).config().rate_limit_enabled {
                    old(self).limiter().times(Self::client_of(context))
                } else if kept.len() >= old(self).limiter().limit() {
                    kept
                } else {
                    kept.push(now)
                }
            }),
            ({
                let limited = old(self).config().rate_limit_enabled && within(
                    old(self).limiter().times(Self::client_of(context)),
                    now,
                    old(self).limiter().window(),
                ).len() >= old(self).limiter().limit();
                let data_model = match data {
                    Some(d) => Some(d@),
                    None => None,
                };
                if old(self).blocked(context) {
                    r matches Err(e) && e.kind() == ErrorKind::PermissionDenied
                } else if limited {
                    r matches Err(e) && e.kind() == ErrorKind::RateLimitExceeded
                } else if old(self).unauthenticated(context, operation@) {
                    r matches Err(e) && e.kind() == ErrorKind::PermissionDenied
                } else {
                    match old(self).input_refusal(path@, data_model) {
                        Some(kind) => r matches Err(e) && e.kind() == kind,
                        None => r is Ok,
                    }
                }
            }),
    {
        match &context.client_ip {
            Some(ip) => {
                if list_contains(&self.config.blocked_ips, ip.as_str()) {
                    return Err(
                        FireLocalError::PermissionDenied("IP address is blocked".to_owned()),
                    );
                }
            },
            None => {},
        }
        if self.config.rate_limit_enabled {
            let client_id = match &context.client_ip {
                Some(ip) => ip.as_str(),
                None => "anonymous",
            };
            match self.rate_limiter.check_rate_limit_at(client_id, now) {
                Ok(_) => {},
                Err(e) => {
                    return Err(e);
                },
            }
        }
        if self.config.authentication_enabled && !context.is_authenticated() && !list_contains(
            &self.config.anonymous_operations,
            operation,
        ) {
            return Err(FireLocalError::PermissionDenied("Authentication required".to_owned()));
        }
        match InputSanitizer::sanitize_path(path, self.config.max_path_depth) {
            Ok(_) => {},
            Err(e) => {
                return Err(e);
            },
        }
        match data {
            Some(d) => {
                match InputSanitizer::sanitize_document(d, self.config.max_document_size) {
                    Ok(_) => {},
                    Err(e) => {
                        return Err(e);
                    },
                }
                match InputSanitizer::validate_json(d) {
                    Ok(_) => {},
                    Err(e) => {
                        return Err(e);
                    },
                }
            },
            None => {},
        }
        Ok(())
    }

    /// Checks a request that arrives now: what `pre_operation_check_at`
    /// does at the time of the machine's clock.
    pub fn pre_operation_check(
        &mut self,
        context: &SecurityContext,
        operation: &str,
        path: &str,
        data: Option<&[u8]>,
    ) -> (r: Result<(), FireLocalError>)
        requires
            old(self).wf(),
        ensures
            final(self).wf(),
            final(self).config() == old(self).config(),
            final(self).limiter().limit() == old(self).limiter().limit(),
            final(self).limiter().window() == old(self).limiter().window(),
            forall|c: Seq<char>|
                c != Self::client_of(context) ==> final(self).limiter().times(c) == old(self).limiter().times(c),
            exists|now: u64|
                #[trigger] final(self).is_after_check(
                    old(self),
                    context,
                    operation@,
                    path@,
                    crate::security::data_model(data),
                    now,
                    r,
                ),
            old(self).blocked(context) ==> (r matches Err(e) && e.kind()
                == ErrorKind::PermissionDenied),
    {
        let now = now_nanos();
        let r = self.pre_operation_check_at(context, operation, path, data, now);
        proof {
            assert(self.is_after_check(
                old(self),
                context,
                operation@,
                path@,
                crate::security::data_model(data),
                now,
                r,
            ));
        }
        r
    }

    /// Whether the auditor is what `pre_operation_check_at` makes of
    /// `before` for a request at the time `now` that it answers with `r`:
    /// what it remembers of the client's requests, and which of the checks,
    /// in their order, decides.
    pub open spec fn is_after_check(
        &self,
        before: &Self,
        context: &SecurityContext,
        operation: Seq<char>,
        path: Seq<char>,
        data: Option<Seq<u8>>,
        now: u64,
        r: Result<(), FireLocalError>,
    ) -> bool {
        let client = Self::client_of(context);
        let kept = within(before.limiter().times(client), now, before.limiter().window());
        let limited = before.config().rate_limit_enabled && kept.len() >= before.limiter().limit();
        &&& self.limiter().times(client) == if before.blocked(context)
            || !before.config().rate_limit_enabled {
            before.limiter().times(client)
        } else if kept.len() >= before.limiter().limit() {
            kept
        } else {
            kept.push(now)
        }
        &&& if before.blocked(context) {
            r matches Err(e) && e.kind() == ErrorKind::PermissionDenied
        } else if limited {
            r matches Err(e) && e.kind() == ErrorKind::RateLimitExceeded
        } else if before.unauthenticated(context, operation) {
            r matches Err(e) && e.kind() == ErrorKind::PermissionDenied
        } else {
            match before.input_refusal(path, data) {
                Some(kind) => r matches Err(e) && e.kind() == kind,
                None => r is Ok,
            }
        }
    }

    /// Whether the user of the context may make `operation` on `resource`:
    /// always where permissions are not checked, and otherwise by the user's
    /// roles.
    pub fn check_permission(&self, context: &SecurityContext, operation: &str, resource: &str) -> (r:
        Result<(), FireLocalError>)
        ensures
            match r {
                Ok(_) => !self.config().authorization_enabled || role_permits(
                    context.roles@,
                    operation@,
                ),
                Err(e) => e.kind() == ErrorKind::PermissionDenied
                    && self.config().authorization_enabled && !role_permits(
                    context.roles@,
                    operation@,
                ),
            },
    {
        if !self.config.authorization_enabled {
            return Ok(());
        }
        if context.has_role("admin") {
            return Ok(());
        }
        if str_eq(operation, "read") {
            if context.has_role("reader") || context.has_role("writer") {
                return Ok(());
            }
        } else if str_eq(operation, "write") || str_eq(operation, "delete") {
            if context.has_role("writer") {
                return Ok(());
            }
        }
        proof {
            reveal_strlit("read");
            reveal_strlit("write");
            reveal_strlit("delete");
        }
        Err(FireLocalError::PermissionDenied("Insufficient permissions".to_owned()))
    }
}

/// An auditor that goes by the default configuration.
pub fn create_default_security_auditor() -> (r: SecurityAuditor)
    ensures
        r.wf(),
        r.config().authorization_enabled,
        !r.config().authentication_enabled,
        r.config().rate_limit_enabled,
        r.limiter().limit() == 1000,
{
    SecurityAuditor::new(SecurityConfig::default())
}

} // verus!
