//! Checks at the engine's boundary: the shape of a document path, the size
//! of a payload, the form of a rules text, and a limit on the rate of
//! requests.

use crate::text::{char_is_alphanumeric, chars_of, is_alphanumeric, string_of};
use std::collections::VecDeque;
use vstd::prelude::*;
use vstd::utf8::encode_utf8;

verus! {

/// The longest path, in bytes.
pub const MAX_PATH_LENGTH: usize = 4096;

/// The largest number of segments in a path.
pub const MAX_PATH_DEPTH: usize = 100;

/// The largest payload, in bytes: 100 MiB.
pub const MAX_DATA_SIZE: usize = 104857600;

/// The longest rules text, in bytes: 1 MiB.
pub const MAX_RULES_SIZE: usize = 1048576;

/// Why an input was refused.
#[derive(Clone, Copy, Debug, PartialEq, Eq, Structural)]
pub enum ValidationError {
    EmptyPath,
    PathTooLong,
    SlashAtEdge,
    ConsecutiveSlashes,
    PathTooDeep,
    InvalidCharacter(char),
    EmptyData,
    DataTooLarge,
    InvalidUtf8,
    InvalidJson,
    EmptyRules,
    RulesTooLarge,
    MissingService,
    RateLimitExceeded,
}

impl ValidationError {
    /// The words that tell what was refused.
    pub open spec fn text(&self) -> Seq<char> {
        match self {
            ValidationError::EmptyPath => "Path cannot be empty"@,
            ValidationError::PathTooLong => "Path too long (max 4096 characters)"@,
            ValidationError::SlashAtEdge => "Path cannot start or end with '/'"@,
            ValidationError::ConsecutiveSlashes => "Path cannot contain consecutive slashes"@,
            ValidationError::PathTooDeep => "Path too deep (max 100 segments)"@,
            ValidationError::InvalidCharacter(c) => "Invalid character in path: '"@ + seq![*c]
                + "'"@,
            ValidationError::EmptyData => "Document data cannot be empty"@,
            ValidationError::DataTooLarge => "Document too large (max 100 MB)"@,
            ValidationError::InvalidUtf8 => "Document data must be valid UTF-8"@,
            ValidationError::InvalidJson => "Invalid JSON data"@,
            ValidationError::EmptyRules => "Rules cannot be empty"@,
            ValidationError::RulesTooLarge => "Rules too large (max 1MB)"@,
            ValidationError::MissingService =>
                "Invalid rules format: missing 'service cloud.firestore'"@,
            ValidationError::RateLimitExceeded => "Rate limit exceeded"@,
        }
    }

    /// The words that tell what was refused.
    pub fn message(&self) -> (r: String)
        ensures
            r@ == self.text(),
    {
        match self {
            ValidationError::EmptyPath => "Path cannot be empty".to_owned(),
            ValidationError::PathTooLong => "Path too long (max 4096 characters)".to_owned(),
            ValidationError::SlashAtEdge => "Path cannot start or end with '/'".to_owned(),
            ValidationError::ConsecutiveSlashes =>
                "Path cannot contain consecutive slashes".to_owned(),
            ValidationError::PathTooDeep => "Path too deep (max 100 segments)".to_owned(),
            ValidationError::InvalidCharacter(c) => {
                let mut out = chars_of("Invalid character in path: '");
                out.push(*c);
                let mut end = chars_of("'");
                out.append(&mut end);
                string_of(out.as_slice())
            },
            ValidationError::EmptyData => "Document data cannot be empty".to_owned(),
            ValidationError::DataTooLarge => "Document too large (max 100 MB)".to_owned(),
            ValidationError::InvalidUtf8 => "Document data must be valid UTF-8".to_owned(),
            ValidationError::InvalidJson => "Invalid JSON data".to_owned(),
            ValidationError::EmptyRules => "Rules cannot be empty".to_owned(),
            ValidationError::RulesTooLarge => "Rules too large (max 1MB)".to_owned(),
            ValidationError::MissingService =>
                "Invalid rules format: missing 'service cloud.firestore'".to_owned(),
            ValidationError::RateLimitExceeded => "Rate limit exceeded".to_owned(),
        }
    }
}

/// Checks that a payload is JSON text: well-formed UTF-8 that parses.
pub fn validate_json(data: &[u8]) -> (r: Result<(), ValidationError>)
    ensures
        r == if !vstd::utf8::valid_utf8(data@) {
            Err::<(), ValidationError>(ValidationError::InvalidUtf8)
        } else if !crate::model::json_valid(vstd::utf8::decode_utf8(data@)) {
            Err::<(), ValidationError>(ValidationError::InvalidJson)
        } else {
            Ok::<(), ValidationError>(())
        },
{
    match crate::model::text_from_utf8(data) {
        None => Err(ValidationError::InvalidUtf8),
        Some(text) => if crate::model::is_json(text) {
            Ok(())
        } else {
            Err(ValidationError::InvalidJson)
        },
    }
}

/// The number of slashes in `s`.
pub open spec fn slash_count(s: Seq<char>) -> nat
    decreases s.len(),
{
    if s.len() == 0 {
        0
    } else {
        slash_count(s.drop_last()) + if s.last() == '/' {
            1nat
        } else {
            0nat
        }
    }
}

/// Whether two slashes stand side by side in `s`.
pub open spec fn has_double_slash(s: Seq<char>) -> bool {
    exists|i: int| 0 <= i && i + 1 < s.len() && #[trigger] s[i] == '/' && s[i + 1] == '/'
}

/// Whether `c` may stand in a path: a slash, a letter or digit, `_` or `-`.
pub open spec fn is_path_char(c: char) -> bool {
    c == '/' || is_alphanumeric(c) || c == '_' || c == '-'
}

/// The position of the first character of `s` that may not stand in a path,
/// or the length of `s` where there is none.
pub open spec fn first_bad_char(s: Seq<char>, i: int) -> int
    decreases s.len() - i,
{
    if 0 <= i < s.len() && is_path_char(s[i]) {
        first_bad_char(s, i + 1)
    } else {
        i
    }
}

/// What is wrong with a path, the first of: it is empty; it is longer than
/// 4096 bytes; it begins or ends with a slash; two slashes stand side by
/// side; it has more than 100 segments; a character is not a letter, a
/// digit, `_` or `-`. `None` for a path that is in order.
pub open spec fn path_error(path: Seq<char>) -> Option<ValidationError> {
    if path.len() == 0 {
        Some(ValidationError::EmptyPath)
    } else if encode_utf8(path).len() > MAX_PATH_LENGTH {
        Some(ValidationError::PathTooLong)
    } else if path[0] == '/' || path.last() == '/' {
        Some(ValidationError::SlashAtEdge)
    } else if has_double_slash(path) {
        Some(ValidationError::ConsecutiveSlashes)
    } else if slash_count(path) + 1 > MAX_PATH_DEPTH {
        Some(ValidationError::PathTooDeep)
    } else if first_bad_char(path, 0) < path.len() {
        Some(ValidationError::InvalidCharacter(path[first_bad_char(path, 0)]))
    } else {
        None
    }
}

/// Whether a path is in order.
pub open spec fn valid_path(path: Seq<char>) -> bool {
    path_error(path) is None
}

/// `first_bad_char` gives the first place from `i` on whose character a
/// path may not hold, or the length of `s` where there is none.
pub proof fn lemma_first_bad_char(s: Seq<char>, i: int)
    requires
        0 <= i <= s.len(),
    ensures
        i <= first_bad_char(s, i) <= s.len(),
        forall|j: int| i <= j < first_bad_char(s, i) ==> is_path_char(#[trigger] s[j]),
        first_bad_char(s, i) < s.len() ==> !is_path_char(s[first_bad_char(s, i)]),
    decreases s.len() - i,
{
    if i < s.len() && is_path_char(s[i]) {
        lemma_first_bad_char(s, i + 1);
    }
}

/// A path is in order exactly if it is not empty, has at most 4096 bytes
/// and 100 segments, neither begins nor ends with a slash, holds no two
/// slashes side by side, and is made of letters, digits, `_`, `-` and
/// slashes.
pub proof fn lemma_valid_path(path: Seq<char>)
    ensures
        valid_path(path) <==> {
            &&& path.len() > 0
            &&& encode_utf8(path).len() <= MAX_PATH_LENGTH
            &&& path[0] != '/'
            &&& path.last() != '/'
            &&& !has_double_slash(path)
            &&& slash_count(path) < MAX_PATH_DEPTH
            &&& forall|i: int| 0 <= i < path.len() ==> is_path_char(#[trigger] path[i])
        },
{
    lemma_first_bad_char(path, 0);
}

/// Checks the shape of a document path.
pub fn validate_path(path: &str) -> (r: Result<(), ValidationError>)
    ensures
        r == match path_error(path@) {
            Some(e) => Err::<(), ValidationError>(e),
            None => Ok::<(), ValidationError>(()),
        },
{
    let chars = chars_of(path);
    let n = chars.len();
    if n == 0 {
        return Err(ValidationError::EmptyPath);
    }
    if path.as_bytes().len() > MAX_PATH_LENGTH {
        return Err(ValidationError::PathTooLong);
    }
    if chars[0] == '/' || chars[n - 1] == '/' {
        return Err(ValidationError::SlashAtEdge);
    }
    let mut slashes: usize = 0;
    let mut i: usize = 0;
    while i < n
        invariant
            i <= n,
            n == chars@.len(),
            chars@ == path@,
            n > 0,
            encode_utf8(path@).len() <= MAX_PATH_LENGTH,
            chars@[0] != '/' && chars@.last() != '/',
            slashes <= i,
            slashes == slash_count(chars@.take(i as int)),
            forall|j: int|
                0 <= j < i && j + 1 < n ==> !(#[trigger] chars@[j] == '/' && chars@[j + 1] == '/'),
        decreases n - i,
    {
        assert(chars@.take(i + 1).drop_last() =~= chars@.take(i as int));
        if chars[i] == '/' {
            if i + 1 < n && chars[i + 1] == '/' {
                assert(chars@[i as int] == '/' && chars@[i + 1] == '/');
                return Err(ValidationError::ConsecutiveSlashes);
            }
            slashes = slashes + 1;
        }
        i = i + 1;
    }
    assert(chars@.take(n as int) =~= chars@);
    assert(!has_double_slash(chars@));
    if slashes >= MAX_PATH_DEPTH {
        return Err(ValidationError::PathTooDeep);
    }
    let mut k: usize = 0;
    while k < n
        invariant
            k <= n,
            n == chars@.len(),
            chars@ == path@,
            n > 0,
            encode_utf8(path@).len() <= MAX_PATH_LENGTH,
            chars@[0] != '/' && chars@.last() != '/',
            !has_double_slash(chars@),
            slash_count(chars@) + 1 <= MAX_PATH_DEPTH,
            first_bad_char(chars@, 0) == first_bad_char(chars@, k as int),
        decreases n - k,
    {
        let c = chars[k];
        if !(c == '/' || char_is_alphanumeric(c) || c == '_' || c == '-') {
            return Err(ValidationError::InvalidCharacter(c));
        }
        k = k + 1;
    }
    Ok(())
}

/// Checks the size of a payload: it is not empty and holds at most 100 MiB.
pub fn validate_data_size(data: &[u8]) -> (r: Result<(), ValidationError>)
    ensures
        r == if data@.len() == 0 {
            Err::<(), ValidationError>(ValidationError::EmptyData)
        } else if data@.len() > MAX_DATA_SIZE {
            Err::<(), ValidationError>(ValidationError::DataTooLarge)
        } else {
            Ok::<(), ValidationError>(())
        },
{
    if data.len() == 0 {
        Err(ValidationError::EmptyData)
    } else if data.len() > MAX_DATA_SIZE {
        Err(ValidationError::DataTooLarge)
    } else {
        Ok(())
    }
}

/// Whether `part` stands somewhere in `s`.
pub open spec fn contains_text(s: Seq<char>, part: Seq<char>) -> bool {
    exists|i: int| 0 <= i && i + part.len() <= s.len() && #[trigger] s.subrange(i, i + part.len())
        == part
}

/// Whether `part` stands somewhere in `s`.
pub fn text_contains(s: &Vec<char>, part: &Vec<char>) -> (r: bool)
    ensures
        r == contains_text(s@, part@),
{
    if part.len() > s.len() {
        return false;
    }
    let last = s.len() - part.len();
    let mut i: usize = 0;
    loop
        invariant
            i <= last,
            last == s.len() - part.len(),
            part.len() <= s.len(),
            forall|j: int| 0 <= j < i ==> #[trigger] s@.subrange(j, j + part@.len()) != part@,
        decreases last - i,
    {
        let ghost window = s@.subrange(i as int, i + part@.len());
        let mut j: usize = 0;
        let mut same = true;
        while j < part.len() && same
            invariant
                j <= part.len(),
                i + part.len() <= s.len(),
                window == s@.subrange(i as int, i + part@.len()),
                same ==> forall|k: int| 0 <= k < j ==> window[k] == part@[k],
                !same ==> window != part@,
            decreases part.len() - j,
        {
            if s[i + j] != part[j] {
                assert(window[j as int] != part@[j as int]);
                same = false;
            }
            j = j + 1;
        }
        if same {
            assert(window =~= part@);
            return true;
        }
        if i == last {
            return false;
        }
        i = i + 1;
    }
}

/// What is wrong with a rules text, the first of: it is empty; it is longer
/// than 1 MiB; `service cloud.firestore` does not stand in it.
pub open spec fn rules_error(rules: Seq<char>) -> Option<ValidationError> {
    if rules.len() == 0 {
        Some(ValidationError::EmptyRules)
    } else if encode_utf8(rules).len() > MAX_RULES_SIZE {
        Some(ValidationError::RulesTooLarge)
    } else if !contains_text(rules, "service cloud.firestore"@) {
        Some(ValidationError::MissingService)
    } else {
        None
    }
}

/// Checks the form of a rules text.
pub fn validate_rules(rules: &str) -> (r: Result<(), ValidationError>)
    ensures
        r == match rules_error(rules@) {
            Some(e) => Err::<(), ValidationError>(e),
            None => Ok::<(), ValidationError>(()),
        },
{
    let chars = chars_of(rules);
    if chars.len() == 0 {
        return Err(ValidationError::EmptyRules);
    }
    if rules.as_bytes().len() > MAX_RULES_SIZE {
        return Err(ValidationError::RulesTooLarge);
    }
    let marker = chars_of("service cloud.firestore");
    if !text_contains(&chars, &marker) {
        return Err(ValidationError::MissingService);
    }
    Ok(())
}

/// The requests that are not older than `window` at the time `now`, given
/// that `times` is in the order of arrival: the old ones at its front are
/// dropped.
pub open spec fn recent(times: Seq<u64>, now: u64, window: u64) -> Seq<u64>
    decreases times.len(),
{
    if times.len() > 0 && now > times[0] && now - times[0] > window {
        recent(times.drop_first(), now, window)
    } else {
        times
    }
}

/// Lets at most `max_requests` requests through in any window of
/// `window_secs` seconds.
pub struct RateLimiter {
    max_requests: usize,
    window_secs: u64,
    requests: VecDeque<u64>,
}

impl RateLimiter {
    /// The times, in nanoseconds, of the requests that were let through and
    /// are still remembered, in the order of their arrival.
    pub closed spec fn times(&self) -> Seq<u64> {
        self.requests@
    }

    /// The number of requests allowed in one window.
    pub closed spec fn limit(&self) -> usize {
        self.max_requests
    }

    /// The length of the window in nanoseconds, or the largest `u64` where
    /// that is less.
    pub closed spec fn window(&self) -> u64 {
        if self.window_secs as int * 1000000000 > u64::MAX {
            u64::MAX
        } else {
            (self.window_secs * 1000000000) as u64
        }
    }

    /// A limiter that lets `max_requests` requests through in any
    /// `window_secs` seconds.
    pub fn new(max_requests: usize, window_secs: u64) -> (r: Self)
        ensures
            r.times() == Seq::<u64>::empty(),
            r.limit() == max_requests,
            r.window() == if window_secs * 1000000000 > u64::MAX {
                u64::MAX
            } else {
                (window_secs * 1000000000) as u64
            },
    {
        RateLimiter { max_requests, window_secs, requests: VecDeque::new() }
    }

    /// Decides on a request that arrives at the time `now`, in nanoseconds:
    /// requests older than the window are forgotten, and the request is let
    /// through and remembered unless as many as the limit remain.
    pub fn check_at(&mut self, now: u64) -> (r: Result<(), ValidationError>)
        ensures
            final(self).limit() == old(self).limit(),
            final(self).window() == old(self).window(),
            ({
                let kept = recent(old(self).times(), now, old(self).window());
                if kept.len() >= old(self).limit() {
                    r == Err::<(), ValidationError>(ValidationError::RateLimitExceeded) && final(self).times() == kept
                } else {
                    r is Ok && final(self).times() == kept.push(now)
                }
            }),
    {
        let window: u64 = match self.window_secs.checked_mul(1000000000) {
            Some(w) => w,
            None => u64::MAX,
        };
        while self.requests.len() > 0 && now > self.requests[0] && now - self.requests[0] > window
            invariant
                self.max_requests == old(self).max_requests,
                self.window_secs == old(self).window_secs,
                window == old(self).window(),
                recent(old(self).requests@, now, window) == recent(self.requests@, now, window),
            decreases self.requests@.len(),
        {
            let _ = self.requests.pop_front();
        }
        if self.requests.len() >= self.max_requests {
            return Err(ValidationError::RateLimitExceeded);
        }
        self.requests.push_back(now);
        Ok(())
    }

    /// Whether the limiter is what `check_at` makes of `before` for a
    /// request at the time `now` that it answers with `r`.
    pub open spec fn is_after_check(
        &self,
        before: &Self,
        now: u64,
        r: Result<(), ValidationError>,
    ) -> bool {
        let kept = recent(before.times(), now, before.window());
        if kept.len() >= before.limit() {
            r == Err::<(), ValidationError>(ValidationError::RateLimitExceeded) && self.times()
                == kept
        } else {
            r is Ok && self.times() == kept.push(now)
        }
    }

    /// Decides on a request that arrives now: what `check_at` does at the
    /// time of the machine's clock.
    pub fn check(&mut self) -> (r: Result<(), ValidationError>)
        ensures
            final(self).limit() == old(self).limit(),
            final(self).window() == old(self).window(),
            exists|now: u64| #[trigger] final(self).is_after_check(old(self), now, r),
            r matches Err(e) ==> e == ValidationError::RateLimitExceeded,
            old(self).times().len() < old(self).limit() ==> r is Ok,
    {
        let now = crate::store::io::now_nanos();
        proof {
            lemma_recent_len(self.times(), now, self.window());
        }
        let r = self.check_at(now);
        proof {
            assert(self.is_after_check(old(self), now, r));
        }
        r
    }
}

/// Forgetting old requests does not add any.
pub proof fn lemma_recent_len(times: Seq<u64>, now: u64, window: u64)
    ensures
        recent(times, now, window).len() <= times.len(),
    decreases times.len(),
{
    if times.len() > 0 && now > times[0] && now - times[0] > window {
        lemma_recent_len(times.drop_first(), now, window);
    }
}

} // verus!
