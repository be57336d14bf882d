//! The library's errors, the context that is added to them, and what to do
//! about each kind of them.

use crate::store::io::IoErrorKind;
use crate::text::{chars_of, string_of};
use vstd::prelude::*;

verus! {

/// What went wrong, with a message.
#[derive(Debug, Clone)]
pub enum FireLocalError {
    /// Reading or writing the storage failed.
    Io(String),
    /// An input was refused.
    Validation(String),
    /// The store is in a state that it cannot work with.
    Storage(String),
    /// A transaction could not be carried out.
    Transaction(String),
    /// A security check failed.
    Security(String),
    /// The configuration is not in order.
    Configuration(String),
    /// A value could not be read or written as text.
    Serialization(String),
    /// The remote store could not be reached.
    Network(String),
    /// What was asked for is not there.
    NotFound(String),
    /// The rules do not allow the operation.
    PermissionDenied(String),
    /// Too many requests in too short a time.
    RateLimitExceeded(String),
    /// Stored data is damaged.
    Corruption(String),
    /// Anything else.
    Generic(String),
}

/// The kinds of errors.
#[derive(Clone, Copy, Debug, PartialEq, Eq, Structural)]
pub enum ErrorKind {
    Io,
    Validation,
    Storage,
    Transaction,
    Security,
    Configuration,
    Serialization,
    Network,
    NotFound,
    PermissionDenied,
    RateLimitExceeded,
    Corruption,
    Generic,
}

/// The words that an error of a kind begins with when it is shown.
pub open spec fn kind_label(kind: ErrorKind) -> Seq<char> {
    match kind {
        ErrorKind::Io => "I/O Error"@,
        ErrorKind::Validation => "Validation Error"@,
        ErrorKind::Storage => "Storage Error"@,
        ErrorKind::Transaction => "Transaction Error"@,
        ErrorKind::Security => "Security Error"@,
        ErrorKind::Configuration => "Configuration Error"@,
        ErrorKind::Serialization => "Serialization Error"@,
        ErrorKind::Network => "Network Error"@,
        ErrorKind::NotFound => "Not Found"@,
        ErrorKind::PermissionDenied => "Permission Denied"@,
        ErrorKind::RateLimitExceeded => "Rate Limit Exceeded"@,
        ErrorKind::Corruption => "Database Corruption"@,
        ErrorKind::Generic => "Error"@,
    }
}

/// The kind of failure of input and output that stands for an error of the
/// given kind where such a failure is asked for.
pub open spec fn io_kind_of(kind: ErrorKind) -> IoErrorKind {
    match kind {
        ErrorKind::Io => IoErrorKind::Other,
        ErrorKind::NotFound => IoErrorKind::NotFound,
        ErrorKind::PermissionDenied => IoErrorKind::PermissionDenied,
        ErrorKind::Validation => IoErrorKind::InvalidInput,
        ErrorKind::Corruption => IoErrorKind::InvalidData,
        ErrorKind::RateLimitExceeded => IoErrorKind::WouldBlock,
        ErrorKind::Network => IoErrorKind::ConnectionAborted,
        ErrorKind::Storage => IoErrorKind::Other,
        ErrorKind::Transaction => IoErrorKind::Other,
        ErrorKind::Security => IoErrorKind::PermissionDenied,
        ErrorKind::Configuration => IoErrorKind::InvalidInput,
        ErrorKind::Serialization => IoErrorKind::InvalidData,
        ErrorKind::Generic => IoErrorKind::Other,
    }
}

impl FireLocalError {
    /// The error's kind.
    pub open spec fn kind(&self) -> ErrorKind {
        match self {
            FireLocalError::Io(_) => ErrorKind::Io,
            FireLocalError::Validation(_) => ErrorKind::Validation,
            FireLocalError::Storage(_) => ErrorKind::Storage,
            FireLocalError::Transaction(_) => ErrorKind::Transaction,
            FireLocalError::Security(_) => ErrorKind::Security,
            FireLocalError::Configuration(_) => ErrorKind::Configuration,
            FireLocalError::Serialization(_) => ErrorKind::Serialization,
            FireLocalError::Network(_) => ErrorKind::Network,
            FireLocalError::NotFound(_) => ErrorKind::NotFound,
            FireLocalError::PermissionDenied(_) => ErrorKind::PermissionDenied,
            FireLocalError::RateLimitExceeded(_) => ErrorKind::RateLimitExceeded,
            FireLocalError::Corruption(_) => ErrorKind::Corruption,
            FireLocalError::Generic(_) => ErrorKind::Generic,
        }
    }

    /// The error's message.
    pub open spec fn message(&self) -> Seq<char> {
        match self {
            FireLocalError::Io(m) => m@,
            FireLocalError::Validation(m) => m@,
            FireLocalError::Storage(m) => m@,
            FireLocalError::Transaction(m) => m@,
            FireLocalError::Security(m) => m@,
            FireLocalError::Configuration(m) => m@,
            FireLocalError::Serialization(m) => m@,
            FireLocalError::Network(m) => m@,
            FireLocalError::NotFound(m) => m@,
            FireLocalError::PermissionDenied(m) => m@,
            FireLocalError::RateLimitExceeded(m) => m@,
            FireLocalError::Corruption(m) => m@,
            FireLocalError::Generic(m) => m@,
        }
    }

    /// The error as it is shown: the label of its kind, a colon, its
    /// message.
    pub open spec fn text(&self) -> Seq<char> {
        kind_label(self.kind()) + ": "@ + self.message()
    }

    /// The error's kind.
    pub fn error_kind(&self) -> (r: ErrorKind)
        ensures
            r == self.kind(),
    {
        match self {
            FireLocalError::Io(_) => ErrorKind::Io,
            FireLocalError::Validation(_) => ErrorKind::Validation,
            FireLocalError::Storage(_) => ErrorKind::Storage,
            FireLocalError::Transaction(_) => ErrorKind::Transaction,
            FireLocalError::Security(_) => ErrorKind::Security,
            FireLocalError::Configuration(_) => ErrorKind::Configuration,
            FireLocalError::Serialization(_) => ErrorKind::Serialization,
            FireLocalError::Network(_) => ErrorKind::Network,
            FireLocalError::NotFound(_) => ErrorKind::NotFound,
            FireLocalError::PermissionDenied(_) => ErrorKind::PermissionDenied,
            FireLocalError::RateLimitExceeded(_) => ErrorKind::RateLimitExceeded,
            FireLocalError::Corruption(_) => ErrorKind::Corruption,
            FireLocalError::Generic(_) => ErrorKind::Generic,
        }
    }

    /// The error's message.
    pub fn message_text(&self) -> (r: &String)
        ensures
            r@ == self.message(),
    {
        match self {
            FireLocalError::Io(m) => m,
            FireLocalError::Validation(m) => m,
            FireLocalError::Storage(m) => m,
            FireLocalError::Transaction(m) => m,
            FireLocalError::Security(m) => m,
            FireLocalError::Configuration(m) => m,
            FireLocalError::Serialization(m) => m,
            FireLocalError::Network(m) => m,
            FireLocalError::NotFound(m) => m,
            FireLocalError::PermissionDenied(m) => m,
            FireLocalError::RateLimitExceeded(m) => m,
            FireLocalError::Corruption(m) => m,
            FireLocalError::Generic(m) => m,
        }
    }

    /// An error of the given kind with the given message.
    pub fn of_kind(kind: ErrorKind, message: String) -> (r: FireLocalError)
        ensures
            r.kind() == kind,
            r.message() == message@,
    {
        match kind {
            ErrorKind::Io => FireLocalError::Io(message),
            ErrorKind::Validation => FireLocalError::Validation(message),
            ErrorKind::Storage => FireLocalError::Storage(message),
            ErrorKind::Transaction => FireLocalError::Transaction(message),
            ErrorKind::Security => FireLocalError::Security(message),
            ErrorKind::Configuration => FireLocalError::Configuration(message),
            ErrorKind::Serialization => FireLocalError::Serialization(message),
            ErrorKind::Network => FireLocalError::Network(message),
            ErrorKind::NotFound => FireLocalError::NotFound(message),
            ErrorKind::PermissionDenied => FireLocalError::PermissionDenied(message),
            ErrorKind::RateLimitExceeded => FireLocalError::RateLimitExceeded(message),
            ErrorKind::Corruption => FireLocalError::Corruption(message),
            ErrorKind::Generic => FireLocalError::Generic(message),
        }
    }

    /// The error as it is shown.
    pub fn to_string(&self) -> (r: String)
        ensures
            r@ == self.text(),
    {
        let label = match self {
            FireLocalError::Io(_) => "I/O Error",
            FireLocalError::Validation(_) => "Validation Error",
            FireLocalError::Storage(_) => "Storage Error",
            FireLocalError::Transaction(_) => "Transaction Error",
            FireLocalError::Security(_) => "Security Error",
            FireLocalError::Configuration(_) => "Configuration Error",
            FireLocalError::Serialization(_) => "Serialization Error",
            FireLocalError::Network(_) => "Network Error",
            FireLocalError::NotFound(_) => "Not Found",
            FireLocalError::PermissionDenied(_) => "Permission Denied",
            FireLocalError::RateLimitExceeded(_) => "Rate Limit Exceeded",
            FireLocalError::Corruption(_) => "Database Corruption",
            FireLocalError::Generic(_) => "Error",
        };
        let mut out = chars_of(label);
        push_text(&mut out, ": ");
        push_text(&mut out, self.message_text().as_str());
        string_of(out.as_slice())
    }
}

/// An error of the standard library's input and output.
#[verifier::external_type_specification]
#[verifier::external_body]
pub struct ExIoError(std::io::Error);

/// An error of `serde_json`.
#[verifier::external_type_specification]
#[verifier::external_body]
pub struct ExJsonError(serde_json::Error);

/// `std::io::Error::to_string`: the error as it is shown. Nothing is known
/// of the text.
#[verifier::external_body]
fn io_error_text(err: &std::io::Error) -> String {
    err.to_string()
}

/// `serde_json::Error::to_string`: the error as it is shown. Nothing is
/// known of the text.
#[verifier::external_body]
fn json_error_text(err: &serde_json::Error) -> String {
    err.to_string()
}

impl FireLocalError {
    /// The kind of failure of input and output that stands for the error.
    pub fn io_kind(&self) -> (r: IoErrorKind)
        ensures
            r == io_kind_of(self.kind()),
    {
        match self {
            FireLocalError::Io(_) => IoErrorKind::Other,
            FireLocalError::NotFound(_) => IoErrorKind::NotFound,
            FireLocalError::PermissionDenied(_) => IoErrorKind::PermissionDenied,
            FireLocalError::Validation(_) => IoErrorKind::InvalidInput,
            FireLocalError::Corruption(_) => IoErrorKind::InvalidData,
            FireLocalError::RateLimitExceeded(_) => IoErrorKind::WouldBlock,
            FireLocalError::Network(_) => IoErrorKind::ConnectionAborted,
            FireLocalError::Storage(_) => IoErrorKind::Other,
            FireLocalError::Transaction(_) => IoErrorKind::Other,
            FireLocalError::Security(_) => IoErrorKind::PermissionDenied,
            FireLocalError::Configuration(_) => IoErrorKind::InvalidInput,
            FireLocalError::Serialization(_) => IoErrorKind::InvalidData,
            FireLocalError::Generic(_) => IoErrorKind::Other,
        }
    }
}

impl FireLocalError {
    /// The `Io` error whose message is `err` as it is shown.
    pub fn from_io(err: std::io::Error) -> (r: FireLocalError)
        ensures
            r.kind() == ErrorKind::Io,
    {
        FireLocalError::Io(io_error_text(&err))
    }

    /// The `Serialization` error whose message is `JSON error: ` and `err`
    /// as it is shown.
    pub fn from_json(err: serde_json::Error) -> (r: FireLocalError)
        ensures
            r.kind() == ErrorKind::Serialization,
    {
        let mut out = chars_of("JSON error: ");
        push_text(&mut out, json_error_text(&err).as_str());
        FireLocalError::Serialization(string_of(out.as_slice()))
    }
}

impl From<std::io::Error> for FireLocalError {
    fn from(err: std::io::Error) -> (r: Self) {
        FireLocalError::from_io(err)
    }
}

impl vstd::std_specs::convert::FromSpecImpl<std::io::Error> for FireLocalError {
    open spec fn obeys_from_spec() -> bool {
        false
    }

    open spec fn from_spec(err: std::io::Error) -> Self {
        arbitrary()
    }
}

impl From<serde_json::Error> for FireLocalError {
    fn from(err: serde_json::Error) -> (r: Self) {
        FireLocalError::from_json(err)
    }
}

impl vstd::std_specs::convert::FromSpecImpl<serde_json::Error> for FireLocalError {
    open spec fn obeys_from_spec() -> bool {
        false
    }

    open spec fn from_spec(err: serde_json::Error) -> Self {
        arbitrary()
    }
}

/// Adds the characters of `s` to `out`.
pub fn push_text(out: &mut Vec<char>, s: &str)
    ensures
        final(out)@ == old(out)@ + s@,
{
    let mut chars = chars_of(s);
    out.append(&mut chars);
}

/// The strings of `parts` with `separator` between them.
pub open spec fn joined_with(parts: Seq<Seq<char>>, separator: Seq<char>) -> Seq<char>
    decreases parts.len(),
{
    if parts.len() == 0 {
        Seq::empty()
    } else if parts.len() == 1 {
        parts[0]
    } else {
        joined_with(parts.drop_last(), separator) + separator + parts.last()
    }
}

/// The message of an error once its context was added: the operation, a
/// colon and the error as it is shown; then the path in brackets, where one
/// is given; then a dash and the details with commas between them, where
/// there are any.
pub open spec fn context_message(
    operation: Seq<char>,
    path: Option<Seq<char>>,
    details: Seq<Seq<char>>,
    error_text: Seq<char>,
) -> Seq<char> {
    let base = operation + ": "@ + error_text;
    let located = match path {
        Some(p) => base + " (path: "@ + p + ")"@,
        None => base,
    };
    if details.len() > 0 {
        located + " - "@ + joined_with(details, ", "@)
    } else {
        located
    }
}

/// The operation, the path and the details that are added to an error's
/// message.
#[derive(Debug, Clone)]
pub struct ErrorContext {
    operation: String,
    path: Option<String>,
    details: Vec<String>,
}

impl ErrorContext {
    /// The operation that failed.
    pub closed spec fn operation(&self) -> Seq<char> {
        self.operation@
    }

    /// The path that the operation was about, where one was given.
    pub closed spec fn path(&self) -> Option<Seq<char>> {
        match self.path {
            Some(p) => Some(p@),
            None => None,
        }
    }

    /// The details that were given, in their order.
    pub closed spec fn details(&self) -> Seq<Seq<char>> {
        Seq::new(self.details@.len(), |i: int| self.details@[i]@)
    }

    /// The context of an operation, without a path or details.
    pub fn new(operation: &str) -> (r: Self)
        ensures
            r.operation() == operation@,
            r.path() is None,
            r.details() == Seq::<Seq<char>>::empty(),
    {
        let r = ErrorContext { operation: operation.to_owned(), path: None, details: Vec::new() };
        assert(r.details() =~= Seq::<Seq<char>>::empty());
        r
    }

    /// The context with `path` as its path.
    pub fn with_path(self, path: &str) -> (r: Self)
        ensures
            r.operation() == self.operation(),
            r.path() == Some(path@),
            r.details() == self.details(),
    {
        ErrorContext { operation: self.operation, path: Some(path.to_owned()), details: self.details }
    }

    /// The context with `detail` behind its details.
    pub fn with_detail(self, detail: &str) -> (r: Self)
        ensures
            r.operation() == self.operation(),
            r.path() == self.path(),
            r.details() == self.details().push(detail@),
    {
        let mut details = self.details;
        details.push(detail.to_owned());
        let r = ErrorContext { operation: self.operation, path: self.path, details };
        assert(r.details() =~= self.details().push(detail@));
        r
    }

    /// The error of the same kind as `error` whose message tells the
    /// context as well.
    pub fn build(self, error: FireLocalError) -> (r: FireLocalError)
        ensures
            r.kind() == error.kind(),
            r.message() == context_message(
                self.operation(),
                self.path(),
                self.details(),
                error.text(),
            ),
    {
        let mut out = chars_of(self.operation.as_str());
        push_text(&mut out, ": ");
        push_text(&mut out, error.to_string().as_str());
        match &self.path {
            Some(p) => {
                push_text(&mut out, " (path: ");
                push_text(&mut out, p.as_str());
                push_text(&mut out, ")");
            },
            None => {},
        }
        if self.details.len() > 0 {
            push_text(&mut out, " - ");
            let ghost located = out@;
            let ghost parts = self.details();
            let mut i: usize = 0;
            while i < self.details.len()
                invariant
                    i <= self.details.len(),
                    parts == self.details(),
                    parts.len() == self.details@.len(),
                    out@ == located + joined_with(parts.take(i as int), ", "@),
                decreases self.details.len() - i,
            {
                proof {
                    let next = parts.take(i + 1);
                    assert(next.drop_last() =~= parts.take(i as int));
                    assert(next.last() == self.details@[i as int]@);
                    if i == 0 {
                        assert(joined_with(parts.take(0), ", "@) =~= Seq::<char>::empty());
                    } else {
                        assert(located + (joined_with(parts.take(i as int), ", "@) + ", "@
                            + next.last()) =~= located + joined_with(parts.take(i as int), ", "@)
                            + ", "@ + next.last());
                    }
                }
                if i > 0 {
                    push_text(&mut out, ", ");
                }
                push_text(&mut out, self.details[i].as_str());
                i = i + 1;
            }
            assert(parts.take(self.details.len() as int) =~= parts);
        }
        FireLocalError::of_kind(error.error_kind(), string_of(out.as_slice()))
    }
}

/// What to do about an error.
#[derive(Debug, Clone)]
pub enum RecoveryStrategy {
    /// Try again, up to `max_attempts` times, `delay_ms` after the first
    /// failure.
    Retry { max_attempts: u32, delay_ms: u64 },
    /// Do it another way.
    Fallback(String),
    /// Leave the operation out and go on.
    Skip,
    /// Give the whole operation up.
    Abort,
}

impl Default for RecoveryStrategy {
    fn default() -> (r: Self)
        ensures
            r == (RecoveryStrategy::Retry { max_attempts: 3, delay_ms: 100 }),
    {
        RecoveryStrategy::Retry { max_attempts: 3, delay_ms: 100 }
    }
}

/// The strategy for an error of a kind.
pub open spec fn strategy_for(kind: ErrorKind) -> RecoveryStrategy {
    match kind {
        ErrorKind::Io => RecoveryStrategy::Retry { max_attempts: 3, delay_ms: 100 },
        ErrorKind::Network => RecoveryStrategy::Retry { max_attempts: 5, delay_ms: 1000 },
        ErrorKind::RateLimitExceeded => RecoveryStrategy::Retry { max_attempts: 2, delay_ms: 5000 },
        ErrorKind::Validation => RecoveryStrategy::Abort,
        ErrorKind::PermissionDenied => RecoveryStrategy::Abort,
        ErrorKind::NotFound => RecoveryStrategy::Skip,
        ErrorKind::Corruption => RecoveryStrategy::Abort,
        _ => RecoveryStrategy::Retry { max_attempts: 3, delay_ms: 100 },
    }
}

/// The strategy for an error: failures of the storage, of the network and
/// of the rate limit are tried again; refused inputs, denied operations and
/// damaged data end the operation; what is not found is passed over.
pub fn get_recovery_strategy(error: &FireLocalError) -> (r: RecoveryStrategy)
    ensures
        r == strategy_for(error.kind()),
{
    match error {
        FireLocalError::Io(_) => RecoveryStrategy::Retry { max_attempts: 3, delay_ms: 100 },
        FireLocalError::Network(_) => RecoveryStrategy::Retry { max_attempts: 5, delay_ms: 1000 },
        FireLocalError::RateLimitExceeded(_) => RecoveryStrategy::Retry {
            max_attempts: 2,
            delay_ms: 5000,
        },
        FireLocalError::Validation(_) => RecoveryStrategy::Abort,
        FireLocalError::PermissionDenied(_) => RecoveryStrategy::Abort,
        FireLocalError::NotFound(_) => RecoveryStrategy::Skip,
        FireLocalError::Corruption(_) => RecoveryStrategy::Abort,
        _ => RecoveryStrategy::Retry { max_attempts: 3, delay_ms: 100 },
    }
}

/// What follows a failed attempt.
#[derive(Clone, Copy, Debug, PartialEq, Eq, Structural)]
pub enum RetryStep {
    /// Wait `wait_ms`, try again, and wait `next_delay_ms` after the next
    /// failure.
    Wait { wait_ms: u64, next_delay_ms: u64 },
    /// The attempts are used up: the failure stands.
    GiveUp,
}

/// What follows the failure of the attempt with the given number, counted
/// from 1, where `max_attempts` are allowed and `delay_ms` is the wait that
/// is due: another attempt after the wait, the wait doubling each time (up
/// to the largest `u64`), until the attempts are used up.
pub fn retry_step(attempt: u32, max_attempts: u32, delay_ms: u64) -> (r: RetryStep)
    ensures
        r == if attempt >= max_attempts {
            RetryStep::GiveUp
        } else {
            RetryStep::Wait {
                wait_ms: delay_ms,
                next_delay_ms: if delay_ms * 2 > u64::MAX {
                    u64::MAX
                } else {
                    (delay_ms * 2) as u64
                },
            }
        },
{
    if attempt >= max_attempts {
        RetryStep::GiveUp
    } else {
        let next = if delay_ms > u64::MAX / 2 {
            u64::MAX
        } else {
            delay_ms * 2
        };
        RetryStep::Wait { wait_ms: delay_ms, next_delay_ms: next }
    }
}

} // verus!
