//! Detection and enrichment of errors.
use vstd::prelude::*;

use super::patterns::{error_match, match_error, ErrorMatchModel, ErrorPatternMatch};
use crate::model::error::{ErrorDetail, ErrorType};
use crate::text::{contains_lower, contains_lower_exec, to_chars};

verus! {

/// The error type a pattern match stands for: a throw, an exception, or a
/// type named in the exception name (timeout, rejection, panic).
pub open spec fn match_error_type(e: ErrorMatchModel) -> ErrorType {
    if e.is_throw {
        ErrorType::Throw
    } else if e.is_exception {
        ErrorType::Exception
    } else {
        match e.exception_name {
            Some(n) => if contains_lower(n, "timeout"@) {
                ErrorType::Timeout
            } else if contains_lower(n, "reject"@) {
                ErrorType::Rejection
            } else if contains_lower(n, "panic"@) {
                ErrorType::Panic
            } else {
                ErrorType::Unknown
            },
            None => ErrorType::Unknown,
        }
    }
}

/// The error type named by keywords of a message (in any case), tried in
/// this order: throw, exception, panic, timeout ("timeout", "timed out" or
/// "deadline exceeded"), rejection ("reject"). No other word names a type:
/// `raise` is not read as a throw, `catch`, `caught`, `handled` or `rescue`
/// not as a catch, and a retry is no type of error; such messages are
/// `Unknown` unless one of the words above occurs.
pub open spec fn message_error_type(m: Seq<char>) -> ErrorType {
    if contains_lower(m, "throw"@) {
        ErrorType::Throw
    } else if contains_lower(m, "exception"@) {
        ErrorType::Exception
    } else if contains_lower(m, "panic"@) {
        ErrorType::Panic
    } else if contains_lower(m, "timeout"@) || contains_lower(m, "timed out"@) || contains_lower(
        m,
        "deadline exceeded"@,
    ) {
        ErrorType::Timeout
    } else if contains_lower(m, "reject"@) {
        ErrorType::Rejection
    } else {
        ErrorType::Unknown
    }
}

/// Message and type of the error a message reports: what an error pattern
/// extracts when one matches, else the whole message with the type its
/// keywords name.
pub open spec fn error_detail_of(m: Seq<char>) -> (Seq<char>, ErrorType) {
    match error_match(m) {
        Some(e) => (e.message, match_error_type(e)),
        None => (m, message_error_type(m)),
    }
}

/// A message that no error pattern matches and that speaks of a timeout
/// ("timeout", "timed out" or "deadline exceeded", in any case) is a
/// timeout error, reported with the whole message, unless it also mentions
/// a throw, an exception or a panic, which come first.
pub proof fn law_timeout_keywords_give_timeout(m: Seq<char>)
    requires
        error_match(m) is None,
        contains_lower(m, "timeout"@) || contains_lower(m, "timed out"@) || contains_lower(
            m,
            "deadline exceeded"@,
        ),
        !contains_lower(m, "throw"@),
        !contains_lower(m, "exception"@),
        !contains_lower(m, "panic"@),
    ensures
        error_detail_of(m) == (m, ErrorType::Timeout),
{
}

/// A message that no error pattern matches and that mentions none of the
/// keywords is an error of unknown type, reported with the whole message.
pub proof fn law_no_keyword_gives_unknown(m: Seq<char>)
    requires
        error_match(m) is None,
        !contains_lower(m, "throw"@),
        !contains_lower(m, "exception"@),
        !contains_lower(m, "panic"@),
        !contains_lower(m, "timeout"@),
        !contains_lower(m, "timed out"@),
        !contains_lower(m, "deadline exceeded"@),
        !contains_lower(m, "reject"@),
    ensures
        error_detail_of(m) == (m, ErrorType::Unknown),
{
}

fn contains_lower_str(s: &[char], kw: &str) -> (r: bool)
    ensures
        r == contains_lower(s@, kw@),
{
    let k = to_chars(kw);
    contains_lower_exec(s, k.as_slice())
}

/// Determine the `ErrorType` from a pattern match.
fn resolve_error_type(pattern_match: &ErrorPatternMatch) -> (t: ErrorType)
    ensures
        forall|e: ErrorMatchModel|
            super::patterns::error_match_is(*pattern_match, e) ==> t == match_error_type(e),
{
    if pattern_match.is_throw {
        return ErrorType::Throw;
    }
    if pattern_match.is_exception {
        return ErrorType::Exception;
    }
    if let Some(name) = &pattern_match.exception_name {
        let lower = to_chars(name.as_str());
        if contains_lower_str(lower.as_slice(), "timeout") {
            return ErrorType::Timeout;
        }
        if contains_lower_str(lower.as_slice(), "reject") {
            return ErrorType::Rejection;
        }
        if contains_lower_str(lower.as_slice(), "panic") {
            return ErrorType::Panic;
        }
    }
    ErrorType::Unknown
}

/// Determine the `ErrorType` from a raw message when no pattern matched.
fn resolve_error_type_from_message(message: &str) -> (t: ErrorType)
    ensures
        t == message_error_type(message@),
{
    let lower = to_chars(message);
    let l = lower.as_slice();
    if contains_lower_str(l, "throw") {
        return ErrorType::Throw;
    }
    if contains_lower_str(l, "exception") {
        return ErrorType::Exception;
    }
    if contains_lower_str(l, "panic") {
        return ErrorType::Panic;
    }
    if contains_lower_str(l, "timeout") || contains_lower_str(l, "timed out") || contains_lower_str(
        l,
        "deadline exceeded",
    ) {
        return ErrorType::Timeout;
    }
    if contains_lower_str(l, "reject") {
        return ErrorType::Rejection;
    }
    ErrorType::Unknown
}

/// Build an `ErrorDetail` from a log message that is known to represent an error.
///
/// First tries structured pattern matching; falls back to using the raw message
/// with keyword-based type detection.
pub fn build_error_detail(message: &str) -> (d: ErrorDetail)
    ensures
        d.message@ == error_detail_of(message@).0,
        d.error_type == error_detail_of(message@).1,
        d.stack_trace is None,
        d.source_location is None,
        !d.caught,
{
    if let Some(pattern) = match_error(message) {
        let error_type = resolve_error_type(&pattern);
        ErrorDetail::new(pattern.message.as_str(), error_type)
    } else {
        let error_type = resolve_error_type_from_message(message);
        ErrorDetail::new(message, error_type)
    }
}

} // verus!
