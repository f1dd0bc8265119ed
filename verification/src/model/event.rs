//! Raw and classified log events.
use vstd::prelude::*;

use super::error::ErrorDetail;
use crate::text::string_of;

verus! {

/// Severity level of a log event.
#[derive(Debug, Clone, Copy, PartialEq, Eq, Structural)]
pub enum LogLevel {
    Trace,
    Debug,
    Info,
    Warn,
    Error,
    Fatal,
    Unknown,
}

/// The label under which a level is shown.
pub open spec fn log_level_label(l: LogLevel) -> Seq<char> {
    match l {
        LogLevel::Trace => "TRACE"@,
        LogLevel::Debug => "DEBUG"@,
        LogLevel::Info => "INFO"@,
        LogLevel::Warn => "WARN"@,
        LogLevel::Error => "ERROR"@,
        LogLevel::Fatal => "FATAL"@,
        LogLevel::Unknown => "UNKNOWN"@,
    }
}

impl LogLevel {
    /// The label under which the level is shown (`INFO`, `ERROR`, ...).
    pub fn to_string(&self) -> (s: String)
        ensures
            s@ == log_level_label(*self),
    {
        match self {
            LogLevel::Trace => string_of("TRACE"),
            LogLevel::Debug => string_of("DEBUG"),
            LogLevel::Info => string_of("INFO"),
            LogLevel::Warn => string_of("WARN"),
            LogLevel::Error => string_of("ERROR"),
            LogLevel::Fatal => string_of("FATAL"),
            LogLevel::Unknown => string_of("UNKNOWN"),
        }
    }
}

/// Raw log event parsed from a single line.
///
/// `timestamp` is the number of milliseconds since 1970-01-01 00:00:00 of the
/// (zone-less) date and time written in the line.
#[derive(Debug, Clone)]
pub struct LogEvent {
    pub timestamp: Option<i64>,
    pub level: LogLevel,
    pub message: String,
    pub request_id: Option<String>,
    pub trace_id: Option<String>,
    pub thread_id: Option<String>,
    pub source_location: Option<String>,
    pub raw_line: String,
    pub line_number: usize,
}

/// What kind of action a classified event represents.
#[derive(Debug, Clone, Copy, PartialEq, Eq, Structural)]
pub enum EventKind {
    Entry,
    Exit,
    Error,
    Log,
}

/// A `LogEvent` enriched with classification metadata.
#[derive(Debug, Clone)]
pub struct ClassifiedEvent {
    pub event: LogEvent,
    pub kind: EventKind,
    pub function_name: Option<String>,
    pub error_detail: Option<ErrorDetail>,
}

} // verus!
