//! Error information attached to spans.
use vstd::prelude::*;

use crate::text::string_of;

verus! {

/// Type of error detected in logs.
#[derive(Debug, Clone, Copy, PartialEq, Eq, Structural)]
pub enum ErrorType {
    Throw,
    Catch,
    Exception,
    Panic,
    Rejection,
    Timeout,
    Unknown,
}

/// The label under which an error type is shown.
pub open spec fn error_type_label(t: ErrorType) -> Seq<char> {
    match t {
        ErrorType::Throw => "THROW"@,
        ErrorType::Catch => "CATCH"@,
        ErrorType::Exception => "EXCEPTION"@,
        ErrorType::Panic => "PANIC"@,
        ErrorType::Rejection => "REJECTED"@,
        ErrorType::Timeout => "TIMEOUT"@,
        ErrorType::Unknown => "ERROR"@,
    }
}

impl ErrorType {
    /// The label under which the error type is shown (`THROW`, `ERROR`, ...).
    pub fn to_string(&self) -> (s: String)
        ensures
            s@ == error_type_label(*self),
    {
        match self {
            ErrorType::Throw => string_of("THROW"),
            ErrorType::Catch => string_of("CATCH"),
            ErrorType::Exception => string_of("EXCEPTION"),
            ErrorType::Panic => string_of("PANIC"),
            ErrorType::Rejection => string_of("REJECTED"),
            ErrorType::Timeout => string_of("TIMEOUT"),
            ErrorType::Unknown => string_of("ERROR"),
        }
    }
}

/// A single frame in a stack trace.
#[derive(Debug, Clone, PartialEq, Eq)]
pub struct StackFrame {
    pub function_name: String,
    pub file: Option<String>,
    pub line: Option<u32>,
    pub column: Option<u32>,
}

/// Enriched error information extracted from log events.
#[derive(Debug, Clone, PartialEq)]
pub struct ErrorDetail {
    pub message: String,
    pub error_type: ErrorType,
    pub stack_trace: Option<Vec<StackFrame>>,
    pub source_location: Option<String>,
    pub caught: bool,
}

impl ErrorDetail {
    /// An error with the given message and type, no stack trace, no source
    /// location, not caught.
    pub fn new(message: &str, error_type: ErrorType) -> (d: ErrorDetail)
        ensures
            d.message@ == message@,
            d.error_type == error_type,
            d.stack_trace is None,
            d.source_location is None,
            !d.caught,
    {
        ErrorDetail {
            message: string_of(message),
            error_type,
            stack_trace: None,
            source_location: None,
            caught: false,
        }
    }
}

} // verus!
