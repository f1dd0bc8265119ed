//! Turning raw log lines into structured events.
pub mod plain;

use vstd::prelude::*;

use crate::model::event::LogEvent;

verus! {

/// Parses raw log lines into structured `LogEvent`s.
///
/// Implementations handle different log formats (plain text, JSON, ...).
/// They return `None` for blank lines, which are skipped.
pub trait LogParser {
    fn parse_line(&self, line: &str, line_number: usize) -> Option<LogEvent>;
}

} // verus!
