//! Classification of log events into entries, exits, errors and plain logs.
pub mod error;
pub mod patterns;

use vstd::prelude::*;

use crate::model::error::ErrorDetail;
use crate::model::event::{ClassifiedEvent, EventKind, LogEvent, LogLevel};

use self::error::{build_error_detail, error_detail_of};
use self::patterns::{
    capture_text, entry_capture, error_match, exit_capture, match_entry, match_error, match_exit,
};

verus! {

/// `d` is the error detail built from message `m`.
pub open spec fn detail_from(d: ErrorDetail, m: Seq<char>) -> bool {
    &&& d.message@ == error_detail_of(m).0
    &&& d.error_type == error_detail_of(m).1
    &&& d.stack_trace is None
    &&& d.source_location is None
    &&& !d.caught
}

/// The name `o` holds, as text.
pub open spec fn opt_text(o: Option<String>) -> Option<Seq<char>> {
    match o {
        Some(s) => Some(s@),
        None => None,
    }
}

/// Kind an event is classified as:
/// 1. `Error` when its level is `Error` or `Fatal`;
/// 2. `Entry` when an ENTRY pattern matches its message;
/// 3. `Exit` when an EXIT pattern matches;
/// 4. `Error` when an error pattern matches;
/// 5. `Log` otherwise.
pub open spec fn classified_kind(e: LogEvent) -> EventKind {
    let m = e.message@;
    if e.level == LogLevel::Error || e.level == LogLevel::Fatal {
        EventKind::Error
    } else if entry_capture(m) is Some {
        EventKind::Entry
    } else if exit_capture(m) is Some {
        EventKind::Exit
    } else if error_match(m) is Some {
        EventKind::Error
    } else {
        EventKind::Log
    }
}

/// Function name a classified event carries: what the ENTRY patterns
/// capture for errors by level and entries, what the EXIT patterns capture
/// for exits, none otherwise.
pub open spec fn classified_name(e: LogEvent) -> Option<Seq<char>> {
    let m = e.message@;
    match classified_kind(e) {
        EventKind::Entry => capture_text(m, entry_capture(m)),
        EventKind::Exit => capture_text(m, exit_capture(m)),
        EventKind::Error => if e.level == LogLevel::Error || e.level == LogLevel::Fatal {
            capture_text(m, entry_capture(m))
        } else {
            None
        },
        EventKind::Log => None,
    }
}

/// `c` is the classification of `e`.
pub open spec fn classified_as(c: ClassifiedEvent, e: LogEvent) -> bool {
    &&& c.event == e
    &&& c.kind == classified_kind(e)
    &&& opt_text(c.function_name) == classified_name(e)
    &&& match c.error_detail {
        Some(d) => c.kind == EventKind::Error && detail_from(d, e.message@),
        None => c.kind != EventKind::Error,
    }
}

/// An event logged at level `Error` or `Fatal` is an error, whatever its
/// message, and carries an error detail; one logged at another level whose
/// message an ENTRY pattern matches is an entry named by what the pattern
/// captures (a non-empty piece of the message), with no error detail.
pub proof fn law_level_and_entry_classification(c: ClassifiedEvent, e: LogEvent)
    requires
        classified_as(c, e),
    ensures
        (e.level == LogLevel::Error || e.level == LogLevel::Fatal) ==> c.kind == EventKind::Error
            && c.error_detail is Some,
        !(e.level == LogLevel::Error || e.level == LogLevel::Fatal) && entry_capture(e.message@)
            is Some ==> {
            &&& c.kind == EventKind::Entry
            &&& c.error_detail is None
            &&& c.function_name matches Some(n) && n@.len() > 0 && exists|a: int|
                0 <= a && a + n@.len() <= e.message@.len() && #[trigger] e.message@.subrange(
                    a,
                    a + n@.len(),
                ) == n@
        },
{
    self::patterns::law_captures_lie_within_the_message(e.message@);
    if !(e.level == LogLevel::Error || e.level == LogLevel::Fatal) && entry_capture(e.message@) is Some {
        let (a, b) = entry_capture(e.message@)->0;
        assert(e.message@.subrange(a, a + (b - a)) == e.message@.subrange(a, b));
    }
}

/// An event logged as an error whose message no error pattern matches and
/// that speaks of a timeout ("timeout", "timed out" or "deadline exceeded")
/// without mentioning a throw, an exception or a panic carries a timeout
/// error with the whole message.
pub proof fn law_timeout_error_event(c: ClassifiedEvent, e: LogEvent)
    requires
        classified_as(c, e),
        e.level == LogLevel::Error || e.level == LogLevel::Fatal,
        error_match(e.message@) is None,
        crate::text::contains_lower(e.message@, "timeout"@) || crate::text::contains_lower(
            e.message@,
            "timed out"@,
        ) || crate::text::contains_lower(e.message@, "deadline exceeded"@),
        !crate::text::contains_lower(e.message@, "throw"@),
        !crate::text::contains_lower(e.message@, "exception"@),
        !crate::text::contains_lower(e.message@, "panic"@),
    ensures
        c.error_detail matches Some(d) && d.error_type == crate::model::error::ErrorType::Timeout
            && d.message@ == e.message@,
{
    self::error::law_timeout_keywords_give_timeout(e.message@);
}

/// Classify a raw `LogEvent` into a `ClassifiedEvent`, determining whether it
/// represents a function entry, exit, error, or generic log line.
///
/// Classification priority:
/// 1. If the log level is `Error` or `Fatal` → `EventKind::Error`
/// 2. Otherwise, try ENTRY patterns → `EventKind::Entry`
/// 3. Otherwise, try EXIT patterns → `EventKind::Exit`
/// 4. Otherwise, check for error patterns in the message → `EventKind::Error`
/// 5. Fallback → `EventKind::Log`
pub fn classify(event: LogEvent) -> (c: ClassifiedEvent)
    ensures
        classified_as(c, event),
{
    if matches!(event.level, LogLevel::Error | LogLevel::Fatal) {
        let error_detail = build_error_detail(event.message.as_str());
        let function_name = try_extract_function_name(event.message.as_str());
        return ClassifiedEvent {
            event,
            kind: EventKind::Error,
            function_name,
            error_detail: Some(error_detail),
        };
    }
    if let Some(m) = match_entry(event.message.as_str()) {
        return ClassifiedEvent {
            event,
            kind: EventKind::Entry,
            function_name: m.name,
            error_detail: None,
        };
    }
    if let Some(m) = match_exit(event.message.as_str()) {
        return ClassifiedEvent {
            event,
            kind: EventKind::Exit,
            function_name: m.name,
            error_detail: None,
        };
    }
    if match_error(event.message.as_str()).is_some() {
        let error_detail = build_error_detail(event.message.as_str());
        return ClassifiedEvent {
            event,
            kind: EventKind::Error,
            function_name: None,
            error_detail: Some(error_detail),
        };
    }
    ClassifiedEvent { event, kind: EventKind::Log, function_name: None, error_detail: None }
}

/// Convenience function to classify a batch of events.
pub fn classify_all(events: Vec<LogEvent>) -> (cs: Vec<ClassifiedEvent>)
    ensures
        cs@.len() == events@.len(),
        forall|i: int| 0 <= i < events@.len() ==> classified_as(#[trigger] cs@[i], events@[i]),
{
    let ghost es = events@;
    let mut out: Vec<ClassifiedEvent> = Vec::new();
    for e in it: events
        invariant
            it.seq() == es,
            out@.len() == it.index(),
            forall|i: int| 0 <= i < it.index() ==> classified_as(#[trigger] out@[i], es[i]),
    {
        out.push(classify(e));
    }
    out
}

/// Attempt to extract a function/class name from an error message.
/// Useful when the error message itself references a function (e.g. in an entry-like pattern).
fn try_extract_function_name(message: &str) -> (r: Option<String>)
    ensures
        opt_text(r) == capture_text(message@, entry_capture(message@)),
{
    if let Some(m) = match_entry(message) {
        return m.name;
    }
    None
}

} // verus!
