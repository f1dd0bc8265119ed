use chrono::NaiveDate;
use flowtracer::model::error::StackFrame;
use flowtracer::model::trace::uuid_text;
use flowtracer::{
    ClassifiedEvent, ErrorDetail, ErrorType, EventKind, LogEvent, LogLevel, Span, SpanKind, Trace,
};

fn make_dt(h: u32, m: u32, s: u32) -> i64 {
    NaiveDate::from_ymd_opt(2026, 3, 12)
        .unwrap()
        .and_hms_opt(h, m, s)
        .unwrap()
        .and_utc()
        .timestamp_millis()
}

fn make_dt_milli(h: u32, m: u32, s: u32, ms: u32) -> i64 {
    NaiveDate::from_ymd_opt(2026, 3, 12)
        .unwrap()
        .and_hms_milli_opt(h, m, s, ms)
        .unwrap()
        .and_utc()
        .timestamp_millis()
}

// ── error ───────────────────────────────────────────────────────────────────

#[test]
fn error_type_display() {
    assert_eq!(ErrorType::Throw.to_string(), "THROW");
    assert_eq!(ErrorType::Catch.to_string(), "CATCH");
    assert_eq!(ErrorType::Exception.to_string(), "EXCEPTION");
    assert_eq!(ErrorType::Timeout.to_string(), "TIMEOUT");
    assert_eq!(ErrorType::Unknown.to_string(), "ERROR");
}

#[test]
fn error_type_display_remaining_labels() {
    assert_eq!(ErrorType::Panic.to_string(), "PANIC");
    assert_eq!(ErrorType::Rejection.to_string(), "REJECTED");
}

#[test]
fn error_detail_new_defaults() {
    let detail = ErrorDetail::new("something failed", ErrorType::Throw);
    assert_eq!(detail.message, "something failed");
    assert_eq!(detail.error_type, ErrorType::Throw);
    assert!(detail.stack_trace.is_none());
    assert!(detail.source_location.is_none());
    assert!(!detail.caught);
}

#[test]
fn error_detail_clone() {
    let detail = ErrorDetail {
        message: "timeout".into(),
        error_type: ErrorType::Timeout,
        stack_trace: Some(vec![StackFrame {
            function_name: "do_request".into(),
            file: Some("client.rs".into()),
            line: Some(42),
            column: None,
        }]),
        source_location: Some("client.rs:42".into()),
        caught: true,
    };
    let cloned = detail.clone();
    assert_eq!(detail, cloned);
}

// ── event ───────────────────────────────────────────────────────────────────

#[test]
fn log_level_display() {
    assert_eq!(LogLevel::Info.to_string(), "INFO");
    assert_eq!(LogLevel::Error.to_string(), "ERROR");
    assert_eq!(LogLevel::Unknown.to_string(), "UNKNOWN");
}

#[test]
fn log_level_display_remaining_labels() {
    assert_eq!(LogLevel::Trace.to_string(), "TRACE");
    assert_eq!(LogLevel::Debug.to_string(), "DEBUG");
    assert_eq!(LogLevel::Warn.to_string(), "WARN");
    assert_eq!(LogLevel::Fatal.to_string(), "FATAL");
}

#[test]
fn log_event_clone() {
    let event = LogEvent {
        timestamp: None,
        level: LogLevel::Info,
        message: "hello".into(),
        request_id: Some("abc-123".into()),
        trace_id: None,
        thread_id: None,
        source_location: None,
        raw_line: "[INFO] hello".into(),
        line_number: 1,
    };
    let cloned = event.clone();
    assert_eq!(cloned.message, "hello");
    assert_eq!(cloned.request_id, Some("abc-123".into()));
}

#[test]
fn classified_event_with_entry() {
    let event = LogEvent {
        timestamp: None,
        level: LogLevel::Info,
        message: "Executing CreateOrderController".into(),
        request_id: None,
        trace_id: None,
        thread_id: None,
        source_location: None,
        raw_line: "[INFO] Executing CreateOrderController".into(),
        line_number: 1,
    };
    let classified = ClassifiedEvent {
        event,
        kind: EventKind::Entry,
        function_name: Some("CreateOrderController".into()),
        error_detail: None,
    };
    assert_eq!(classified.kind, EventKind::Entry);
    assert_eq!(
        classified.function_name,
        Some("CreateOrderController".into())
    );
}

#[test]
fn classified_event_with_error() {
    let event = LogEvent {
        timestamp: None,
        level: LogLevel::Error,
        message: "No provider found".into(),
        request_id: None,
        trace_id: None,
        thread_id: None,
        source_location: None,
        raw_line: "[ERROR] No provider found".into(),
        line_number: 5,
    };
    let classified = ClassifiedEvent {
        event,
        kind: EventKind::Error,
        function_name: None,
        error_detail: Some(ErrorDetail::new("No provider found", ErrorType::Unknown)),
    };
    assert_eq!(classified.kind, EventKind::Error);
    assert!(classified.error_detail.is_some());
}

// ── span ────────────────────────────────────────────────────────────────────

#[test]
fn new_span_defaults() {
    let span = Span::new("GetUser");
    assert_eq!(span.name, "GetUser");
    assert_eq!(span.kind, SpanKind::Function);
    assert!(span.children.is_empty());
    assert!(span.error.is_none());
    assert!(!span.has_error);
    assert!(span.events.is_empty());
}

#[test]
fn span_count_single() {
    let span = Span::new("root");
    assert_eq!(span.span_count(), 1);
}

#[test]
fn span_count_with_children() {
    let mut root = Span::new("Controller");
    root.add_child(Span::new("GetUser"));
    root.add_child(Span::new("GetCart"));

    let mut invoice = Span::new("CreateInvoice");
    invoice.add_child(Span::new("GetProvider"));
    root.add_child(invoice);

    assert_eq!(root.span_count(), 5);
}

#[test]
fn error_count_no_errors() {
    let mut root = Span::new("Controller");
    root.add_child(Span::new("GetUser"));
    assert_eq!(root.error_count(), 0);
}

#[test]
fn error_count_with_errors() {
    let mut root = Span::new("Controller");
    root.add_child(Span::new("GetUser"));

    let mut failing = Span::new("GetProvider");
    failing.error = Some(ErrorDetail::new("not found", ErrorType::Throw));
    root.add_child(failing);

    assert_eq!(root.error_count(), 1);
}

#[test]
fn propagate_errors_from_deep_child() {
    let mut root = Span::new("Controller");
    let mut service = Span::new("CreateInvoice");
    let mut provider = Span::new("GetProvider");
    provider.error = Some(ErrorDetail::new("not found", ErrorType::Throw));

    service.add_child(provider);
    root.add_child(service);
    root.propagate_errors();

    assert!(root.has_error);
    assert!(root.children[0].has_error);
    assert!(root.children[0].children[0].has_error);
}

#[test]
fn propagate_errors_no_error_stays_false() {
    let mut root = Span::new("Controller");
    root.add_child(Span::new("GetUser"));
    root.add_child(Span::new("GetCart"));
    root.propagate_errors();

    assert!(!root.has_error);
    assert!(!root.children[0].has_error);
}

#[test]
fn propagation_keeps_counts_and_reports_failure() {
    let mut root = Span::new("Controller");
    let mut child = Span::new("Failing");
    child.error = Some(ErrorDetail::new("boom", ErrorType::Exception));
    root.add_child(Span::new("Ok"));
    root.add_child(child);
    let before = (root.span_count(), root.error_count());
    assert!(root.propagate_errors());
    assert_eq!((root.span_count(), root.error_count()), before);
    assert!(!root.children[0].has_error);
    assert!(root.children[1].has_error);
}

#[test]
fn add_child_propagates_has_error_flag() {
    let mut root = Span::new("Controller");
    let mut child = Span::new("Failing");
    child.error = Some(ErrorDetail::new("boom", ErrorType::Exception));
    child.has_error = true;

    root.add_child(child);
    assert!(root.has_error);
}

#[test]
fn duration_calculation() {
    let mut span = Span::new("Request");
    span.start_time = Some(make_dt(10, 0, 0));
    span.end_time = Some(make_dt_milli(10, 0, 0, 150));
    let dur = span.duration().unwrap();
    assert_eq!(dur, 150);
}

#[test]
fn duration_none_when_end_precedes_start() {
    let mut span = Span::new("Backwards");
    span.start_time = Some(make_dt(10, 0, 1));
    span.end_time = Some(make_dt(10, 0, 0));
    assert!(span.duration().is_none());
}

#[test]
fn duration_none_when_missing_timestamps() {
    let span = Span::new("X");
    assert!(span.duration().is_none());
}

// ── trace ───────────────────────────────────────────────────────────────────

#[test]
fn from_root_span_no_errors() {
    let mut root = Span::new("Controller");
    root.start_time = Some(make_dt(10, 0, 0));
    root.end_time = Some(make_dt(10, 0, 1));
    root.add_child(Span::new("GetUser"));
    root.add_child(Span::new("GetCart"));

    let trace = Trace::from_root_span(root, Some("req-1".into()));

    assert_eq!(trace.id, "req-1");
    assert_eq!(trace.request_id, Some("req-1".into()));
    assert_eq!(trace.span_count, 3);
    assert_eq!(trace.error_count, 0);
    assert!(!trace.has_error);
    assert_eq!(trace.total_duration.unwrap() / 1000, 1);
}

#[test]
fn from_root_span_with_deep_error() {
    let mut root = Span::new("Controller");
    root.start_time = Some(make_dt(10, 0, 0));
    root.end_time = Some(make_dt(10, 0, 5));

    let mut service = Span::new("CreateInvoice");
    let mut provider = Span::new("GetProvider");
    provider.error = Some(ErrorDetail::new("No provider found", ErrorType::Throw));
    service.add_child(provider);

    root.add_child(Span::new("GetUser"));
    root.add_child(Span::new("GetCart"));
    root.add_child(service);

    let trace = Trace::from_root_span(root, Some("abc-123".into()));

    assert_eq!(trace.span_count, 5);
    assert_eq!(trace.error_count, 1);
    assert!(trace.has_error);
    assert!(trace.root.has_error);
    assert!(trace.root.children[2].has_error);
}

#[test]
fn from_root_span_multiple_errors() {
    let mut root = Span::new("Controller");

    let mut child_a = Span::new("ServiceA");
    child_a.error = Some(ErrorDetail::new("fail a", ErrorType::Exception));

    let mut child_b = Span::new("ServiceB");
    child_b.error = Some(ErrorDetail::new("fail b", ErrorType::Timeout));

    root.add_child(child_a);
    root.add_child(child_b);

    let trace = Trace::from_root_span(root, None);

    assert_eq!(trace.error_count, 2);
    assert_eq!(trace.span_count, 3);
    assert!(trace.has_error);
}

#[test]
fn from_root_span_generates_id_from_uuid_when_no_request_id() {
    let root = Span::new("Orphan");
    let trace = Trace::from_root_span(root, None);

    assert!(trace.request_id.is_none());
    assert!(!trace.id.is_empty());
}

#[test]
fn from_root_span_uuid_id_is_hyphenated_lower_hex() {
    let root = Span::new("Orphan");
    let trace = Trace::from_root_span(root, None);
    let chars: Vec<char> = trace.id.chars().collect();
    assert_eq!(chars.len(), 36);
    for (i, c) in chars.iter().enumerate() {
        if i == 8 || i == 13 || i == 18 || i == 23 {
            assert_eq!(*c, '-');
        } else {
            assert!(c.is_ascii_hexdigit() && !c.is_ascii_uppercase());
        }
    }
    assert_eq!(trace.id, uuid::Uuid::from_u128(trace.root.id).to_string());
}

#[test]
fn uuid_text_matches_the_uuid_crate() {
    assert_eq!(uuid_text(0), "00000000-0000-0000-0000-000000000000");
    assert_eq!(
        uuid_text(0x0123_4567_89ab_cdef_fedc_ba98_7654_3210),
        "01234567-89ab-cdef-fedc-ba9876543210"
    );
    for id in [u128::MAX, 1, 0xdead_beef << 64, 0x1234_5678_9abc_def0_1122_3344_5566_7788] {
        assert_eq!(uuid_text(id), uuid::Uuid::from_u128(id).to_string());
    }
    let root = Span::new("Orphan");
    let id = root.id;
    let trace = Trace::from_root_span(root, None);
    assert_eq!(trace.id, uuid_text(id));
    assert_eq!(uuid::Uuid::from_u128(id).get_version_num(), 4);
}

#[test]
fn from_root_span_no_duration_without_timestamps() {
    let root = Span::new("NoDuration");
    let trace = Trace::from_root_span(root, None);
    assert!(trace.total_duration.is_none());
    assert!(trace.start_time.is_none());
    assert!(trace.end_time.is_none());
}
