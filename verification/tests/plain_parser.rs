use chrono::{DateTime, NaiveDateTime};
use flowtracer::{LogEvent, LogLevel, LogParser, PlainTextParser};

fn dt(ms: i64) -> NaiveDateTime {
    DateTime::from_timestamp_millis(ms).unwrap().naive_utc()
}

fn parse(line: &str) -> Option<LogEvent> {
    PlainTextParser::new().parse_line(line, 1)
}

// ── Empty / whitespace ──────────────────────────────────────────────

#[test]
fn plain_empty_line_returns_none() {
    assert!(parse("").is_none());
    assert!(parse("   ").is_none());
    assert!(parse("\t\n").is_none());
}

// ── Pattern 1: YYYY-MM-DD HH:MM:SS [LEVEL] message ─────────────────

#[test]
fn ts_space_bracket_level() {
    let e = parse("2026-03-12 10:10:01 [INFO] Executing CreateOrderController").unwrap();
    assert_eq!(e.level, LogLevel::Info);
    assert_eq!(e.message, "Executing CreateOrderController");
    assert!(e.timestamp.is_some());
    let ts = dt(e.timestamp.unwrap());
    assert_eq!(
        ts.format("%Y-%m-%d %H:%M:%S").to_string(),
        "2026-03-12 10:10:01"
    );
}

#[test]
fn ts_space_bracket_level_with_millis() {
    let e = parse("2026-03-12 10:10:01.456 [ERROR] Something broke").unwrap();
    assert_eq!(e.level, LogLevel::Error);
    assert_eq!(e.message, "Something broke");
    let ts = dt(e.timestamp.unwrap());
    assert_eq!(ts.format("%H:%M:%S%.3f").to_string(), "10:10:01.456");
}

#[test]
fn ts_t_separator_bracket_level() {
    let e = parse("2026-03-12T10:10:01 [WARN] Low memory").unwrap();
    assert_eq!(e.level, LogLevel::Warn);
    assert_eq!(e.message, "Low memory");
    assert!(e.timestamp.is_some());
}

// ── Pattern 2: YYYY-MM-DD HH:MM:SS LEVEL message ───────────────────

#[test]
fn ts_bare_level() {
    let e = parse("2026-03-12 10:10:01 INFO Starting server").unwrap();
    assert_eq!(e.level, LogLevel::Info);
    assert_eq!(e.message, "Starting server");
    assert!(e.timestamp.is_some());
}

#[test]
fn ts_bare_level_error_with_millis() {
    let e = parse("2026-03-12T10:10:01.999 ERROR Connection refused").unwrap();
    assert_eq!(e.level, LogLevel::Error);
    assert_eq!(e.message, "Connection refused");
}

#[test]
fn ts_bare_level_warning_full() {
    let e = parse("2026-03-12 10:10:01 WARNING Disk almost full").unwrap();
    assert_eq!(e.level, LogLevel::Warn);
    assert_eq!(e.message, "Disk almost full");
}

// ── Pattern 3: [LEVEL] message (no timestamp) ──────────────────────

#[test]
fn plain_bracket_level_no_timestamp() {
    let e = parse("[INFO] Executing handler").unwrap();
    assert!(e.timestamp.is_none());
    assert_eq!(e.level, LogLevel::Info);
    assert_eq!(e.message, "Executing handler");
}

#[test]
fn bracket_level_fatal() {
    let e = parse("[FATAL] Out of memory").unwrap();
    assert_eq!(e.level, LogLevel::Fatal);
    assert_eq!(e.message, "Out of memory");
}

// ── Pattern 4: LEVEL: message ───────────────────────────────────────

#[test]
fn level_colon() {
    let e = parse("ERROR: Database connection lost").unwrap();
    assert!(e.timestamp.is_none());
    assert_eq!(e.level, LogLevel::Error);
    assert_eq!(e.message, "Database connection lost");
}

#[test]
fn plain_level_colon_debug() {
    let e = parse("DEBUG: Cache hit for key=user:42").unwrap();
    assert_eq!(e.level, LogLevel::Debug);
    assert_eq!(e.message, "Cache hit for key=user:42");
}

// ── Fallback: unrecognized format ───────────────────────────────────

#[test]
fn plain_unrecognized_line_returns_unknown_level() {
    let e = parse("some random log line without pattern").unwrap();
    assert_eq!(e.level, LogLevel::Unknown);
    assert_eq!(e.message, "some random log line without pattern");
    assert!(e.timestamp.is_none());
}

// ── Request ID extraction ───────────────────────────────────────────

#[test]
fn extract_request_id_equals() {
    let e = parse("2026-03-12 10:10:01 [INFO] RequestId=abc-123 Executing GetUser").unwrap();
    assert_eq!(e.request_id, Some("abc-123".into()));
    assert_eq!(e.message, "Executing GetUser");
}

#[test]
fn extract_request_id_colon() {
    let e = parse("[INFO] request_id:req-999 Processing order").unwrap();
    assert_eq!(e.request_id, Some("req-999".into()));
    assert_eq!(e.message, "Processing order");
}

#[test]
fn extract_trace_id() {
    let e = parse("2026-03-12 10:10:01 [INFO] traceId=4bf92f35 Handling request").unwrap();
    assert_eq!(e.trace_id, Some("4bf92f35".into()));
    assert!(e.request_id.is_none());
    assert_eq!(e.message, "Handling request");
}

#[test]
fn extract_bracket_id_at_start() {
    let e = parse("[INFO] [abc-123-def] Executing CreateOrder").unwrap();
    assert_eq!(e.request_id, Some("abc-123-def".into()));
    assert_eq!(e.message, "Executing CreateOrder");
}

#[test]
fn plain_no_request_id_when_absent() {
    let e = parse("[INFO] Just a regular log message").unwrap();
    assert!(e.request_id.is_none());
    assert!(e.trace_id.is_none());
}

// ── Thread ID extraction ────────────────────────────────────────────

#[test]
fn extract_thread_id_pattern() {
    let e = parse("2026-03-12 10:10:01 [INFO] [Thread 14] Processing").unwrap();
    assert_eq!(e.thread_id, Some("14".into()));
}

#[test]
fn extract_thread_name_pattern() {
    let e = parse("[INFO] [thread-pool-3] Handling request").unwrap();
    assert_eq!(e.thread_id, Some("thread-pool-3".into()));
}

// ── Preserves raw_line and line_number ───────────────────────────────

#[test]
fn preserves_raw_line() {
    let raw = "2026-03-12 10:10:01 [INFO] RequestId=x Hello";
    let e = parse(raw).unwrap();
    assert_eq!(e.raw_line, raw);
    assert_eq!(e.line_number, 1);
}

// ── Fixture integration ─────────────────────────────────────────────

#[test]
fn parse_fixture_lines() {
    let parser = PlainTextParser::new();
    let lines = [
        "2026-03-12 10:10:01 [INFO] RequestId=abc-123 Executing CreateOrderController",
        "2026-03-12 10:10:02 [INFO] RequestId=abc-123 Executing GetUser",
        "2026-03-12 10:10:03 [INFO] RequestId=abc-123 Executing GetCart",
        "2026-03-12 10:10:04 [INFO] RequestId=abc-123 Executing CreateInvoice",
        "2026-03-12 10:10:05 [ERROR] RequestId=abc-123 No provider found with name \"paypau\"",
        "2026-03-12 10:10:06 [INFO] RequestId=def-456 Executing ListProductsController",
        "2026-03-12 10:10:07 [INFO] RequestId=def-456 Executing GetProducts",
        "2026-03-12 10:10:08 [INFO] RequestId=def-456 Completed successfully",
    ];

    let events: Vec<LogEvent> = lines
        .iter()
        .enumerate()
        .filter_map(|(i, l)| parser.parse_line(l, i + 1))
        .collect();

    assert_eq!(events.len(), 8);

    // First event
    assert_eq!(events[0].request_id, Some("abc-123".into()));
    assert_eq!(events[0].level, LogLevel::Info);
    assert_eq!(events[0].message, "Executing CreateOrderController");
    assert!(events[0].timestamp.is_some());

    // Error event
    assert_eq!(events[4].level, LogLevel::Error);
    assert_eq!(events[4].request_id, Some("abc-123".into()));
    assert!(events[4].message.contains("No provider found"));

    // Second request
    assert_eq!(events[5].request_id, Some("def-456".into()));
    assert_eq!(events[7].message, "Completed successfully");
}
