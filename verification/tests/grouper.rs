use chrono::NaiveDateTime;
use flowtracer::grouper::{detect_strategy, GroupStrategy};
use flowtracer::{group_events, ClassifiedEvent, EventKind, GroupConfig, LogEvent, LogLevel};

fn ts(s: &str) -> Option<i64> {
    NaiveDateTime::parse_from_str(s, "%Y-%m-%d %H:%M:%S")
        .ok()
        .map(|d| d.and_utc().timestamp_millis())
}

fn ts_ms(s: &str) -> Option<i64> {
    NaiveDateTime::parse_from_str(s, "%Y-%m-%d %H:%M:%S%.3f")
        .ok()
        .map(|d| d.and_utc().timestamp_millis())
}

fn make_event(
    message: &str,
    request_id: Option<&str>,
    trace_id: Option<&str>,
    thread_id: Option<&str>,
    timestamp: Option<i64>,
) -> ClassifiedEvent {
    ClassifiedEvent {
        event: LogEvent {
            timestamp,
            level: LogLevel::Info,
            message: message.to_string(),
            request_id: request_id.map(String::from),
            trace_id: trace_id.map(String::from),
            thread_id: thread_id.map(String::from),
            source_location: None,
            raw_line: message.to_string(),
            line_number: 1,
        },
        kind: EventKind::Log,
        function_name: None,
        error_detail: None,
    }
}

// ── Strategy detection ──────────────────────────────────────────

#[test]
fn detect_strategy_request_id() {
    let events = vec![
        make_event("e1", Some("abc"), None, None, None),
        make_event("e2", Some("abc"), None, None, None),
        make_event("e3", None, None, None, None),
    ];
    assert_eq!(detect_strategy(&events), GroupStrategy::RequestId);
}

#[test]
fn detect_strategy_trace_id() {
    let events = vec![
        make_event("e1", None, Some("t1"), None, None),
        make_event("e2", None, Some("t2"), None, None),
        make_event("e3", None, None, None, None),
    ];
    assert_eq!(detect_strategy(&events), GroupStrategy::TraceId);
}

#[test]
fn detect_strategy_thread_id() {
    let events = vec![
        make_event("e1", None, None, Some("14"), None),
        make_event("e2", None, None, Some("15"), None),
        make_event("e3", None, None, None, None),
    ];
    assert_eq!(detect_strategy(&events), GroupStrategy::ThreadId);
}

#[test]
fn detect_strategy_by_time_fallback() {
    let events = vec![
        make_event("e1", None, None, None, ts("2026-03-12 10:10:01")),
        make_event("e2", None, None, None, ts("2026-03-12 10:10:02")),
        make_event("e3", None, None, None, ts("2026-03-12 10:10:03")),
    ];
    assert_eq!(detect_strategy(&events), GroupStrategy::Time);
}

#[test]
fn detect_strategy_request_id_takes_precedence() {
    let events = vec![
        make_event("e1", Some("r1"), Some("t1"), Some("th1"), None),
        make_event("e2", Some("r1"), Some("t1"), Some("th1"), None),
        make_event("e3", Some("r1"), Some("t1"), Some("th1"), None),
    ];
    assert_eq!(detect_strategy(&events), GroupStrategy::RequestId);
}

// ── group_events integration ────────────────────────────────────

#[test]
fn group_events_empty() {
    let config = GroupConfig::default();
    let groups = group_events(vec![], &config);
    assert!(groups.is_empty());
}

#[test]
fn group_events_by_request_id() {
    let config = GroupConfig::default();
    let events = vec![
        make_event("e1", Some("abc-123"), None, None, None),
        make_event("e2", Some("abc-123"), None, None, None),
        make_event("e3", Some("abc-123"), None, None, None),
        make_event("e4", Some("def-456"), None, None, None),
        make_event("e5", Some("def-456"), None, None, None),
        make_event("e6", Some("abc-123"), None, None, None),
        make_event("e7", Some("def-456"), None, None, None),
        make_event("e8", Some("abc-123"), None, None, None),
    ];

    let groups = group_events(events, &config);
    assert_eq!(groups.len(), 2);
    assert_eq!(groups[0].id, "abc-123");
    assert_eq!(groups[0].events.len(), 5);
    assert_eq!(groups[1].id, "def-456");
    assert_eq!(groups[1].events.len(), 3);
}

#[test]
fn group_events_by_time_with_gap() {
    let config = GroupConfig {
        time_threshold_ms: 500,
    };
    let events = vec![
        make_event("e1", None, None, None, ts_ms("2026-03-12 10:10:01.000")),
        make_event("e2", None, None, None, ts_ms("2026-03-12 10:10:01.100")),
        make_event("e3", None, None, None, ts_ms("2026-03-12 10:10:01.200")),
        // 2s gap
        make_event("e4", None, None, None, ts_ms("2026-03-12 10:10:03.200")),
        make_event("e5", None, None, None, ts_ms("2026-03-12 10:10:03.300")),
    ];

    let groups = group_events(events, &config);
    assert_eq!(groups.len(), 2);
    assert_eq!(groups[0].events.len(), 3);
    assert_eq!(groups[1].events.len(), 2);
}

#[test]
fn group_events_custom_threshold() {
    let config = GroupConfig {
        time_threshold_ms: 5000,
    };
    let events = vec![
        make_event("e1", None, None, None, ts("2026-03-12 10:10:01")),
        make_event("e2", None, None, None, ts("2026-03-12 10:10:03")),
        make_event("e3", None, None, None, ts("2026-03-12 10:10:05")),
    ];

    // 2s gaps within 5s threshold → single group
    let groups = group_events(events, &config);
    assert_eq!(groups.len(), 1);
}

#[test]
fn group_events_thread_id_strategy() {
    let config = GroupConfig::default();
    let events = vec![
        make_event("e1", None, None, Some("14"), None),
        make_event("e2", None, None, Some("15"), None),
        make_event("e3", None, None, Some("14"), None),
    ];

    let groups = group_events(events, &config);
    assert_eq!(groups.len(), 2);
    assert_eq!(groups[0].id, "14");
    assert_eq!(groups[0].events.len(), 2);
    assert_eq!(groups[1].id, "15");
    assert_eq!(groups[1].events.len(), 1);
}

// ── Acceptance criteria ──────────────────────────────────────────

#[test]
fn acceptance_8_events_two_request_ids() {
    let config = GroupConfig::default();
    let events = vec![
        make_event("e1", Some("abc-123"), None, None, None),
        make_event("e2", Some("abc-123"), None, None, None),
        make_event("e3", Some("abc-123"), None, None, None),
        make_event("e4", Some("abc-123"), None, None, None),
        make_event("e5", Some("abc-123"), None, None, None),
        make_event("e6", Some("def-456"), None, None, None),
        make_event("e7", Some("def-456"), None, None, None),
        make_event("e8", Some("def-456"), None, None, None),
    ];

    let groups = group_events(events, &config);
    assert_eq!(groups.len(), 2);
    assert_eq!(groups[0].events.len(), 5);
    assert_eq!(groups[1].events.len(), 3);
}

#[test]
fn acceptance_5_events_no_id_gap_splits() {
    let config = GroupConfig {
        time_threshold_ms: 500,
    };
    let events = vec![
        make_event("e1", None, None, None, ts("2026-03-12 10:10:01")),
        make_event("e2", None, None, None, ts("2026-03-12 10:10:01")),
        make_event("e3", None, None, None, ts("2026-03-12 10:10:01")),
        // 2s gap
        make_event("e4", None, None, None, ts("2026-03-12 10:10:03")),
        make_event("e5", None, None, None, ts("2026-03-12 10:10:03")),
    ];

    let groups = group_events(events, &config);
    assert_eq!(groups.len(), 2);
    assert_eq!(groups[0].events.len(), 3);
    assert_eq!(groups[1].events.len(), 2);
}
