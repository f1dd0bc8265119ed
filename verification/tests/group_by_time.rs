use chrono::NaiveDateTime;
use flowtracer::grouper::by_time::group_by_time;
use flowtracer::{ClassifiedEvent, EventKind, LogEvent, LogLevel};

fn ts(s: &str) -> Option<i64> {
    NaiveDateTime::parse_from_str(s, "%Y-%m-%d %H:%M:%S")
        .ok()
        .map(|d| d.and_utc().timestamp_millis())
}

fn ts_ms(s: &str) -> Option<i64> {
    NaiveDateTime::parse_from_str(s, "%Y-%m-%d %H:%M:%S%.3f")
        .ok()
        .map(|d| d.and_utc().timestamp_millis())
}

fn make_event_at(
    message: &str,
    timestamp: Option<i64>,
    kind: EventKind,
) -> ClassifiedEvent {
    let function_name = if kind == EventKind::Entry {
        Some(message.to_string())
    } else {
        None
    };
    ClassifiedEvent {
        event: LogEvent {
            timestamp,
            level: LogLevel::Info,
            message: message.to_string(),
            request_id: None,
            trace_id: None,
            thread_id: None,
            source_location: None,
            raw_line: message.to_string(),
            line_number: 1,
        },
        kind,
        function_name,
        error_detail: None,
    }
}

#[test]
fn empty_events_returns_empty() {
    let groups = group_by_time(vec![], 500);
    assert!(groups.is_empty());
}

#[test]
fn single_event_single_group() {
    let events = vec![make_event_at(
        "hello",
        ts("2026-03-12 10:10:01"),
        EventKind::Log,
    )];
    let groups = group_by_time(events, 500);
    assert_eq!(groups.len(), 1);
    assert_eq!(groups[0].id, "auto-1");
    assert_eq!(groups[0].events.len(), 1);
}

#[test]
fn events_within_threshold_stay_grouped() {
    let events = vec![
        make_event_at("e1", ts_ms("2026-03-12 10:10:01.000"), EventKind::Log),
        make_event_at("e2", ts_ms("2026-03-12 10:10:01.100"), EventKind::Log),
        make_event_at("e3", ts_ms("2026-03-12 10:10:01.200"), EventKind::Log),
    ];
    let groups = group_by_time(events, 500);
    assert_eq!(groups.len(), 1);
    assert_eq!(groups[0].events.len(), 3);
}

#[test]
fn gap_exceeding_threshold_splits_group() {
    let events = vec![
        make_event_at("e1", ts_ms("2026-03-12 10:10:01.000"), EventKind::Log),
        make_event_at("e2", ts_ms("2026-03-12 10:10:01.100"), EventKind::Log),
        make_event_at("e3", ts_ms("2026-03-12 10:10:01.200"), EventKind::Log),
        // 2-second gap exceeds 500ms threshold
        make_event_at("e4", ts_ms("2026-03-12 10:10:03.200"), EventKind::Log),
        make_event_at("e5", ts_ms("2026-03-12 10:10:03.300"), EventKind::Log),
    ];
    let groups = group_by_time(events, 500);
    assert_eq!(groups.len(), 2);
    assert_eq!(groups[0].id, "auto-1");
    assert_eq!(groups[0].events.len(), 3);
    assert_eq!(groups[1].id, "auto-2");
    assert_eq!(groups[1].events.len(), 2);
}

#[test]
fn events_without_timestamp_stay_in_current_group() {
    let events = vec![
        make_event_at("e1", ts_ms("2026-03-12 10:10:01.000"), EventKind::Log),
        make_event_at("no-ts", None, EventKind::Log),
        make_event_at("e3", ts_ms("2026-03-12 10:10:01.100"), EventKind::Log),
    ];
    let groups = group_by_time(events, 500);
    assert_eq!(groups.len(), 1);
    assert_eq!(groups[0].events.len(), 3);
}

#[test]
fn events_without_timestamp_not_causing_false_split() {
    let events = vec![
        make_event_at("e1", ts_ms("2026-03-12 10:10:01.000"), EventKind::Log),
        make_event_at("no-ts-1", None, EventKind::Log),
        make_event_at("no-ts-2", None, EventKind::Log),
        make_event_at("e4", ts_ms("2026-03-12 10:10:01.200"), EventKind::Log),
    ];
    let groups = group_by_time(events, 500);
    assert_eq!(groups.len(), 1);
}

#[test]
fn multiple_gaps_create_multiple_groups() {
    let events = vec![
        make_event_at("e1", ts_ms("2026-03-12 10:10:01.000"), EventKind::Log),
        make_event_at("e2", ts_ms("2026-03-12 10:10:05.000"), EventKind::Log),
        make_event_at("e3", ts_ms("2026-03-12 10:10:10.000"), EventKind::Log),
    ];
    let groups = group_by_time(events, 500);
    assert_eq!(groups.len(), 3);
    assert_eq!(groups[0].id, "auto-1");
    assert_eq!(groups[1].id, "auto-2");
    assert_eq!(groups[2].id, "auto-3");
}

#[test]
fn synthetic_ids_are_sequential() {
    let events = vec![
        make_event_at("e1", ts_ms("2026-03-12 10:10:01.000"), EventKind::Log),
        make_event_at("e2", ts_ms("2026-03-12 10:10:10.000"), EventKind::Log),
        make_event_at("e3", ts_ms("2026-03-12 10:10:20.000"), EventKind::Log),
        make_event_at("e4", ts_ms("2026-03-12 10:10:30.000"), EventKind::Log),
    ];
    let groups = group_by_time(events, 500);
    assert_eq!(groups.len(), 4);
    for (i, g) in groups.iter().enumerate() {
        assert_eq!(g.id, format!("auto-{}", i + 1));
    }
}

#[test]
fn threshold_zero_splits_on_any_gap() {
    let events = vec![
        make_event_at("e1", ts_ms("2026-03-12 10:10:01.000"), EventKind::Log),
        make_event_at("e2", ts_ms("2026-03-12 10:10:01.001"), EventKind::Log),
    ];
    let groups = group_by_time(events, 0);
    assert_eq!(groups.len(), 2);
}

#[test]
fn large_threshold_keeps_all_together() {
    let events = vec![
        make_event_at("e1", ts("2026-03-12 10:10:01"), EventKind::Log),
        make_event_at("e2", ts("2026-03-12 10:15:01"), EventKind::Log),
    ];
    // 10 minutes = 600_000ms threshold
    let groups = group_by_time(events, 600_000);
    assert_eq!(groups.len(), 1);
}
