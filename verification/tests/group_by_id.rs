use flowtracer::grouper::by_id::{group_by_id, IdField};
use flowtracer::{ClassifiedEvent, EventKind, LogEvent, LogLevel};

fn make_event(message: &str, request_id: Option<&str>) -> ClassifiedEvent {
    ClassifiedEvent {
        event: LogEvent {
            timestamp: None,
            level: LogLevel::Info,
            message: message.to_string(),
            request_id: request_id.map(String::from),
            trace_id: None,
            thread_id: None,
            source_location: None,
            raw_line: message.to_string(),
            line_number: 1,
        },
        kind: EventKind::Log,
        function_name: None,
        error_detail: None,
    }
}

fn make_event_with_trace_id(message: &str, trace_id: Option<&str>) -> ClassifiedEvent {
    ClassifiedEvent {
        event: LogEvent {
            timestamp: None,
            level: LogLevel::Info,
            message: message.to_string(),
            request_id: None,
            trace_id: trace_id.map(String::from),
            thread_id: None,
            source_location: None,
            raw_line: message.to_string(),
            line_number: 1,
        },
        kind: EventKind::Log,
        function_name: None,
        error_detail: None,
    }
}

fn make_event_with_thread_id(message: &str, thread_id: Option<&str>) -> ClassifiedEvent {
    ClassifiedEvent {
        event: LogEvent {
            timestamp: None,
            level: LogLevel::Info,
            message: message.to_string(),
            request_id: None,
            trace_id: None,
            thread_id: thread_id.map(String::from),
            source_location: None,
            raw_line: message.to_string(),
            line_number: 1,
        },
        kind: EventKind::Log,
        function_name: None,
        error_detail: None,
    }
}

#[test]
fn group_by_request_id_two_groups() {
    let events = vec![
        make_event("e1", Some("abc-123")),
        make_event("e2", Some("abc-123")),
        make_event("e3", Some("def-456")),
        make_event("e4", Some("abc-123")),
        make_event("e5", Some("def-456")),
    ];

    let groups = group_by_id(events, IdField::Request);
    assert_eq!(groups.len(), 2);
    assert_eq!(groups[0].id, "abc-123");
    assert_eq!(groups[0].events.len(), 3);
    assert_eq!(groups[1].id, "def-456");
    assert_eq!(groups[1].events.len(), 2);
}

#[test]
fn group_by_request_id_preserves_order_within_group() {
    let events = vec![
        make_event("first", Some("abc")),
        make_event("second", Some("abc")),
        make_event("third", Some("abc")),
    ];

    let groups = group_by_id(events, IdField::Request);
    assert_eq!(groups.len(), 1);
    assert_eq!(groups[0].events[0].event.message, "first");
    assert_eq!(groups[0].events[1].event.message, "second");
    assert_eq!(groups[0].events[2].event.message, "third");
}

#[test]
fn group_by_request_id_orphans() {
    let events = vec![
        make_event("e1", Some("abc-123")),
        make_event("orphan1", None),
        make_event("orphan2", None),
    ];

    let groups = group_by_id(events, IdField::Request);
    assert_eq!(groups.len(), 2);
    assert_eq!(groups[0].id, "abc-123");
    assert_eq!(groups[0].events.len(), 1);
    assert_eq!(groups[1].id, "orphan");
    assert_eq!(groups[1].events.len(), 2);
}

#[test]
fn group_by_request_id_all_orphans() {
    let events = vec![make_event("e1", None), make_event("e2", None)];

    let groups = group_by_id(events, IdField::Request);
    assert_eq!(groups.len(), 1);
    assert_eq!(groups[0].id, "orphan");
    assert_eq!(groups[0].events.len(), 2);
}

#[test]
fn group_by_request_id_empty() {
    let groups = group_by_id(vec![], IdField::Request);
    assert!(groups.is_empty());
}

#[test]
fn group_by_trace_id() {
    let events = vec![
        make_event_with_trace_id("e1", Some("trace-a")),
        make_event_with_trace_id("e2", Some("trace-b")),
        make_event_with_trace_id("e3", Some("trace-a")),
    ];

    let groups = group_by_id(events, IdField::Trace);
    assert_eq!(groups.len(), 2);
    assert_eq!(groups[0].id, "trace-a");
    assert_eq!(groups[0].events.len(), 2);
    assert_eq!(groups[1].id, "trace-b");
    assert_eq!(groups[1].events.len(), 1);
}

#[test]
fn group_by_thread_id() {
    let events = vec![
        make_event_with_thread_id("e1", Some("14")),
        make_event_with_thread_id("e2", Some("15")),
        make_event_with_thread_id("e3", Some("14")),
    ];

    let groups = group_by_id(events, IdField::Thread);
    assert_eq!(groups.len(), 2);
    assert_eq!(groups[0].id, "14");
    assert_eq!(groups[0].events.len(), 2);
    assert_eq!(groups[1].id, "15");
    assert_eq!(groups[1].events.len(), 1);
}

#[test]
fn group_preserves_insertion_order() {
    let events = vec![
        make_event("e1", Some("second")),
        make_event("e2", Some("first")),
        make_event("e3", Some("second")),
    ];

    let groups = group_by_id(events, IdField::Request);
    assert_eq!(groups[0].id, "second");
    assert_eq!(groups[1].id, "first");
}
