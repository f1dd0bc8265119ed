//! The laws of the library on concrete values.
use flowtracer::grouper::by_id::{group_by_id, IdField};
use flowtracer::grouper::by_time::group_by_time;
use flowtracer::classifier::patterns::{match_entry, match_exit};
use flowtracer::input::is_likely_binary;
use flowtracer::trace_builder::stack::build_span_tree;
use flowtracer::{ColorConfig, Renderer, Trace, TreeRenderer};
use flowtracer::{group_events, ClassifiedEvent, EventKind, GroupConfig, LogEvent, LogLevel};

fn event(msg: &str, rid: Option<&str>, ts: Option<i64>, kind: EventKind, name: Option<&str>) -> ClassifiedEvent {
    ClassifiedEvent {
        event: LogEvent {
            timestamp: ts,
            level: LogLevel::Info,
            message: msg.to_string(),
            request_id: rid.map(String::from),
            trace_id: None,
            thread_id: None,
            source_location: None,
            raw_line: msg.to_string(),
            line_number: 1,
        },
        kind,
        function_name: name.map(String::from),
        error_detail: None,
    }
}

fn messages(gs: &[flowtracer::RequestGroup]) -> Vec<Vec<String>> {
    gs.iter()
        .map(|g| g.events.iter().map(|e| e.event.message.clone()).collect())
        .collect()
}

#[test]
fn grouping_keeps_every_event_once() {
    let evs = vec![
        event("a1", Some("a"), None, EventKind::Log, None),
        event("o1", None, None, EventKind::Log, None),
        event("b1", Some("b"), None, EventKind::Log, None),
        event("a2", Some("a"), None, EventKind::Log, None),
        event("b2", Some("b"), None, EventKind::Log, None),
    ];
    let groups = group_events(evs, &GroupConfig::default());
    let total: usize = groups.iter().map(|g| g.events.len()).sum();
    assert_eq!(total, 5);
    assert!(groups.iter().all(|g| !g.events.is_empty()));
    assert_eq!(
        messages(&groups),
        vec![vec!["a1", "a2"], vec!["b1", "b2"], vec!["o1"]]
    );
    assert_eq!(groups[2].id, "orphan");
}

#[test]
fn id_groups_hold_exactly_their_id() {
    let evs = vec![
        event("x", Some("k1"), None, EventKind::Log, None),
        event("y", Some("k2"), None, EventKind::Log, None),
        event("z", Some("k1"), None, EventKind::Log, None),
    ];
    let groups = group_by_id(evs, IdField::Request);
    for g in &groups {
        for e in &g.events {
            assert_eq!(e.event.request_id.as_deref(), Some(g.id.as_str()));
        }
    }
    assert_ne!(groups[0].id, groups[1].id);
}

#[test]
fn time_groups_read_back_in_order() {
    let evs = vec![
        event("e1", Some(""), Some(0), EventKind::Log, None),
        event("e2", None, Some(100), EventKind::Log, None),
        event("e3", None, Some(5000), EventKind::Log, None),
        event("e4", None, None, EventKind::Log, None),
        event("e5", None, Some(5100), EventKind::Entry, Some("OrderController")),
    ];
    let groups = group_by_time(evs, 500);
    let joined: Vec<String> = messages(&groups).concat();
    assert_eq!(joined, vec!["e1", "e2", "e3", "e4", "e5"]);
    assert_eq!(messages(&groups), vec![vec!["e1", "e2"], vec!["e3", "e4", "e5"]]);
}

#[test]
fn entry_after_exit_starts_a_new_time_group() {
    let evs = vec![
        event("in", None, Some(0), EventKind::Entry, Some("A")),
        event("out", None, Some(10), EventKind::Exit, Some("A")),
        event("in2", None, Some(20), EventKind::Entry, Some("B")),
    ];
    let groups = group_by_time(evs, 500);
    assert_eq!(messages(&groups), vec![vec!["in", "out"], vec!["in2"]]);
    assert_eq!(groups[1].id, "auto-2");
}

#[test]
fn later_controller_entry_starts_a_new_time_group() {
    let evs = vec![
        event("in", None, Some(0), EventKind::Entry, Some("A")),
        event("same", None, Some(0), EventKind::Entry, Some("PaymentHandler")),
        event("next", None, Some(1), EventKind::Entry, Some("RefundENDPOINT")),
        event("plain", None, Some(2), EventKind::Entry, Some("Helper")),
    ];
    let groups = group_by_time(evs, 500);
    assert_eq!(
        messages(&groups),
        vec![vec!["in", "same"], vec!["next", "plain"]]
    );
}

#[test]
fn huge_threshold_wraps_to_negative_and_splits_on_any_timestamp() {
    let evs = vec![
        event("a", None, Some(0), EventKind::Log, None),
        event("b", None, Some(0), EventKind::Log, None),
        event("c", None, None, EventKind::Log, None),
    ];
    let groups = group_by_time(evs, u64::MAX);
    assert_eq!(messages(&groups), vec![vec!["a"], vec!["b", "c"]]);
}

#[test]
fn synthetic_ids_past_nine() {
    let evs: Vec<ClassifiedEvent> = (0..12)
        .map(|i| event("e", None, Some(i * 10_000), EventKind::Log, None))
        .collect();
    let groups = group_by_time(evs, 500);
    assert_eq!(groups.len(), 12);
    assert_eq!(groups[9].id, "auto-10");
    assert_eq!(groups[11].id, "auto-12");
}

// ── Binary files ────────────────────────────────────────────────────────────

#[test]
fn text_file_is_not_binary() {
    assert!(!is_likely_binary(b"2026-03-12 10:10:01 [INFO] hello\n\tworld\x1b[0m\r\n"));
}

#[test]
fn empty_file_is_not_binary() {
    assert!(!is_likely_binary(b""));
}

#[test]
fn binary_file_returns_error() {
    assert!(is_likely_binary(b"\x7fELF\x02\x01\x01\x00\x00\x00"));
}

#[test]
fn mostly_control_bytes_is_binary() {
    assert!(is_likely_binary(&[1u8, 2, 3, b'a']));
    assert!(!is_likely_binary(&[1u8, b'a', b'b', b'c']));
}

#[test]
fn binary_share_matches_float_comparison() {
    for n in 1usize..=400 {
        for k in 0..=n {
            let mut bytes = vec![b'a'; n];
            for b in bytes.iter_mut().take(k) {
                *b = 0x01;
            }
            let expected = (k as f64 / n as f64) > 0.30;
            assert_eq!(is_likely_binary(&bytes), expected, "k = {}, n = {}", k, n);
        }
    }
}

#[test]
fn captures_are_nonempty_stretches_of_the_message() {
    for m in [
        "Executing GetUser",
        "GetUser started",
        "Entering   ValidateInput now",
        "--> HandleRequest",
        "Request starting HTTP/1.1 GET http://h/x",
    ] {
        let name = match_entry(m).unwrap().name.unwrap();
        assert!(!name.is_empty() && m.contains(name.as_str()), "{m}");
    }
    for m in ["GetUser completed", "Exiting Foo", "<-- Bar", "Completed Baz"] {
        let name = match_exit(m).unwrap().name.unwrap();
        assert!(!name.is_empty() && m.contains(name.as_str()), "{m}");
    }
    assert!(match_entry("Just a regular log line").is_none());
    assert!(match_entry("Completed successfully").is_none());
}

#[test]
fn log_events_stay_on_the_innermost_open_span() {
    let evs = vec![
        event("before", None, None, EventKind::Log, None),
        event("Executing A", None, None, EventKind::Entry, Some("A")),
        event("in A", None, None, EventKind::Log, None),
        event("A done", None, None, EventKind::Log, None),
        event("Executing B", None, None, EventKind::Entry, Some("B")),
        event("Executing C", None, None, EventKind::Entry, Some("C")),
        event("in C", None, None, EventKind::Log, None),
        event("C completed", None, None, EventKind::Exit, Some("C")),
        event("in B", None, None, EventKind::Log, None),
    ];
    let root = build_span_tree(evs);
    let msgs = |s: &flowtracer::Span| -> Vec<String> {
        s.events.iter().map(|e| e.message.clone()).collect()
    };
    assert_eq!(root.name, "(empty)");
    assert_eq!(msgs(&root), vec!["before"]);
    let a = &root.children[0];
    assert_eq!(a.name, "A");
    // "in B" comes after C closed and B was closed by C's entry: A is open.
    assert_eq!(msgs(a), vec!["in A", "A done", "in B"]);
    let names: Vec<&str> = a.children.iter().map(|c| c.name.as_str()).collect();
    assert_eq!(names, vec!["B", "C"]);
    assert_eq!(msgs(&a.children[1]), vec!["in C"]);
    assert!(a.children[0].events.is_empty());
    let mut all: Vec<String> = Vec::new();
    fn collect(s: &flowtracer::Span, out: &mut Vec<String>) {
        out.extend(s.events.iter().map(|e| e.message.clone()));
        for c in &s.children {
            collect(c, out);
        }
    }
    collect(&root, &mut all);
    all.sort();
    let mut expected = vec!["before", "in A", "A done", "in C", "in B"];
    expected.sort();
    assert_eq!(all, expected);
}

#[test]
fn rendering_starts_with_the_header_line() {
    let mut root = flowtracer::Span::new("Root");
    root.children.push(flowtracer::Span::new("Child"));
    let trace = Trace::from_root_span(root, Some("req-1".to_string()));
    let r = TreeRenderer::with_width(ColorConfig::new(false), 60);
    let mut out = String::new();
    r.render(&trace, &mut out);
    let first = out.lines().next().unwrap();
    assert!(first.starts_with("Trace req-1  "));
    assert!(first.ends_with("  ✅ ok"));
    assert!(!out.contains("Error Summary"));
    // the tree follows in preorder: root, then child
    let root_at = out.find("Root").unwrap();
    let child_at = out.find("Child").unwrap();
    assert!(root_at < child_at);
}

#[test]
fn groups_partition_the_events_as_a_multiset() {
    let evs = vec![
        event("same", Some("a"), None, EventKind::Log, None),
        event("same", Some("a"), None, EventKind::Log, None),
        event("other", Some("b"), None, EventKind::Log, None),
        event("same", None, None, EventKind::Log, None),
    ];
    let groups = group_events(evs, &GroupConfig::default());
    let mut all: Vec<String> = groups
        .iter()
        .flat_map(|g| g.events.iter().map(|e| e.event.message.clone()))
        .collect();
    all.sort();
    assert_eq!(all, vec!["other", "same", "same", "same"]);
}

#[test]
fn time_groups_split_exactly_at_gaps_over_the_threshold() {
    let evs = vec![
        event("a", None, Some(1000), EventKind::Log, None),
        event("b", None, None, EventKind::Log, None),
        event("c", None, Some(1400), EventKind::Log, None),
        event("d", None, Some(1901), EventKind::Log, None),
        event("e", None, None, EventKind::Exit, Some("X")),
        event("f", None, Some(2401), EventKind::Log, None),
    ];
    let groups = group_by_time(evs, 500);
    assert_eq!(
        messages(&groups),
        vec![vec!["a", "b", "c"], vec!["d", "e", "f"]]
    );
    assert_eq!(groups[0].id, "auto-1");
    assert_eq!(groups[1].id, "auto-2");
}

#[test]
fn groups_keep_input_order_within_each_group() {
    let evs = vec![
        event("a1", Some("a"), None, EventKind::Log, None),
        event("b1", Some("b"), None, EventKind::Log, None),
        event("a2", Some("a"), None, EventKind::Log, None),
        event("b2", Some("b"), None, EventKind::Log, None),
        event("a3", Some("a"), None, EventKind::Log, None),
    ];
    let groups = group_events(evs, &GroupConfig::default());
    assert_eq!(
        messages(&groups),
        vec![vec!["a1", "a2", "a3"], vec!["b1", "b2"]]
    );
    assert_eq!(groups[0].id, "a");
    assert_eq!(groups[1].id, "b");
}

#[test]
fn spans_keep_their_events_in_logged_order() {
    let evs = vec![
        event("Executing A", None, None, EventKind::Entry, Some("A")),
        event("one", None, None, EventKind::Log, None),
        event("Executing B", None, None, EventKind::Entry, Some("B")),
        event("Executing C", None, None, EventKind::Entry, Some("C")),
        event("two", None, None, EventKind::Log, None),
        event("C completed", None, None, EventKind::Exit, Some("C")),
        event("three", None, None, EventKind::Log, None),
        event("four", None, None, EventKind::Log, None),
    ];
    let root = build_span_tree(evs);
    let msgs: Vec<String> = root.events.iter().map(|e| e.message.clone()).collect();
    assert_eq!(msgs, vec!["one", "three", "four"]);
}
