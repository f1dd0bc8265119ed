use flowtracer::pipeline::{process_lines, request_ids, PipelineOptions, RunError};
use flowtracer::session::empty_run_note;
use flowtracer::{
    build_traces, classify_all, group_events, ColorConfig, GroupConfig, LogParser, PlainTextParser,
    Renderer, TreeRenderer,
};

/// The log of two requests, one after the other; the first one fails.
const PLAIN_LOGS: &str = "2026-03-12 10:10:01 [INFO] RequestId=abc-123 Executing CreateOrderController
2026-03-12 10:10:02 [INFO] RequestId=abc-123 Executing GetUser
2026-03-12 10:10:03 [INFO] RequestId=abc-123 Executing GetCart
2026-03-12 10:10:04 [INFO] RequestId=abc-123 Executing CreateInvoice
2026-03-12 10:10:05 [ERROR] RequestId=abc-123 No provider found with name \"paypau\"
2026-03-12 10:10:06 [INFO] RequestId=def-456 Executing ListProductsController
2026-03-12 10:10:07 [INFO] RequestId=def-456 Executing GetProducts
2026-03-12 10:10:08 [INFO] RequestId=def-456 Completed successfully
";

fn run_pipeline(input: &str, config: GroupConfig) -> Vec<flowtracer::Trace> {
    let parser = PlainTextParser::new();
    let events: Vec<_> = input
        .lines()
        .enumerate()
        .filter_map(|(i, line)| parser.parse_line(line, i + 1))
        .collect();

    let classified = classify_all(events);
    let groups = group_events(classified, &config);
    build_traces(groups)
}

fn render_traces_plain(traces: &[flowtracer::Trace]) -> String {
    let renderer = TreeRenderer::with_width(ColorConfig::new(false), 80);
    let mut buf = String::new();
    for (i, trace) in traces.iter().enumerate() {
        if i > 0 {
            buf.push('\n');
        }
        renderer.render(trace, &mut buf);
    }
    buf
}

fn lines_of(input: &str) -> Vec<String> {
    input.lines().map(|l| l.to_string()).collect()
}

fn options() -> PipelineOptions {
    PipelineOptions {
        request_id: None,
        errors_only: false,
        last: None,
        time_threshold_ms: 500,
    }
}

#[test]
fn stdin_same_as_file() {
    let traces_from_file = run_pipeline(PLAIN_LOGS, GroupConfig::default());
    let output_file = render_traces_plain(&traces_from_file);
    let traces_from_stdin = run_pipeline(PLAIN_LOGS, GroupConfig::default());
    let output_stdin = render_traces_plain(&traces_from_stdin);
    assert_eq!(output_file, output_stdin);
}

#[test]
fn plain_logs_two_traces() {
    let traces = run_pipeline(PLAIN_LOGS, GroupConfig::default());
    assert_eq!(traces.len(), 2);
    assert_eq!(traces[0].id, "abc-123");
    assert_eq!(traces[1].id, "def-456");
}

#[test]
fn plain_logs_first_trace_has_error() {
    let traces = run_pipeline(PLAIN_LOGS, GroupConfig::default());
    assert!(traces[0].has_error);
    assert_eq!(traces[0].error_count, 1);
}

#[test]
fn plain_logs_second_trace_no_error() {
    let traces = run_pipeline(PLAIN_LOGS, GroupConfig::default());
    assert!(!traces[1].has_error);
    assert_eq!(traces[1].error_count, 0);
}

#[test]
fn plain_logs_render_contains_error_marker() {
    let traces = run_pipeline(PLAIN_LOGS, GroupConfig::default());
    let output = render_traces_plain(&traces);
    assert!(output.contains("❌ CreateOrderController"));
    assert!(output.contains("❌ CreateInvoice"));
    assert!(output.contains("paypau"));
    assert!(output.contains("Error Summary"));
}

#[test]
fn plain_logs_render_ok_trace_has_checkmark() {
    let traces = run_pipeline(PLAIN_LOGS, GroupConfig::default());
    let output = render_traces_plain(&traces);
    assert!(output.contains("✅ ok"));
}

#[test]
fn no_color_mode_has_no_ansi_escapes() {
    let traces = run_pipeline(PLAIN_LOGS, GroupConfig::default());
    let output = render_traces_plain(&traces);
    assert!(
        !output.contains("\x1b["),
        "Plain text output should have no ANSI escape sequences"
    );
}

#[test]
fn empty_input_produces_no_traces() {
    let traces = run_pipeline("", GroupConfig::default());
    assert!(traces.is_empty());
}

#[test]
fn blank_lines_only_produce_no_traces() {
    let traces = run_pipeline("\n\n\n", GroupConfig::default());
    assert!(traces.is_empty());
}

// ── The whole run, with the command-line filters ───────────────────────────

#[test]
fn run_shows_both_traces_as_rendered() {
    let renderer = TreeRenderer::with_width(ColorConfig::new(false), 80);
    let out = process_lines(&lines_of(PLAIN_LOGS), &options(), &renderer).unwrap().unwrap();
    let traces = run_pipeline(PLAIN_LOGS, GroupConfig::default());
    assert_eq!(out, render_traces_plain(&traces));
}

#[test]
fn run_filters_by_request_id() {
    let renderer = TreeRenderer::with_width(ColorConfig::new(false), 80);
    let mut o = options();
    o.request_id = Some("abc-123".into());
    let out = process_lines(&lines_of(PLAIN_LOGS), &o, &renderer).unwrap().unwrap();
    assert!(out.contains("Trace abc-123"));
    assert!(!out.contains("Trace def-456"));
    o.request_id = Some("nope".into());
    assert_eq!(process_lines(&lines_of(PLAIN_LOGS), &o, &renderer), Ok(None));
}

#[test]
fn missing_request_id_note_lists_the_available_ids() {
    let lines = lines_of(PLAIN_LOGS);
    let ids = request_ids(&lines, 2000);
    assert_eq!(ids, vec!["abc-123".to_string(), "def-456".to_string()]);
    assert_eq!(
        empty_run_note(false, Some("nope"), &ids),
        "Request ID \"nope\" not found. Available request IDs: abc-123, def-456"
    );
    assert_eq!(
        empty_run_note(false, Some("abc-123"), &ids),
        "No traces found matching the given filters."
    );
    assert!(request_ids(&lines_of("just text\n"), 2000).is_empty());
    assert!(request_ids(&[], 2000).is_empty());
}

#[test]
fn run_filters_errors_only() {
    let renderer = TreeRenderer::with_width(ColorConfig::new(false), 80);
    let mut o = options();
    o.errors_only = true;
    let out = process_lines(&lines_of(PLAIN_LOGS), &o, &renderer).unwrap().unwrap();
    assert!(out.contains("Trace abc-123"));
    assert!(!out.contains("Trace def-456"));
}

#[test]
fn run_keeps_last_n() {
    let renderer = TreeRenderer::with_width(ColorConfig::new(false), 80);
    let mut o = options();
    o.last = Some(1);
    let out = process_lines(&lines_of(PLAIN_LOGS), &o, &renderer).unwrap().unwrap();
    assert!(!out.contains("Trace abc-123"));
    assert!(out.contains("Trace def-456"));
    o.last = Some(100);
    let all = process_lines(&lines_of(PLAIN_LOGS), &o, &renderer).unwrap().unwrap();
    assert!(all.contains("Trace abc-123") && all.contains("Trace def-456"));
    o.last = Some(0);
    assert_eq!(process_lines(&lines_of(PLAIN_LOGS), &o, &renderer), Ok(None));
}

#[test]
fn run_without_flow_events_echoes_raw_lines() {
    let renderer = TreeRenderer::with_width(ColorConfig::new(false), 80);
    let input = "  just text  \n\n[INFO] user logged in\n";
    let out = process_lines(&lines_of(input), &options(), &renderer).unwrap().unwrap();
    assert_eq!(out, "  just text  \n[INFO] user logged in\n");
}

#[test]
fn run_on_nothing_shows_nothing() {
    let renderer = TreeRenderer::with_width(ColorConfig::new(false), 80);
    assert_eq!(process_lines(&[], &options(), &renderer), Ok(None));
    assert_eq!(
        process_lines(&lines_of("\n \n\t\n"), &options(), &renderer),
        Ok(None)
    );
}

#[test]
fn run_refuses_the_unrepresentable_threshold_only_for_time_grouping() {
    let renderer = TreeRenderer::with_width(ColorConfig::new(false), 80);
    let mut o = options();
    o.time_threshold_ms = 1u64 << 63;
    let untagged = "2026-03-12 10:10:01 [INFO] Executing A\n2026-03-12 10:10:02 [INFO] Executing B\n";
    assert_eq!(
        process_lines(&lines_of(untagged), &o, &renderer),
        Err(RunError::TimeThresholdOutOfRange)
    );
    assert!(process_lines(&lines_of(PLAIN_LOGS), &o, &renderer)
        .unwrap()
        .is_some());
}
