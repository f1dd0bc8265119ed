use chrono::NaiveDate;
use flowtracer::renderer::tree::{format_duration, render_all, truncate_name};
use flowtracer::{
    ColorConfig, ErrorDetail, ErrorType, LogEvent, LogLevel, Renderer, Span, Trace, TreeRenderer,
};

fn make_dt(h: u32, m: u32, s: u32) -> i64 {
    NaiveDate::from_ymd_opt(2026, 3, 12)
        .unwrap()
        .and_hms_opt(h, m, s)
        .unwrap()
        .and_utc()
        .timestamp_millis()
}

fn make_dt_milli(h: u32, m: u32, s: u32, ms: u32) -> i64 {
    NaiveDate::from_ymd_opt(2026, 3, 12)
        .unwrap()
        .and_hms_milli_opt(h, m, s, ms)
        .unwrap()
        .and_utc()
        .timestamp_millis()
}

fn make_renderer() -> TreeRenderer {
    TreeRenderer::with_width(ColorConfig::new(false), 80)
}

fn render_to_string(trace: &Trace) -> String {
    let renderer = make_renderer();
    let mut buf = String::new();
    renderer.render(trace, &mut buf);
    buf
}

fn rule(n: usize) -> String {
    "─".repeat(n)
}

fn pad(n: usize) -> String {
    " ".repeat(n)
}

// ── format_duration ─────────────────────────────────────────────────────────

#[test]
fn format_duration_millis() {
    assert_eq!(format_duration(Some(12)), "12ms");
    assert_eq!(format_duration(Some(999)), "999ms");
}

#[test]
fn format_duration_seconds() {
    assert_eq!(format_duration(Some(1500)), "1.5s");
    assert_eq!(format_duration(Some(59999)), "60.0s");
}

#[test]
fn format_duration_minutes() {
    assert_eq!(format_duration(Some(90_000)), "1m30s");
}

#[test]
fn format_duration_none() {
    assert_eq!(format_duration(None), "");
}

#[test]
fn format_duration_seconds_matches_float_formatting() {
    for m in 1000u64..60000 {
        let expected = format!("{:.1}s", m as f64 / 1000.0);
        assert_eq!(format_duration(Some(m)), expected, "millis = {}", m);
    }
}

#[test]
fn format_duration_edges() {
    assert_eq!(format_duration(Some(0)), "0ms");
    assert_eq!(format_duration(Some(1000)), "1.0s");
    assert_eq!(format_duration(Some(1250)), "1.2s");
    assert_eq!(format_duration(Some(1750)), "1.8s");
    assert_eq!(format_duration(Some(60_000)), "1m0s");
    assert_eq!(format_duration(Some(3_599_999)), "59m59s");
    assert_eq!(format_duration(Some(7_200_000)), "120m0s");
}

// ── Snapshots ───────────────────────────────────────────────────────────────

#[test]
fn snapshot_trace_no_errors() {
    let mut root = Span::new("ListProductsController");
    root.start_time = Some(make_dt(10, 0, 0));
    root.end_time = Some(make_dt_milli(10, 0, 0, 200));

    let mut get_products = Span::new("GetProducts");
    get_products.start_time = Some(make_dt(10, 0, 0));
    get_products.end_time = Some(make_dt_milli(10, 0, 0, 150));

    root.add_child(get_products);

    let trace = Trace::from_root_span(root, Some("def-456".into()));
    let output = render_to_string(&trace);

    let expected = format!(
        "Trace def-456  {}  200ms  ✅ ok\n\nListProductsController{}200ms\n   └── GetProducts{}150ms\n",
        rule(48),
        pad(53),
        pad(51)
    );
    assert_eq!(output, expected);
}

#[test]
fn snapshot_trace_with_error() {
    let mut root = Span::new("CreateOrderController");
    root.start_time = Some(make_dt(10, 10, 1));
    root.end_time = Some(make_dt_milli(10, 10, 1, 12));

    let mut get_user = Span::new("GetUser");
    get_user.start_time = Some(make_dt(10, 10, 1));
    get_user.end_time = Some(make_dt_milli(10, 10, 1, 3));

    let mut get_cart = Span::new("GetCart");
    get_cart.start_time = Some(make_dt(10, 10, 1));
    get_cart.end_time = Some(make_dt_milli(10, 10, 1, 2));

    let mut create_invoice = Span::new("CreateInvoice");
    create_invoice.start_time = Some(make_dt(10, 10, 1));
    create_invoice.end_time = Some(make_dt_milli(10, 10, 1, 5));

    let mut get_provider = Span::new("GetProvider");
    get_provider.error = Some(ErrorDetail::new(
        "No provider found with name \"paypau\"",
        ErrorType::Throw,
    ));

    create_invoice.add_child(get_provider);
    root.add_child(get_user);
    root.add_child(get_cart);
    root.add_child(create_invoice);

    let trace = Trace::from_root_span(root, Some("abc-123".into()));
    let output = render_to_string(&trace);

    let expected = format!(
        "Trace abc-123  {}  12ms  ❌ 1 error\n\
         \n❌ CreateOrderController{}12ms\n\
         \x20  ├── GetUser{}3ms\n\
         \x20  ├── GetCart{}2ms\n\
         \x20  └── ❌ CreateInvoice{}5ms\n\
         \x20      └── ❌ GetProvider\n\
         \x20          └── ⚡ THROW: No provider found with name \"paypau\"\n\
         \n─── Error Summary {}\n\
         \x20 ⚡ THROW │ GetProvider → \"No provider found with name \"paypau\"\"\n\
         {}\n",
        rule(44),
        pad(52),
        pad(57),
        pad(57),
        pad(48),
        rule(56),
        rule(80)
    );
    assert_eq!(output, expected);
}

#[test]
fn snapshot_trace_multiple_errors() {
    let mut root = Span::new("BatchProcessor");
    root.start_time = Some(make_dt(10, 0, 0));
    root.end_time = Some(make_dt(10, 0, 5));

    let mut service_a = Span::new("ServiceA");
    service_a.error = Some(ErrorDetail::new("Connection refused", ErrorType::Exception));

    let mut service_b = Span::new("ServiceB");
    service_b.error = Some(ErrorDetail::new("Request timed out", ErrorType::Timeout));

    root.add_child(Span::new("HealthCheck"));
    root.add_child(service_a);
    root.add_child(service_b);

    let trace = Trace::from_root_span(root, Some("batch-1".into()));
    let output = render_to_string(&trace);

    let expected = format!(
        "Trace batch-1  {}  5.0s  ❌ 2 errors\n\
         \n❌ BatchProcessor{}5.0s\n\
         \x20  ├── HealthCheck\n\
         \x20  ├── ❌ ServiceA\n\
         \x20  │   └── ⚡ EXCEPTION: Connection refused\n\
         \x20  └── ❌ ServiceB\n\
         \x20      └── ⚡ TIMEOUT: Request timed out\n\
         \n─── Error Summary {}\n\
         \x20 ⚡ EXCEPTION │ ServiceA → \"Connection refused\"\n\
         \x20 ⚡ TIMEOUT │ ServiceB → \"Request timed out\"\n\
         {}\n",
        rule(43),
        pad(59),
        rule(56),
        rule(80)
    );
    assert_eq!(output, expected);
}

// ── Colours ─────────────────────────────────────────────────────────────────

#[test]
fn no_color_output_has_no_escape_sequences() {
    let mut root = Span::new("Controller");
    root.start_time = Some(make_dt(10, 0, 0));
    root.end_time = Some(make_dt(10, 0, 1));

    let mut child = Span::new("FailingService");
    child.error = Some(ErrorDetail::new("boom", ErrorType::Throw));
    root.add_child(child);

    let trace = Trace::from_root_span(root, Some("req-1".into()));

    let renderer = TreeRenderer::with_width(ColorConfig::new(false), 80);
    let mut buf = String::new();
    renderer.render(&trace, &mut buf);

    assert!(
        !buf.contains("\x1b["),
        "Output should not contain ANSI escape sequences when color is disabled"
    );
}

#[test]
fn color_output_has_escape_sequences() {
    let mut root = Span::new("Controller");
    root.start_time = Some(make_dt(10, 0, 0));
    root.end_time = Some(make_dt(10, 0, 1));

    let mut child = Span::new("FailingService");
    child.error = Some(ErrorDetail::new("boom", ErrorType::Throw));
    root.add_child(child);

    let trace = Trace::from_root_span(root, Some("req-1".into()));

    let renderer = TreeRenderer::with_width(ColorConfig::new(true), 80);
    let mut buf = String::new();
    renderer.render(&trace, &mut buf);

    assert!(
        buf.contains("\x1b["),
        "Output should contain ANSI escape sequences when color is enabled"
    );
}

// ── Layout ──────────────────────────────────────────────────────────────────

#[test]
fn duration_aligned_right() {
    let mut root = Span::new("Controller");
    root.start_time = Some(make_dt(10, 0, 0));
    root.end_time = Some(make_dt(10, 0, 1));

    let trace = Trace::from_root_span(root, Some("req-1".into()));
    let output = render_to_string(&trace);

    let lines: Vec<&str> = output.lines().collect();
    let header = lines[0];
    assert!(header.contains("1.0s"), "Header should contain duration");
}

#[test]
fn render_all_separates_with_blank_line() {
    let root1 = Span::new("ControllerA");
    let root2 = Span::new("ControllerB");

    let trace1 = Trace::from_root_span(root1, Some("req-1".into()));
    let trace2 = Trace::from_root_span(root2, Some("req-2".into()));

    let renderer = make_renderer();
    let mut buf = String::new();
    render_all(&[trace1, trace2], &renderer, &mut buf);

    assert!(
        buf.contains("\n\n"),
        "Multiple traces should be separated by blank lines"
    );
}

#[test]
fn render_all_is_each_rendering_joined_by_blank_lines() {
    let trace1 = Trace::from_root_span(Span::new("A"), Some("1".into()));
    let trace2 = Trace::from_root_span(Span::new("B"), Some("2".into()));
    let renderer = make_renderer();
    let one = render_to_string(&trace1);
    let two = render_to_string(&trace2);
    let mut all = String::new();
    render_all(&[trace1, trace2], &renderer, &mut all);
    assert_eq!(all, format!("{}\n{}", one, two));
}

#[test]
fn truncate_long_span_name() {
    let result = truncate_name("VeryLongControllerNameThatExceedsEverything", 40, 4);
    assert!(result.chars().count() <= 21); // max_name_len = 40-4-15 = 21
    assert!(result.ends_with('…'));
}

#[test]
fn truncate_name_exact_cut() {
    assert_eq!(
        truncate_name("VeryLongControllerNameThatExceedsEverything", 40, 4),
        "VeryLongControllerNa…"
    );
    // Too narrow a line: 20 characters at most.
    assert_eq!(
        truncate_name("ABCDEFGHIJKLMNOPQRSTUVWXYZ", 10, 4),
        "ABCDEFGHIJKLMNOPQRS…"
    );
}

#[test]
fn short_name_not_truncated() {
    let result = truncate_name("GetUser", 80, 4);
    assert_eq!(result, "GetUser");
}

#[test]
fn renders_empty_trace() {
    let root = Span::new("(empty)");
    let trace = Trace::from_root_span(root, Some("empty".into()));
    let output = render_to_string(&trace);

    assert!(output.contains("Trace empty"));
    assert!(output.contains("(empty)"));
}

#[test]
fn http_span_with_error_shows_request_body() {
    let mut root = Span::new("POST https://api.example.com/pay");
    root.error = Some(ErrorDetail::new("bad gateway", ErrorType::Unknown));
    root.events.push(LogEvent {
        timestamp: None,
        level: LogLevel::Info,
        message: "Request Body:   {\"amount\": 10}  ".into(),
        request_id: None,
        trace_id: None,
        thread_id: None,
        source_location: None,
        raw_line: String::new(),
        line_number: 1,
    });
    let trace = Trace::from_root_span(root, Some("pay-1".into()));
    let output = render_to_string(&trace);
    assert!(output.contains("\n    └── ⚡ ERROR: bad gateway\n    Request body: {\"amount\": 10}\n"));
}

#[test]
fn renderings_end_with_line_feed_and_summary_only_on_failure() {
    let ok = Trace::from_root_span(Span::new("Fine"), Some("ok-1".into()));
    let mut failing_root = Span::new("Broken");
    failing_root.error = Some(ErrorDetail::new("kaput", ErrorType::Panic));
    let failing = Trace::from_root_span(failing_root, Some("bad-1".into()));
    let ok_text = render_to_string(&ok);
    let bad_text = render_to_string(&failing);
    assert!(ok_text.ends_with('\n') && bad_text.ends_with('\n'));
    assert!(!ok_text.contains("Error Summary"));
    assert!(bad_text.contains("─── Error Summary "));
    assert!(bad_text.contains("  ⚡ PANIC │ Broken → \"kaput\"\n"));
}
