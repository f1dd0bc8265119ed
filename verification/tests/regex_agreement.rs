//! The hand-written grammar against the regular expressions it stands for,
//! run by the regex crate on a generated corpus.
use chrono::NaiveDateTime;
use flowtracer::classifier::patterns::{match_entry, match_error, match_exit};
use flowtracer::{LogLevel, LogParser, PlainTextParser};
use regex::Regex;

const FRAGMENTS: &[&str] = &[
    "Executing", "executing", "EXECUTING", " ", "  ", "\t", "\n", "endpoint", "'",
    "Ctrl.Act (Api)", "action", "method", "(", ")", "x", "-", "on", "controller", "Foo.Bar",
    "Enter", "Entering", "enter", "Starting", "Handling", "Processing", "Calling", "-->", "<--",
    "Request", "starting", "finished", "HTTP/1.1", "GET", "post", "http://h/x", "Start",
    "processing", "HTTP", "request", "End", "after", "12.5", "ms", "200", "Executed", "in",
    "completed", "Completed", "started", "STARTED", "Exiting", ",", "throw", "new", "Err", "(bad)", "Exception",
    "Error", "PANIC", "FATAL", ":", "failed", "to", "No", "provider", "found", "ı", "\u{212A}",
    "\u{17F}", "é", "日本", "_", ".", "=", "RequestId=", "request_id:", "traceId=", "TRACEID=",
    "requeſtid=", "[Thread 14]", "[Thread  a]b]", "[thread-pool-3]", "[thread9]", "[abc-123-def]",
    "[abcd]", "[INFO]", "[info]", "INFO", "WARNING", "WARN", "ERROR:", "Err:", "crit", "\u{2003}",
    "2026-03-12 10:10:01", "2026-03-12T10:10:01.123", "2026-03-12 10:10:01.1234", ".5", "[", "]",
    "abc", "7", "42",
];

/// Digits beyond ASCII, which `\d` takes: Arabic-Indic and fullwidth.
const UNICODE_DIGIT_FRAGMENTS: &[&str] = &[
    "\u{661}\u{662}", "\u{663}", "\u{FF12}\u{FF10}", "[thread-\u{667}]", "after \u{663}.\u{665} ms - \u{662}",
    "\u{662}\u{660}\u{662}\u{666}-\u{660}\u{663}-\u{661}\u{662} \u{661}\u{660}:\u{661}\u{660}:\u{660}\u{661}",
];

/// A deterministic corpus of texts glued from `FRAGMENTS`.
fn corpus(n: usize, seed: u64) -> Vec<String> {
    corpus_of(FRAGMENTS, n, seed)
}

/// A deterministic corpus of texts glued from `fragments`.
fn corpus_of(fragments: &[&str], n: usize, seed: u64) -> Vec<String> {
    let mut state = seed;
    let mut next = move || {
        state = state.wrapping_mul(6364136223846793005).wrapping_add(1442695040888963407);
        (state >> 33) as usize
    };
    let mut out = Vec::new();
    for _ in 0..n {
        let parts = 1 + next() % 8;
        let mut s = String::new();
        for _ in 0..parts {
            s.push_str(fragments[next() % fragments.len()]);
        }
        out.push(s);
    }
    out
}

fn entry_regexes() -> Vec<Regex> {
    vec![
        Regex::new(r"(?i)^Executing\s+endpoint\s+'([^']+)'").unwrap(),
        Regex::new(r"(?i)^Executing\s+action\s+method\s+([^\s-]+(?:\s+\([^)]+\))?)").unwrap(),
        Regex::new(r"(?i)on\s+controller\s+([^\s(]+(?:\s+\([^)]+\))?)").unwrap(),
        Regex::new(r"(?i)^Executing\s+(?:method\s+)?(\S+)").unwrap(),
        Regex::new(r"(?i)^Enter(?:ing)?\s+(\S+)").unwrap(),
        Regex::new(r"(?i)^Starting\s+(\S+)").unwrap(),
        Regex::new(r"(?i)^Handling\s+(\S+)").unwrap(),
        Regex::new(r"(?i)^Processing\s+(\S+)").unwrap(),
        Regex::new(r"(?i)^Calling\s+(\S+)").unwrap(),
        Regex::new(r"^-->\s+(\S+)").unwrap(),
        Regex::new(r"(?i)^(\S+)\s+started").unwrap(),
        Regex::new(r"(?i)^Request\s+starting\s+\S+\s+((?:GET|POST|PUT|PATCH|DELETE|HEAD)\s+\S+)")
            .unwrap(),
        Regex::new(
            r"(?i)^Start\s+processing\s+HTTP\s+request\s+((?:GET|POST|PUT|PATCH|DELETE|HEAD)\s+\S+)",
        )
        .unwrap(),
    ]
}

fn exit_regexes() -> Vec<Regex> {
    vec![
        Regex::new(r"(?i)^Executed\s+endpoint\s+'([^']+)'").unwrap(),
        Regex::new(r"(?i)^Executed\s+action\s+([^\s]+(?:\s+\([^)]+\))?)\s+in\s+").unwrap(),
        Regex::new(r"(?i)^Executed\s+action\s+method\s+([^\s,]+(?:\s+\([^)]+\))?)").unwrap(),
        Regex::new(r"(?i)^(\S+)\s+completed").unwrap(),
        Regex::new(r"(?i)^(\S+)\s+finished").unwrap(),
        Regex::new(r"(?i)^Exiting\s+(\S+)").unwrap(),
        Regex::new(r"^<--\s+(\S+)").unwrap(),
        Regex::new(r"(?i)^Completed\s+(\S+)").unwrap(),
        Regex::new(r"(?i)^Request\s+finished\s+\S+\s+((?:GET|POST|PUT|PATCH|DELETE|HEAD)\s+\S+)")
            .unwrap(),
        Regex::new(r"(?i)^End\s+processing\s+(HTTP\s+request)\s+after\s+[\d.]+\s*ms\s+-\s+\d+")
            .unwrap(),
    ]
}

fn first_capture(res: &[Regex], s: &str) -> Option<String> {
    for re in res {
        if let Some(c) = re.captures(s) {
            return Some(c[1].to_string());
        }
    }
    None
}

#[derive(Debug, PartialEq)]
struct ErrorView {
    message: String,
    is_throw: bool,
    is_exception: bool,
    exception_name: Option<String>,
}

fn error_regexes() -> [Regex; 4] {
    [
        Regex::new(r"(?i)(?:Exception|Error|PANIC|FATAL):\s*(.+)").unwrap(),
        Regex::new(r"(?i)throw\s+(?:new\s+)?(\w+)(?:\((.+)\))?").unwrap(),
        Regex::new(r"(?i)failed\s+to\s+.+?:\s*(.+)").unwrap(),
        Regex::new(r"(?i)No\s+\w+\s+found.+").unwrap(),
    ]
}

fn error_by_regex(res: &[Regex; 4], message: &str) -> Option<ErrorView> {
    let [exception, throw, failed, not_found] = res;
    if let Some(c) = throw.captures(message) {
        return Some(ErrorView {
            message: c.get(2).map(|m| m.as_str().to_string()).unwrap_or_else(|| message.to_string()),
            is_throw: true,
            is_exception: false,
            exception_name: Some(c[1].to_string()),
        });
    }
    if let Some(c) = exception.captures(message) {
        return Some(ErrorView {
            message: c[1].trim().to_string(),
            is_throw: false,
            is_exception: message.to_lowercase().contains("exception"),
            exception_name: None,
        });
    }
    if let Some(c) = failed.captures(message) {
        return Some(ErrorView {
            message: c[1].trim().to_string(),
            is_throw: false,
            is_exception: false,
            exception_name: None,
        });
    }
    if not_found.is_match(message) {
        return Some(ErrorView {
            message: message.to_string(),
            is_throw: false,
            is_exception: false,
            exception_name: None,
        });
    }
    None
}

#[test]
fn entry_grammar_agrees_with_regexes() {
    let res = entry_regexes();
    for s in corpus(40000, 1) {
        let ours = match_entry(&s).map(|m| m.name.unwrap());
        assert_eq!(ours, first_capture(&res, &s), "message {:?}", s);
    }
}

#[test]
fn exit_grammar_agrees_with_regexes() {
    let res = exit_regexes();
    for s in corpus(40000, 2) {
        let ours = match_exit(&s).map(|m| m.name.unwrap());
        assert_eq!(ours, first_capture(&res, &s), "message {:?}", s);
    }
}

#[test]
fn exit_grammar_agrees_with_regexes_on_unicode_digits() {
    let res = exit_regexes();
    let line = "End processing HTTP request after \u{663}.\u{665} ms - \u{662}\u{660}\u{660}";
    assert_eq!(first_capture(&res, line).as_deref(), Some("HTTP request"));
    assert_eq!(match_exit(line).and_then(|m| m.name).as_deref(), Some("HTTP request"));
    let fragments: Vec<&str> =
        FRAGMENTS.iter().chain(UNICODE_DIGIT_FRAGMENTS).copied().collect();
    for s in corpus_of(&fragments, 3000, 6) {
        let ours = match_exit(&s).map(|m| m.name.unwrap());
        assert_eq!(ours, first_capture(&res, &s), "message {:?}", s);
    }
}

#[test]
fn error_grammar_agrees_with_regexes() {
    let res = error_regexes();
    for s in corpus(40000, 3) {
        let ours = match_error(&s).map(|m| ErrorView {
            message: m.message,
            is_throw: m.is_throw,
            is_exception: m.is_exception,
            exception_name: m.exception_name,
        });
        assert_eq!(ours, error_by_regex(&res, &s), "message {:?}", s);
    }
}

// ── The line parser ─────────────────────────────────────────────────────────

fn level_of(s: &str) -> LogLevel {
    match s.to_uppercase().as_str() {
        "TRACE" => LogLevel::Trace,
        "DEBUG" => LogLevel::Debug,
        "INFO" => LogLevel::Info,
        "WARN" | "WARNING" => LogLevel::Warn,
        "ERROR" | "ERR" => LogLevel::Error,
        "FATAL" | "CRITICAL" | "CRIT" => LogLevel::Fatal,
        _ => LogLevel::Unknown,
    }
}

fn timestamp_of(s: &str) -> Option<i64> {
    let normalized = s.replace('T', " ");
    let trimmed = normalized.trim();
    NaiveDateTime::parse_from_str(trimmed, "%Y-%m-%d %H:%M:%S%.3f")
        .or_else(|_| NaiveDateTime::parse_from_str(trimmed, "%Y-%m-%d %H:%M:%S%.f"))
        .or_else(|_| NaiveDateTime::parse_from_str(trimmed, "%Y-%m-%d %H:%M:%S"))
        .ok()
        .map(|d| d.and_utc().timestamp_millis())
}

#[derive(Debug, PartialEq)]
struct EventView {
    timestamp: Option<i64>,
    level: LogLevel,
    message: String,
    request_id: Option<String>,
    trace_id: Option<String>,
    thread_id: Option<String>,
}

fn line_regexes() -> Vec<Regex> {
    let ts_bracket = Regex::new(
        r"^(\d{4}-\d{2}-\d{2}[T ]\d{2}:\d{2}:\d{2}(?:\.\d{1,3})?)\s+\[(\w+)\]\s*(.*)",
    )
    .unwrap();
    let ts_bare = Regex::new(
        r"^(\d{4}-\d{2}-\d{2}[T ]\d{2}:\d{2}:\d{2}(?:\.\d{1,3})?)\s+(TRACE|DEBUG|INFO|WARN(?:ING)?|ERROR|FATAL)\s+(.*)",
    )
    .unwrap();
    let bracket_level = Regex::new(r"^\[(\w+)\]\s*(.*)").unwrap();
    let level_colon =
        Regex::new(r"^(TRACE|DEBUG|INFO|WARN(?:ING)?|ERROR|FATAL):\s*(.*)").unwrap();
    let request_id_re =
        Regex::new(r"(?i)(?:RequestId=|request_id:|traceId=)([\w\-.:]+)").unwrap();
    let bracket_id = Regex::new(r"^\[([\w\-]{5,})\]\s*(.*)").unwrap();
    let thread_id_re = Regex::new(r"\[Thread\s+(\S+)\]").unwrap();
    let thread_name_re = Regex::new(r"\[(thread[\w\-]*\d+)\]").unwrap();
    vec![
        ts_bracket,
        ts_bare,
        bracket_level,
        level_colon,
        request_id_re,
        bracket_id,
        thread_id_re,
        thread_name_re,
    ]
}

fn parse_by_regex(res: &[Regex], line: &str) -> Option<EventView> {
    let (ts_bracket, ts_bare, bracket_level, level_colon) = (&res[0], &res[1], &res[2], &res[3]);
    let (request_id_re, bracket_id, thread_id_re, thread_name_re) =
        (&res[4], &res[5], &res[6], &res[7]);
    let trimmed = line.trim();
    if trimmed.is_empty() {
        return None;
    }
    let (timestamp, level, raw) = if let Some(c) = ts_bracket.captures(trimmed) {
        (timestamp_of(&c[1]), level_of(&c[2]), c[3].to_string())
    } else if let Some(c) = ts_bare.captures(trimmed) {
        (timestamp_of(&c[1]), level_of(&c[2]), c[3].to_string())
    } else if let Some(c) = bracket_level
        .captures(trimmed)
        .filter(|c| level_of(&c[1]) != LogLevel::Unknown)
    {
        (None, level_of(&c[1]), c[2].to_string())
    } else if let Some(c) = level_colon.captures(trimmed) {
        (None, level_of(&c[1]), c[2].to_string())
    } else {
        (None, LogLevel::Unknown, trimmed.to_string())
    };

    let mut request_id = None;
    let mut trace_id = None;
    let mut clean = raw.clone();
    if let Some(c) = request_id_re.captures(&raw) {
        let id = c[1].to_string();
        let full = c.get(0).unwrap().as_str();
        if full.to_lowercase().starts_with("traceid") {
            trace_id = Some(id);
        } else {
            request_id = Some(id);
        }
        clean = clean.replace(full, "").trim().to_string();
    }
    if request_id.is_none() && trace_id.is_none() {
        if let Some(c) = bracket_id.captures(&clean) {
            request_id = Some(c[1].to_string());
            clean = c[2].to_string();
        }
    }
    let thread_id = thread_id_re
        .captures(&raw)
        .map(|c| c[1].to_string())
        .or_else(|| thread_name_re.captures(&raw).map(|c| c[1].to_string()));
    if let Some(m) = thread_id_re.find(&raw) {
        clean = clean.replace(m.as_str(), "").trim().to_string();
    }
    Some(EventView {
        timestamp,
        level,
        message: clean.trim().to_string(),
        request_id,
        trace_id,
        thread_id,
    })
}

const LINE_HEADS: &[&str] = &[
    "", "2026-03-12 10:10:01 ", "2026-03-12T10:10:01.123  ", "2026-03-12 10:10:01.12345 ",
    "2026-02-30 10:10:01 ", "2026-03-12 10:10:61.5 ", "2026-03-12 23:59:60 ", "[INFO] ",
    "[Error]", "[warning] ", "[CRIT] ", "[abc-123-def] ", "INFO ", "WARNING ", "WARN: ",
    "ERROR:", "INFO:\t", "  ", "\t\n",
];

/// Timestamps written with digits beyond ASCII (Arabic-Indic, fullwidth):
/// `\d` takes them, chrono does not.
const UNICODE_DIGIT_HEADS: &[&str] = &[
    "\u{662}\u{660}\u{662}\u{666}-\u{660}\u{663}-\u{661}\u{662} \u{661}\u{660}:\u{661}\u{660}:\u{660}\u{661} ",
    "\u{FF12}\u{FF10}\u{FF12}\u{FF16}-\u{FF10}\u{FF13}-\u{FF11}\u{FF12}T\u{FF11}\u{FF10}:\u{FF11}\u{FF10}:\u{FF10}\u{FF11}.\u{FF11}\u{FF12} ",
    "\u{FF12}\u{FF10}\u{FF12}\u{FF16}-\u{FF10}\u{FF13}-\u{FF11}\u{FF12} \u{FF11}\u{FF10}:\u{FF11}\u{FF10}:\u{FF10}\u{FF11} INFO ",
    "2026-03-12 10:10:0\u{661} ",
];

#[test]
fn line_parser_agrees_with_regexes() {
    let parser = PlainTextParser::new();
    let res = line_regexes();
    let mut i = 0usize;
    for body in corpus(8000, 4) {
        for head in LINE_HEADS {
            let line = format!("{}{}", head, body);
            let ours = parser.parse_line(&line, i + 1).map(|e| {
                assert_eq!(e.raw_line, line);
                assert_eq!(e.line_number, i + 1);
                assert!(e.source_location.is_none());
                EventView {
                    timestamp: e.timestamp,
                    level: e.level,
                    message: e.message,
                    request_id: e.request_id,
                    trace_id: e.trace_id,
                    thread_id: e.thread_id,
                }
            });
            assert_eq!(ours, parse_by_regex(&res, &line), "line {:?}", line);
            i += 1;
        }
    }
}

#[test]
fn line_parser_agrees_with_regexes_on_unicode_digits() {
    let parser = PlainTextParser::new();
    let res = line_regexes();
    let mut i = 0usize;
    let fragments: Vec<&str> =
        FRAGMENTS.iter().chain(UNICODE_DIGIT_FRAGMENTS).copied().collect();
    for body in corpus_of(&fragments, 60, 5) {
        for head in UNICODE_DIGIT_HEADS {
            let line = format!("{}{}", head, body);
            let ours = parser.parse_line(&line, i + 1).map(|e| {
                assert_eq!(e.raw_line, line);
                assert_eq!(e.line_number, i + 1);
                assert!(e.source_location.is_none());
                EventView {
                    timestamp: e.timestamp,
                    level: e.level,
                    message: e.message,
                    request_id: e.request_id,
                    trace_id: e.trace_id,
                    thread_id: e.thread_id,
                }
            });
            assert_eq!(ours, parse_by_regex(&res, &line), "line {:?}", line);
            i += 1;
        }
    }
}
