//! The tree view of a trace: a header line, one line per span with box
//! drawing connectors and right-aligned durations, inline errors, and an
//! error summary.
use vstd::prelude::*;

use super::colors::{bold_text, dim_text, error_text, lightning_text, success_text, ColorConfig};
use super::Renderer;
use crate::model::error::{error_type_label, ErrorDetail};
use crate::model::event::LogEvent;
use crate::model::span::{lemma_models, spec_duration, Span, SpanModel};
use crate::model::trace::Trace;
use crate::text::{
    decimal, from_chars, push_char, push_decimal, push_str, slice_range, starts_with, string_of,
    to_chars, trim, trim_exec, at_exact_exec,
};
use crate::trace_builder::stack::{is_http_request_name, is_http_request_span};

verus! {

// ── Text measures ───────────────────────────────────────────────────────────

/// Number of bytes of `c` in UTF-8.
pub open spec fn utf8_width(c: char) -> nat {
    if (c as u32) < 0x80 {
        1
    } else if (c as u32) < 0x800 {
        2
    } else if (c as u32) < 0x10000 {
        3
    } else {
        4
    }
}

/// Number of bytes of `s` in UTF-8 (what `str::len` gives).
pub open spec fn utf8_len(s: Seq<char>) -> nat
    decreases s.len(),
{
    if s.len() == 0 {
        0
    } else {
        utf8_len(s.drop_last()) + utf8_width(s.last())
    }
}

fn utf8_len_exec(s: &str) -> (n: u128)
    ensures
        n == utf8_len(s@),
        n <= 0x4_0000_0000_0000_0000,
{
    let cs = to_chars(s);
    let mut n: u128 = 0;
    let mut i: usize = 0;
    while i < cs.len()
        invariant
            0 <= i <= cs@.len(),
            cs@ == s@,
            n == utf8_len(cs@.take(i as int)),
            n <= 4 * i,
        decreases cs@.len() - i,
    {
        assert(cs@.take(i + 1).drop_last() =~= cs@.take(i as int));
        let u = cs[i] as u32;
        let k: u128 = if u < 0x80 {
            1
        } else if u < 0x800 {
            2
        } else if u < 0x10000 {
            3
        } else {
            4
        };
        n = n + k;
        i = i + 1;
    }
    assert(cs@.take(cs@.len() as int) =~= cs@);
    n
}

/// `n` copies of `c`.
pub open spec fn repeat(c: char, n: nat) -> Seq<char> {
    Seq::new(n, |i: int| c)
}

fn push_repeat(out: &mut String, c: char, n: usize)
    ensures
        final(out)@ == old(out)@ + repeat(c, n as nat),
{
    let mut i: usize = 0;
    while i < n
        invariant
            0 <= i <= n,
            out@ == old(out)@ + repeat(c, i as nat),
        decreases n - i,
    {
        push_char(out, c);
        i = i + 1;
        assert(out@ =~= old(out)@ + repeat(c, i as nat));
    }
}

// ── Durations ───────────────────────────────────────────────────────────────

/// For `1000 <= m < 64000`: `2^(52 - e)`, where `2^e <= m / 1000 < 2^(e+1)`;
/// binary64 numbers in that range are the multiples of its inverse.
pub open spec fn f64_scale(m: nat) -> nat {
    if m < 2000 {
        4503599627370496
    } else if m < 4000 {
        2251799813685248
    } else if m < 8000 {
        1125899906842624
    } else if m < 16000 {
        562949953421312
    } else if m < 32000 {
        281474976710656
    } else {
        140737488355328
    }
}

/// `m / 1000` in tenths, rounded as `format!("{:.1}", m as f64 / 1000.0)`
/// rounds: the quotient is first rounded to the nearest binary64 (never a
/// tie here: `N / f64_scale(m)` with `N` the nearest integer to
/// `m * f64_scale(m) / 1000`), and that number is rounded to a tenth, ties to
/// even. Only for `m % 100 == 50` is the decimal quotient itself a tie, and
/// then which side the binary64 lies on decides.
pub open spec fn tenths(m: nat) -> nat {
    let q = m / 100;
    let r = m % 100;
    if r < 50 {
        q
    } else if r > 50 {
        q + 1
    } else {
        let exact = m * f64_scale(m);
        let n = (exact + 500) / 1000;
        if n * 1000 > exact {
            q + 1
        } else if n * 1000 < exact {
            q
        } else if q % 2 == 0 {
            q
        } else {
            q + 1
        }
    }
}

/// A duration for display: milliseconds below a second (`12ms`), seconds
/// with one decimal below a minute (`1.5s`), minutes and whole seconds
/// beyond (`1m30s`); nothing for an unknown duration.
pub open spec fn duration_text(d: Option<u64>) -> Seq<char> {
    match d {
        None => Seq::empty(),
        Some(m) => if m < 1000 {
            decimal(m as nat) + "ms"@
        } else if m < 60000 {
            let q = tenths(m as nat);
            decimal(q / 10) + "."@ + decimal(q % 10) + "s"@
        } else {
            decimal((m / 60000) as nat) + "m"@ + decimal(((m % 60000) / 1000) as nat) + "s"@
        },
    }
}

fn tenths_exec(m: u64) -> (q: u64)
    requires
        1000 <= m < 60000,
    ensures
        q == tenths(m as nat),
        q <= 600,
{
    let q = m / 100;
    let r = m % 100;
    if r < 50 {
        q
    } else if r > 50 {
        q + 1
    } else {
        let scale: u128 = if m < 2000 {
            4503599627370496
        } else if m < 4000 {
            2251799813685248
        } else if m < 8000 {
            1125899906842624
        } else if m < 16000 {
            562949953421312
        } else if m < 32000 {
            281474976710656
        } else {
            140737488355328
        };
        assert(scale == f64_scale(m as nat));
        assert((m as u128) * scale <= 60000 * 4503599627370496) by (nonlinear_arith)
            requires
                m < 60000,
                scale <= 4503599627370496,
        ;
        let exact: u128 = (m as u128) * scale;
        let n: u128 = (exact + 500) / 1000;
        if n * 1000 > exact {
            q + 1
        } else if n * 1000 < exact {
            q
        } else if q % 2 == 0 {
            q
        } else {
            q + 1
        }
    }
}

/// Format a duration for display (see `duration_text`).
pub fn format_duration(duration: Option<u64>) -> (s: String)
    ensures
        s@ == duration_text(duration),
{
    let mut s = String::new();
    match duration {
        None => {},
        Some(m) => {
            if m < 1000 {
                push_decimal(&mut s, m);
                push_str(&mut s, "ms");
            } else if m < 60000 {
                let q = tenths_exec(m);
                push_decimal(&mut s, q / 10);
                push_str(&mut s, ".");
                push_decimal(&mut s, q % 10);
                push_str(&mut s, "s");
            } else {
                push_decimal(&mut s, m / 60000);
                push_str(&mut s, "m");
                push_decimal(&mut s, (m % 60000) / 1000);
                push_str(&mut s, "s");
            }
        },
    }
    assert(s@ =~= duration_text(duration));
    s
}

// ── Truncation ──────────────────────────────────────────────────────────────

/// A message cut to its first 10240 characters.
pub open spec fn truncated_message(m: Seq<char>) -> Seq<char> {
    if m.len() > 10240 {
        m.take(10240)
    } else {
        m
    }
}

fn truncate_message(msg: &str) -> (r: String)
    ensures
        r@ == truncated_message(msg@),
{
    let cs = to_chars(msg);
    if cs.len() > 10240 {
        from_chars(slice_range(cs.as_slice(), 0, 10240).as_slice())
    } else {
        string_of(msg)
    }
}

/// A span name fitted into what is left of a line of `width` columns after
/// `prefix_len` bytes and the duration column: at most
/// `width - prefix_len - 15` characters (20 when that leaves too little),
/// cut with `…` when longer.
pub open spec fn truncated_name(name: Seq<char>, width: int, prefix_len: int) -> Seq<char> {
    let max = if width > prefix_len + 15 {
        width - prefix_len - 15
    } else {
        20
    };
    if name.len() > max {
        name.take(max - 1).push('…')
    } else {
        name
    }
}

/// Fit a span name into the line (see `truncated_name`).
pub fn truncate_name(name: &str, terminal_width: usize, prefix_len: usize) -> (r: String)
    ensures
        r@ == truncated_name(name@, terminal_width as int, prefix_len as int),
{
    fit_name(name, terminal_width as u128, prefix_len as u128)
}

fn fit_name(name: &str, w: u128, p: u128) -> (r: String)
    requires
        w <= usize::MAX,
        p <= 0x10_0000_0000_0000_0000,
    ensures
        r@ == truncated_name(name@, w as int, p as int),
{
    let max: u128 = if w > p + 15 {
        w - p - 15
    } else {
        20
    };
    let cs = to_chars(name);
    if (cs.len() as u128) > max {
        let keep = (max - 1) as usize;
        let mut r = from_chars(slice_range(cs.as_slice(), 0, keep).as_slice());
        push_char(&mut r, '…');
        r
    } else {
        string_of(name)
    }
}

// ── Request bodies ──────────────────────────────────────────────────────────

/// A request body for display: cut to 512 characters and marked with `…`
/// when it is longer than 512 bytes.
pub open spec fn body_display(b: Seq<char>) -> Seq<char> {
    if utf8_len(b) > 512 {
        (if b.len() > 512 {
            b.take(512)
        } else {
            b
        }).push('…')
    } else {
        b
    }
}

/// The body of the first event whose message starts with `Request Body:`:
/// the rest of that message, trimmed, for display.
pub open spec fn request_body(events: Seq<LogEvent>) -> Option<Seq<char>>
    decreases events.len(),
{
    if events.len() == 0 {
        None
    } else if starts_with(events[0].message@, "Request Body:"@) {
        Some(body_display(trim(events[0].message@.skip("Request Body:"@.len() as int))))
    } else {
        request_body(events.drop_first())
    }
}

/// Extract `Request Body: ...` from the first matching log event, cut for
/// display.
pub fn get_request_body_for_display(span: &Span) -> (r: Option<String>)
    ensures
        match r {
            Some(b) => request_body(span.events@) == Some(b@),
            None => request_body(span.events@) is None,
        },
{
    let n = span.events.len();
    let prefix = to_chars("Request Body:");
    let mut i: usize = 0;
    assert(span.events@.skip(0) =~= span.events@);
    while i < n
        invariant
            n == span.events@.len(),
            0 <= i <= n,
            prefix@ == "Request Body:"@,
            request_body(span.events@.skip(i as int)) == request_body(span.events@),
        decreases n - i,
    {
        let ghost rest = span.events@.skip(i as int);
        let msg = to_chars(span.events[i].message.as_str());
        if at_exact_exec(msg.as_slice(), 0, prefix.as_slice()) {
            let after = slice_range(msg.as_slice(), prefix.len(), msg.len());
            let body = trim_exec(after.as_slice());
            assert(after@ =~= msg@.skip("Request Body:"@.len() as int));
            let ulen = utf8_len_exec(from_chars(body.as_slice()).as_str());
            let shown = if ulen > 512 {
                let kept = if body.len() > 512 {
                    slice_range(body.as_slice(), 0, 512)
                } else {
                    slice_range(body.as_slice(), 0, body.len())
                };
                let mut s = from_chars(kept.as_slice());
                push_char(&mut s, '…');
                assert(body@.subrange(0, body@.len() as int) =~= body@);
                s
            } else {
                from_chars(body.as_slice())
            };
            assert(rest[0] == span.events@[i as int]);
            return Some(shown);
        }
        assert(rest.drop_first() =~= span.events@.skip(i + 1));
        i = i + 1;
    }
    None
}

// ── The renderer ───────────────────────────────────────────────────────────

/// `crossterm::terminal::size`: the columns and rows of the terminal the
/// process writes to, when there is one. It depends on the process and its
/// surroundings; nothing is promised of it.
#[verifier::external_body]
fn terminal_columns() -> (r: Option<u16>) {
    match crossterm::terminal::size() {
        Ok((w, _)) => Some(w),
        Err(_) => None,
    }
}

/// Renders traces as trees, fitted to a terminal width.
pub struct TreeRenderer {
    pub colors: ColorConfig,
    pub terminal_width: usize,
}

impl TreeRenderer {
    /// A renderer for the current terminal's width, or 80 columns when the
    /// output is no terminal: `for_columns` of what the terminal reports.
    pub fn new(colors: ColorConfig) -> (r: Self)
        ensures
            r.colors == colors,
            r.terminal_width <= 65535,
    {
        Self::for_columns(colors, terminal_columns())
    }

    /// A renderer for a terminal of `columns` columns, or of 80 columns when
    /// there is no terminal.
    pub fn for_columns(colors: ColorConfig, columns: Option<u16>) -> (r: Self)
        ensures
            r.colors == colors,
            r.terminal_width == match columns {
                Some(w) => w as usize,
                None => 80usize,
            },
    {
        let terminal_width = match columns {
            Some(w) => w as usize,
            None => 80,
        };
        TreeRenderer { colors, terminal_width }
    }

    pub fn with_width(colors: ColorConfig, width: usize) -> (r: Self)
        ensures
            r.colors == colors,
            r.terminal_width == width,
    {
        TreeRenderer { colors, terminal_width: width }
    }
}

pub open spec fn branch_mid() -> Seq<char> {
    "├── "@
}

pub open spec fn branch_end() -> Seq<char> {
    "└── "@
}

pub open spec fn branch_pipe() -> Seq<char> {
    "│   "@
}

pub open spec fn branch_space() -> Seq<char> {
    "    "@
}

/// The status shown in a trace's header.
pub open spec fn status_label(t: Trace) -> Seq<char> {
    if t.has_error {
        "❌ "@ + decimal(t.error_count as nat) + " error"@ + if t.error_count == 1 {
            Seq::empty()
        } else {
            "s"@
        }
    } else {
        "✅ ok"@
    }
}

/// Width of the dashed rule of a trace's header: what the line leaves
/// between the labels (with the four columns of separators), or 6 when
/// that is too little.
pub open spec fn header_dashes(r: TreeRenderer, t: Trace) -> int {
    let w = r.terminal_width as int;
    let fixed = utf8_len("Trace "@ + t.id@) + 2 + utf8_len(duration_text(t.total_duration)) + 2
        + utf8_len(status_label(t));
    if w > fixed + 4 {
        w - fixed - 4
    } else {
        6
    }
}

/// The header line of a trace: `Trace <id>`, a dashed rule that fills the
/// line, the duration and the status, two spaces apart.
#[verifier::opaque]
pub open spec fn header_line(r: TreeRenderer, t: Trace) -> Seq<char> {
    let c = r.colors;
    let id_label = "Trace "@ + t.id@;
    let status = status_label(t);
    (if t.has_error {
        error_text(c, id_label)
    } else {
        bold_text(c, id_label)
    }) + "  "@ + dim_text(c, repeat('─', header_dashes(r, t) as nat)) + "  "@ + dim_text(
        c,
        duration_text(t.total_duration),
    ) + "  "@ + (if t.has_error {
        error_text(c, status)
    } else {
        success_text(c, status)
    }) + "\n"@
}

/// The connector in front of a span's name.
pub open spec fn connector_for(is_last: bool, is_root: bool) -> Seq<char> {
    if is_root {
        Seq::empty()
    } else if is_last {
        branch_end()
    } else {
        branch_mid()
    }
}

/// The prefix of the lines under a span: `root_pad` under the root, blank
/// under a last child, a vertical bar otherwise.
pub open spec fn under_prefix(prefix: Seq<char>, is_last: bool, is_root: bool, root_pad: Seq<char>) -> Seq<char> {
    if is_root {
        prefix + root_pad
    } else if is_last {
        prefix + branch_space()
    } else {
        prefix + branch_pipe()
    }
}

/// The line of an error under a span: connector, then `⚡ <type>: <message>`.
pub open spec fn error_line(r: TreeRenderer, e: ErrorDetail, prefix: Seq<char>, only_child: bool) -> Seq<char> {
    prefix + (if only_child {
        branch_end()
    } else {
        branch_mid()
    }) + lightning_text(
        r.colors,
        error_type_label(e.error_type) + ": "@ + truncated_message(e.message@),
    ) + "\n"@
}

/// For an outgoing HTTP request, the line of its request body, when one was
/// logged.
#[verifier::opaque]
pub open spec fn body_block(r: TreeRenderer, s: SpanModel, prefix: Seq<char>) -> Seq<char> {
    if is_http_request_name(s.name) {
        match request_body(s.events) {
            Some(b) => (if s.children.len() == 0 {
                prefix + branch_space()
            } else {
                prefix + branch_pipe()
            }) + dim_text(r.colors, "Request body: "@) + dim_text(r.colors, b) + "\n"@,
            None => Seq::empty(),
        }
    } else {
        Seq::empty()
    }
}

/// The lines a span's own error adds: the error line, and for an outgoing
/// HTTP request the request body, when one was logged.
pub open spec fn error_block(r: TreeRenderer, s: SpanModel, e: ErrorDetail, prefix: Seq<char>, is_last: bool, is_root: bool) -> Seq<char> {
    error_line(r, e, under_prefix(prefix, is_last, is_root, "    "@), s.children.len() == 0)
        + body_block(r, s, prefix)
}

/// A span's name as shown, fitted to the line.
pub open spec fn shown_name(r: TreeRenderer, s: SpanModel, prefix: Seq<char>, is_last: bool, is_root: bool) -> Seq<char> {
    truncated_name(
        s.name,
        r.terminal_width as int,
        (utf8_len(prefix) + utf8_len(connector_for(is_last, is_root))) as int,
    )
}

/// Connector and name of a span: red with `❌` when it failed, the connector
/// dimmed otherwise.
#[verifier::opaque]
pub open spec fn span_head(r: TreeRenderer, s: SpanModel, prefix: Seq<char>, is_last: bool, is_root: bool) -> Seq<char> {
    let c = r.colors;
    let connector = connector_for(is_last, is_root);
    let name = shown_name(r, s, prefix, is_last, is_root);
    if s.has_error && !is_root {
        error_text(c, connector + "❌ "@ + name)
    } else if s.has_error && is_root {
        error_text(c, "❌ "@ + name)
    } else {
        dim_text(c, connector) + name
    }
}

/// A span's duration, padded so that it ends at the right edge of the line.
#[verifier::opaque]
pub open spec fn span_tail(r: TreeRenderer, s: SpanModel, prefix: Seq<char>, is_last: bool, is_root: bool) -> Seq<char> {
    let w = r.terminal_width as int;
    let dur = duration_text(spec_duration(s.start_time, s.end_time));
    if dur.len() > 0 {
        let cur = utf8_len(prefix) + utf8_len(connector_for(is_last, is_root)) + utf8_len(
            shown_name(r, s, prefix, is_last, is_root),
        ) + if s.has_error {
            3int
        } else {
            0int
        };
        let pad = if w > cur + utf8_len(dur) + 2 {
            w - cur - utf8_len(dur)
        } else {
            2
        };
        repeat(' ', pad as nat) + dim_text(r.colors, dur)
    } else {
        Seq::empty()
    }
}

/// The line of a span (after a blank line for the root).
#[verifier::opaque]
pub open spec fn span_line(r: TreeRenderer, s: SpanModel, prefix: Seq<char>, is_last: bool, is_root: bool) -> Seq<char> {
    (if is_root {
        "\n"@
    } else {
        Seq::empty()
    }) + prefix + span_head(r, s, prefix, is_last, is_root) + span_tail(r, s, prefix, is_last, is_root)
        + "\n"@
}

/// The lines of a span's own error, if it has one.
#[verifier::opaque]
pub open spec fn own_error(r: TreeRenderer, s: SpanModel, prefix: Seq<char>, is_last: bool, is_root: bool) -> Seq<char> {
    match s.error {
        Some(e) => error_block(r, s, e, prefix, is_last, is_root),
        None => Seq::empty(),
    }
}

/// A span and everything under it.
pub open spec fn span_text(r: TreeRenderer, s: SpanModel, prefix: Seq<char>, is_last: bool, is_root: bool) -> Seq<char>
    decreases s,
{
    span_line(r, s, prefix, is_last, is_root) + own_error(r, s, prefix, is_last, is_root)
        + children_text(r, s.children, under_prefix(prefix, is_last, is_root, "   "@), s.error is None)
}

/// Spans `kids` one after the other, the last of them drawn as the last
/// child when `last_is_last`.
pub open spec fn children_text(r: TreeRenderer, kids: Seq<SpanModel>, prefix: Seq<char>, last_is_last: bool) -> Seq<char>
    decreases kids,
{
    if kids.len() == 0 {
        Seq::empty()
    } else {
        children_text(r, kids.drop_last(), prefix, false) + span_text(
            r,
            kids.last(),
            prefix,
            last_is_last,
            false,
        )
    }
}

/// A line of the error summary.
pub open spec fn summary_line(r: TreeRenderer, name: Seq<char>, e: ErrorDetail) -> Seq<char> {
    error_text(
        r.colors,
        "  ⚡ "@ + error_type_label(e.error_type) + " │ "@ + name + " → \""@ + truncated_message(
            e.message@,
        ) + "\""@,
    ) + "\n"@
}

/// The summary lines of the errors of a subtree, in depth-first order.
pub open spec fn error_lines(r: TreeRenderer, s: SpanModel) -> Seq<char>
    decreases s,
{
    (match s.error {
        Some(e) => summary_line(r, s.name, e),
        None => Seq::empty(),
    }) + error_lines_all(r, s.children)
}

pub open spec fn error_lines_all(r: TreeRenderer, kids: Seq<SpanModel>) -> Seq<char>
    decreases kids,
{
    if kids.len() == 0 {
        Seq::empty()
    } else {
        error_lines_all(r, kids.drop_last()) + error_lines(r, kids.last())
    }
}

/// The error summary of a trace: a titled rule, a line per error, a closing
/// rule; nothing when the trace has no error.
pub open spec fn error_summary(r: TreeRenderer, t: Trace) -> Seq<char> {
    let c = r.colors;
    let w = r.terminal_width as int;
    let title = "─── Error Summary "@;
    if !t.has_error || !t.root@.any_error() {
        Seq::empty()
    } else {
        let remaining = if w > utf8_len(title) {
            w - utf8_len(title)
        } else {
            6
        };
        "\n"@ + dim_text(c, title + repeat('─', remaining as nat)) + "\n"@ + error_lines(r, t.root@)
            + dim_text(c, repeat('─', w as nat)) + "\n"@
    }
}

/// A whole trace: header, tree, error summary.
pub open spec fn trace_text(r: TreeRenderer, t: Trace) -> Seq<char> {
    header_line(r, t) + span_text(r, t.root@, Seq::empty(), true, true) + error_summary(r, t)
}

/// Traces one after the other, a blank line between two.
pub open spec fn traces_text(r: TreeRenderer, ts: Seq<Trace>) -> Seq<char>
    decreases ts.len(),
{
    if ts.len() == 0 {
        Seq::empty()
    } else {
        traces_text(r, ts.drop_last()) + (if ts.len() > 1 {
            "\n"@
        } else {
            Seq::empty()
        }) + trace_text(r, ts.last())
    }
}

fn subtree_has_error(span: &Span) -> (r: bool)
    ensures
        r == span@.any_error(),
    decreases span,
{
    if span.error.is_some() {
        return true;
    }
    proof {
        lemma_models(span.children@);
    }
    let ghost ms = span@.children;
    let n = span.children.len();
    let mut i: usize = 0;
    while i < n
        invariant
            n == span.children@.len(),
            0 <= i <= n,
            ms == Span::models(span.children@),
            ms.len() == n,
            forall|j: int| 0 <= j < n ==> #[trigger] ms[j] == span.children@[j]@,
            !SpanModel::any_error_all(ms.take(i as int)),
        decreases n - i,
    {
        assert(ms.take(i + 1).drop_last() =~= ms.take(i as int));
        if subtree_has_error(&span.children[i]) {
            proof {
                assert(SpanModel::any_error_all(ms.take(i + 1)));
                lemma_any_error_prefix(ms, i + 1);
            }
            return true;
        }
        i = i + 1;
    }
    assert(ms.take(n as int) =~= ms);
    false
}

proof fn lemma_any_error_prefix(ms: Seq<SpanModel>, k: int)
    requires
        0 <= k <= ms.len(),
        SpanModel::any_error_all(ms.take(k)),
    ensures
        SpanModel::any_error_all(ms),
    decreases ms.len() - k,
{
    if k < ms.len() {
        assert(ms.take(k + 1).drop_last() =~= ms.take(k));
        lemma_any_error_prefix(ms, k + 1);
    } else {
        assert(ms.take(k) =~= ms);
    }
}

fn under_prefix_exec(prefix: &str, is_last: bool, is_root: bool, root_pad: &str) -> (r: String)
    ensures
        r@ == under_prefix(prefix@, is_last, is_root, root_pad@),
{
    let mut r = string_of(prefix);
    if is_root {
        push_str(&mut r, root_pad);
    } else if is_last {
        push_str(&mut r, "    ");
    } else {
        push_str(&mut r, "│   ");
    }
    r
}

impl TreeRenderer {
    fn header_labels(&self, trace: &Trace) -> (r: (String, String, String, usize))
        ensures
            r.0@ == "Trace "@ + trace.id@,
            r.1@ == duration_text(trace.total_duration),
            r.2@ == status_label(*trace),
            r.3 == header_dashes(*self, *trace),
    {
        let mut id_label = string_of("Trace ");
        push_str(&mut id_label, trace.id.as_str());
        let duration_label = format_duration(trace.total_duration);
        let mut status = String::new();
        if trace.has_error {
            push_str(&mut status, "❌ ");
            push_decimal(&mut status, trace.error_count as u64);
            push_str(&mut status, " error");
            if trace.error_count != 1 {
                push_str(&mut status, "s");
            }
        } else {
            push_str(&mut status, "✅ ok");
        }
        assert(status@ =~= status_label(*trace));
        let fixed: u128 = utf8_len_exec(id_label.as_str()) + 2 + utf8_len_exec(
            duration_label.as_str(),
        ) + 2 + utf8_len_exec(status.as_str());
        let w = self.terminal_width as u128;
        let dash_count: usize = if w > fixed + 4 {
            (w - fixed - 4) as usize
        } else {
            6
        };
        (id_label, duration_label, status, dash_count)
    }

    fn render_header(&self, trace: &Trace, out: &mut String)
        ensures
            final(out)@ == old(out)@ + header_line(*self, *trace),
    {
        proof {
            reveal(header_line);
        }
        let (id_label, duration_label, status, dash_count) = self.header_labels(trace);
        let mut dashes = String::new();
        push_repeat(&mut dashes, '─', dash_count);
        assert(dashes@ =~= repeat('─', dash_count as nat));
        if trace.has_error {
            self.colors.write_error(out, id_label.as_str());
        } else {
            self.colors.write_bold(out, id_label.as_str());
        }
        push_str(out, "  ");
        self.colors.write_dim(out, dashes.as_str());
        push_str(out, "  ");
        self.colors.write_duration(out, duration_label.as_str());
        push_str(out, "  ");
        if trace.has_error {
            self.colors.write_error(out, status.as_str());
        } else {
            self.colors.write_success(out, status.as_str());
        }
        push_str(out, "\n");
        assert(out@ =~= old(out)@ + header_line(*self, *trace));
    }

    fn render_error_inline(&self, error: &ErrorDetail, out: &mut String, prefix: &str, is_only_child: bool)
        ensures
            final(out)@ == old(out)@ + error_line(*self, *error, prefix@, is_only_child),
    {
        push_str(out, prefix);
        if is_only_child {
            push_str(out, "└── ");
        } else {
            push_str(out, "├── ");
        }
        let mut text = error.error_type.to_string();
        push_str(&mut text, ": ");
        let m = truncate_message(error.message.as_str());
        push_str(&mut text, m.as_str());
        self.colors.write_lightning(out, text.as_str());
        push_str(out, "\n");
        assert(out@ =~= old(out)@ + error_line(*self, *error, prefix@, is_only_child));
    }

fn connector_str(is_last: bool, is_root: bool) -> (c: &'static str)
        ensures
            c@ == connector_for(is_last, is_root),
    {
        if is_root {
            proof {
                reveal_strlit("");
            }
            ""
        } else if is_last {
            "└── "
        } else {
            "├── "
        }
    }

    fn render_span_head(&self, span: &Span, out: &mut String, prefix: &str, is_last: bool, is_root: bool) -> (n: String)
        ensures
            final(out)@ == old(out)@ + span_head(*self, span@, prefix@, is_last, is_root),
            n@ == shown_name(*self, span@, prefix@, is_last, is_root),
    {
        proof {
            reveal(span_head);
        }
        let connector = Self::connector_str(is_last, is_root);
        let plen = utf8_len_exec(prefix);
        let clen = utf8_len_exec(connector);
        let name = fit_name(span.name.as_str(), self.terminal_width as u128, plen + clen);
        if span.has_error && !is_root {
            let mut t = string_of(connector);
            push_str(&mut t, "❌ ");
            push_str(&mut t, name.as_str());
            self.colors.write_error(out, t.as_str());
        } else if span.has_error && is_root {
            let mut t = string_of("❌ ");
            push_str(&mut t, name.as_str());
            self.colors.write_error(out, t.as_str());
        } else {
            self.colors.write_dim(out, connector);
            push_str(out, name.as_str());
        }
        assert(out@ =~= old(out)@ + span_head(*self, span@, prefix@, is_last, is_root));
        name
    }

    fn render_span_tail(&self, span: &Span, out: &mut String, prefix: &str, is_last: bool, is_root: bool, name: &String)
        requires
            name@ == shown_name(*self, span@, prefix@, is_last, is_root),
        ensures
            final(out)@ == old(out)@ + span_tail(*self, span@, prefix@, is_last, is_root),
    {
        proof {
            reveal(span_tail);
        }
        let duration_str = format_duration(span.duration());
        if !duration_str.as_str().is_empty() {
            let connector = Self::connector_str(is_last, is_root);
            let plen = utf8_len_exec(prefix);
            let clen = utf8_len_exec(connector);
            let dlen = utf8_len_exec(duration_str.as_str());
            let cur: u128 = plen + clen + utf8_len_exec(name.as_str()) + if span.has_error {
                3
            } else {
                0
            };
            let w = self.terminal_width as u128;
            let padding: usize = if w > cur + dlen + 2 {
                (w - cur - dlen) as usize
            } else {
                2
            };
            push_repeat(out, ' ', padding);
            self.colors.write_duration(out, duration_str.as_str());
        }
        assert(out@ =~= old(out)@ + span_tail(*self, span@, prefix@, is_last, is_root));
    }

    fn render_span_line(&self, span: &Span, out: &mut String, prefix: &str, is_last: bool, is_root: bool)
        ensures
            final(out)@ == old(out)@ + span_line(*self, span@, prefix@, is_last, is_root),
    {
        proof {
            reveal(span_line);
        }
        if is_root {
            push_str(out, "\n");
        }
        push_str(out, prefix);
        let name = self.render_span_head(span, out, prefix, is_last, is_root);
        self.render_span_tail(span, out, prefix, is_last, is_root, &name);
        push_str(out, "\n");
        assert(out@ =~= old(out)@ + span_line(*self, span@, prefix@, is_last, is_root));
    }

    fn render_request_body(&self, span: &Span, out: &mut String, prefix: &str)
        ensures
            final(out)@ == old(out)@ + body_block(*self, span@, prefix@),
    {
        proof {
            reveal(body_block);
            lemma_models(span.children@);
        }
        if is_http_request_span(span.name.as_str()) {
            if let Some(body) = get_request_body_for_display(span) {
                let mut body_prefix = string_of(prefix);
                if span.children.len() == 0 {
                    push_str(&mut body_prefix, "    ");
                } else {
                    push_str(&mut body_prefix, "│   ");
                }
                push_str(out, body_prefix.as_str());
                self.colors.write_dim(out, "Request body: ");
                self.colors.write_dim(out, body.as_str());
                push_str(out, "\n");
            }
        }
        assert(out@ =~= old(out)@ + body_block(*self, span@, prefix@));
    }

    fn render_own_error(&self, span: &Span, out: &mut String, prefix: &str, is_last: bool, is_root: bool)
        ensures
            final(out)@ == old(out)@ + own_error(*self, span@, prefix@, is_last, is_root),
    {
        proof {
            lemma_models(span.children@);
            reveal(own_error);
        }
        if let Some(error) = &span.error {
            let error_prefix = under_prefix_exec(prefix, is_last, is_root, "    ");
            self.render_error_inline(error, out, error_prefix.as_str(), span.children.len() == 0);
            self.render_request_body(span, out, prefix);
            assert(out@ =~= old(out)@ + own_error(*self, span@, prefix@, is_last, is_root));
        } else {
            assert(out@ =~= old(out)@ + own_error(*self, span@, prefix@, is_last, is_root));
        }
    }

    fn render_children(&self, span: &Span, out: &mut String, prefix: &str, is_last: bool, is_root: bool)
        ensures
            final(out)@ == old(out)@ + children_text(
                *self,
                span@.children,
                under_prefix(prefix@, is_last, is_root, "   "@),
                span@.error is None,
            ),
        decreases span, 0int,
    {
        let child_prefix = under_prefix_exec(prefix, is_last, is_root, "   ");
        proof {
            lemma_models(span.children@);
        }
        let ghost ms = span@.children;
        let no_error = span.error.is_none();
        let n = span.children.len();
        let mut i: usize = 0;
        while i < n
            invariant
                n == span.children@.len(),
                0 <= i <= n,
                ms == Span::models(span.children@),
                ms.len() == n,
                forall|j: int| 0 <= j < n ==> #[trigger] ms[j] == span.children@[j]@,
                no_error == (span.error is None),
                out@ == old(out)@ + children_text(
                    *self,
                    ms.take(i as int),
                    child_prefix@,
                    i == n && no_error,
                ),
            decreases n - i,
        {
            let child_is_last = i == n - 1 && no_error;
            proof {
                assert(ms.take(i + 1).drop_last() =~= ms.take(i as int));
                assert(ms.take(i + 1).last() == span.children@[i as int]@);
            }
            self.render_span(&span.children[i], out, child_prefix.as_str(), child_is_last, false);
            i = i + 1;
        }
        assert(ms.take(n as int) =~= ms);
    }

    fn render_span(&self, span: &Span, out: &mut String, prefix: &str, is_last: bool, is_root: bool)
        ensures
            final(out)@ == old(out)@ + span_text(*self, span@, prefix@, is_last, is_root),
        decreases span, 1int,
    {
        self.render_span_line(span, out, prefix, is_last, is_root);
        self.render_own_error(span, out, prefix, is_last, is_root);
        self.render_children(span, out, prefix, is_last, is_root);
        assert(out@ =~= old(out)@ + span_text(*self, span@, prefix@, is_last, is_root));
    }

    fn write_error_lines(&self, span: &Span, out: &mut String)
        ensures
            final(out)@ == old(out)@ + error_lines(*self, span@),
        decreases span,
    {
        if let Some(error) = &span.error {
            let mut line = string_of("  ⚡ ");
            let label = error.error_type.to_string();
            push_str(&mut line, label.as_str());
            push_str(&mut line, " │ ");
            push_str(&mut line, span.name.as_str());
            push_str(&mut line, " → \"");
            let m = truncate_message(error.message.as_str());
            push_str(&mut line, m.as_str());
            push_str(&mut line, "\"");
            self.colors.write_error(out, line.as_str());
            push_str(out, "\n");
            assert(line@ =~= "  ⚡ "@ + error_type_label(error.error_type) + " │ "@ + span@.name
                + " → \""@ + truncated_message(error.message@) + "\""@);
        }
        let ghost mid = out@;
        proof {
            lemma_models(span.children@);
        }
        let ghost ms = span@.children;
        let n = span.children.len();
        let mut i: usize = 0;
        while i < n
            invariant
                n == span.children@.len(),
                0 <= i <= n,
                ms == Span::models(span.children@),
                ms.len() == n,
                forall|j: int| 0 <= j < n ==> #[trigger] ms[j] == span.children@[j]@,
                out@ == mid + error_lines_all(*self, ms.take(i as int)),
            decreases n - i,
        {
            proof {
                assert(ms.take(i + 1).drop_last() =~= ms.take(i as int));
                assert(ms.take(i + 1).last() == span.children@[i as int]@);
            }
            self.write_error_lines(&span.children[i], out);
            i = i + 1;
        }
        assert(ms.take(n as int) =~= ms);
        assert(out@ =~= old(out)@ + error_lines(*self, span@));
    }

    fn render_error_summary(&self, trace: &Trace, out: &mut String)
        ensures
            final(out)@ == old(out)@ + error_summary(*self, *trace),
    {
        if !trace.has_error || !subtree_has_error(&trace.root) {
            assert(out@ =~= old(out)@ + error_summary(*self, *trace));
            return;
        }
        push_str(out, "\n");
        let title = "─── Error Summary ";
        let tl = utf8_len_exec(title);
        let w = self.terminal_width as u128;
        let remaining: usize = if w > tl {
            (w - tl) as usize
        } else {
            6
        };
        let mut rule = string_of(title);
        push_repeat(&mut rule, '─', remaining);
        self.colors.write_dim(out, rule.as_str());
        push_str(out, "\n");
        self.write_error_lines(&trace.root, out);
        let mut full = String::new();
        push_repeat(&mut full, '─', self.terminal_width);
        assert(full@ =~= repeat('─', self.terminal_width as nat));
        self.colors.write_dim(out, full.as_str());
        push_str(out, "\n");
        assert(out@ =~= old(out)@ + error_summary(*self, *trace));
    }
}

impl Renderer for TreeRenderer {
    /// Append the rendering of `trace`: header, tree, error summary.
    fn render(&self, trace: &Trace, out: &mut String)
        ensures
            final(out)@ == old(out)@ + trace_text(*self, *trace),
    {
        self.render_header(trace, out);
        proof {
            reveal_strlit("");
            assert(""@ =~= Seq::<char>::empty());
        }
        self.render_span(&trace.root, out, "", true, true);
        self.render_error_summary(trace, out);
        assert(out@ =~= old(out)@ + trace_text(*self, *trace));
    }
}

/// Render several traces, separated by blank lines.
pub fn render_all(traces: &[Trace], renderer: &TreeRenderer, out: &mut String)
    ensures
        final(out)@ == old(out)@ + traces_text(*renderer, traces@),
{
    let n = traces.len();
    let mut i: usize = 0;
    while i < n
        invariant
            n == traces@.len(),
            0 <= i <= n,
            out@ == old(out)@ + traces_text(*renderer, traces@.take(i as int)),
        decreases n - i,
    {
        assert(traces@.take(i + 1).drop_last() =~= traces@.take(i as int));
        if i > 0 {
            push_str(out, "\n");
        }
        renderer.render(&traces[i], out);
        i = i + 1;
        assert(out@ =~= old(out)@ + traces_text(*renderer, traces@.take(i as int)));
    }
    assert(traces@.take(n as int) =~= traces@);
}

} // verus!
