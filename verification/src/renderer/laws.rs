//! What holds of every rendering: with colours off it is plain text, and
//! traces rendered together are set apart by a blank line.
use vstd::prelude::*;

use super::colors::{dim_text, lightning_text};
use super::tree::{
    body_block, body_display, branch_end, branch_mid, branch_pipe, branch_space, children_text,
    connector_for, duration_text, error_line, error_lines, error_lines_all, error_summary,
    header_dashes, header_line, own_error, repeat, request_body, shown_name, span_head, span_line,
    span_tail, span_text, status_label, trace_text, traces_text, truncated_message,
    truncated_name, under_prefix, TreeRenderer,
};
use crate::model::error::{error_type_label, ErrorType};
use crate::model::event::LogEvent;
use crate::model::span::{spec_duration, SpanModel};
use crate::model::trace::Trace;
use crate::text::{
    decimal, digit_char, lemma_skip_while, lemma_trim_bounds, rskip_ws, skip_ws, starts_with, trim,
    ws_pred,
};

verus! {

/// `s` holds no escape character (the start of every ANSI sequence).
pub open spec fn no_esc(s: Seq<char>) -> bool {
    forall|i: int| 0 <= i < s.len() ==> s[i] != '\x1b'
}

/// The texts a span tree brings into a rendering (names, error messages,
/// logged messages) hold no escape character.
pub open spec fn texts_plain(m: SpanModel) -> bool
    decreases m,
{
    &&& no_esc(m.name)
    &&& (m.error matches Some(e) ==> no_esc(e.message@))
    &&& forall|i: int| 0 <= i < m.events.len() ==> no_esc(#[trigger] m.events[i].message@)
    &&& texts_plain_all(m.children)
}

pub open spec fn texts_plain_all(s: Seq<SpanModel>) -> bool
    decreases s,
{
    s.len() == 0 || (texts_plain_all(s.drop_last()) && texts_plain(s.last()))
}

pub broadcast proof fn lemma_no_esc_concat(a: Seq<char>, b: Seq<char>)
    ensures
        #[trigger] no_esc(a + b) == (no_esc(a) && no_esc(b)),
{
    if no_esc(a) && no_esc(b) {
        assert forall|i: int| 0 <= i < (a + b).len() implies (a + b)[i] != '\x1b' by {
            if i < a.len() {
                assert((a + b)[i] == a[i]);
            } else {
                assert((a + b)[i] == b[i - a.len()]);
            }
        }
    }
    if no_esc(a + b) {
        assert forall|i: int| 0 <= i < a.len() implies a[i] != '\x1b' by {
            assert((a + b)[i] == a[i]);
        }
        assert forall|i: int| 0 <= i < b.len() implies b[i] != '\x1b' by {
            assert((a + b)[a.len() + i] == b[i]);
        }
    }
}

proof fn lemma_no_esc_push(a: Seq<char>, c: char)
    requires
        no_esc(a),
        c != '\x1b',
    ensures
        no_esc(a.push(c)),
{
    assert forall|i: int| 0 <= i < a.push(c).len() implies a.push(c)[i] != '\x1b' by {
        if i < a.len() {
            assert(a.push(c)[i] == a[i]);
        }
    }
}

proof fn lemma_no_esc_subrange(a: Seq<char>, i: int, j: int)
    requires
        no_esc(a),
        0 <= i <= j <= a.len(),
    ensures
        no_esc(a.subrange(i, j)),
{
    assert forall|k: int| 0 <= k < j - i implies a.subrange(i, j)[k] != '\x1b' by {
        assert(a.subrange(i, j)[k] == a[i + k]);
    }
}

proof fn lemma_literals_plain()
    ensures
        no_esc(Seq::empty()),
        no_esc("Trace "@),
        no_esc("  "@),
        no_esc("\n"@),
        no_esc("❌ "@),
        no_esc(" error"@),
        no_esc("s"@),
        no_esc("✅ ok"@),
        no_esc("ms"@),
        no_esc("."@),
        no_esc("m"@),
        no_esc("├── "@),
        no_esc("└── "@),
        no_esc("│   "@),
        no_esc("    "@),
        no_esc("   "@),
        no_esc(": "@),
        no_esc("⚡ "@),
        no_esc("Request body: "@),
        no_esc("─── Error Summary "@),
        no_esc("  ⚡ "@),
        no_esc(" │ "@),
        no_esc(" → \""@),
        no_esc("\""@),
        no_esc("THROW"@),
        no_esc("CATCH"@),
        no_esc("EXCEPTION"@),
        no_esc("PANIC"@),
        no_esc("REJECTED"@),
        no_esc("TIMEOUT"@),
        no_esc("ERROR"@),
{
    reveal_strlit("Trace ");
    reveal_strlit("  ");
    reveal_strlit("\n");
    reveal_strlit("❌ ");
    reveal_strlit(" error");
    reveal_strlit("s");
    reveal_strlit("✅ ok");
    reveal_strlit("ms");
    reveal_strlit(".");
    reveal_strlit("m");
    reveal_strlit("├── ");
    reveal_strlit("└── ");
    reveal_strlit("│   ");
    reveal_strlit("    ");
    reveal_strlit("   ");
    reveal_strlit(": ");
    reveal_strlit("⚡ ");
    reveal_strlit("Request body: ");
    reveal_strlit("─── Error Summary ");
    reveal_strlit("  ⚡ ");
    reveal_strlit(" │ ");
    reveal_strlit(" → \"");
    reveal_strlit("\"");
    reveal_strlit("THROW");
    reveal_strlit("CATCH");
    reveal_strlit("EXCEPTION");
    reveal_strlit("PANIC");
    reveal_strlit("REJECTED");
    reveal_strlit("TIMEOUT");
    reveal_strlit("ERROR");
}

proof fn lemma_decimal_plain(n: nat)
    ensures
        no_esc(decimal(n)),
    decreases n,
{
    let d = digit_char(n % 10);
    assert(d != '\x1b') by {
        assert((d as u32) == (n % 10) + 48);
    }
    if n < 10 {
        assert(decimal(n) == seq![digit_char(n)]);
    } else {
        lemma_decimal_plain(n / 10);
        lemma_no_esc_push(decimal(n / 10), d);
    }
}

proof fn lemma_repeat_plain(c: char, n: nat)
    requires
        c != '\x1b',
    ensures
        no_esc(repeat(c, n)),
{
}

proof fn lemma_duration_plain(d: Option<u64>)
    ensures
        no_esc(duration_text(d)),
{
    broadcast use lemma_no_esc_concat;

    lemma_literals_plain();
    match d {
        None => {},
        Some(m) => {
            lemma_decimal_plain(m as nat);
            lemma_decimal_plain((m / 60000) as nat);
            lemma_decimal_plain(((m % 60000) / 1000) as nat);
            let q = super::tree::tenths(m as nat);
            lemma_decimal_plain(q / 10);
            lemma_decimal_plain(q % 10);
        },
    }
}

proof fn lemma_label_plain(t: ErrorType)
    ensures
        no_esc(error_type_label(t)),
{
    lemma_literals_plain();
}

proof fn lemma_truncations_plain(s: Seq<char>, w: int, p: int)
    requires
        no_esc(s),
    ensures
        no_esc(truncated_name(s, w, p)),
        no_esc(truncated_message(s)),
        no_esc(body_display(s)),
{
    let max = if w > p + 15 {
        w - p - 15
    } else {
        20
    };
    if s.len() > max {
        lemma_no_esc_subrange(s, 0, max - 1);
        lemma_no_esc_push(s.take(max - 1), '…');
    }
    if s.len() > 10240 {
        lemma_no_esc_subrange(s, 0, 10240);
    }
    if s.len() > 512 {
        lemma_no_esc_subrange(s, 0, 512);
        lemma_no_esc_push(s.take(512), '…');
    } else {
        lemma_no_esc_push(s, '…');
    }
}

proof fn lemma_trim_plain(s: Seq<char>)
    requires
        no_esc(s),
    ensures
        no_esc(trim(s)),
{
    lemma_trim_bounds(s);
    lemma_skip_while(s, 0, ws_pred());
    if skip_ws(s, 0) < s.len() {
        lemma_no_esc_subrange(s, skip_ws(s, 0), rskip_ws(s, s.len() as int));
    }
}

proof fn lemma_request_body_plain(events: Seq<LogEvent>)
    requires
        forall|i: int| 0 <= i < events.len() ==> no_esc(#[trigger] events[i].message@),
    ensures
        request_body(events) matches Some(b) ==> no_esc(b),
    decreases events.len(),
{
    if events.len() > 0 {
        let m = events[0].message@;
        if starts_with(m, "Request Body:"@) {
            let k = "Request Body:"@.len() as int;
            lemma_no_esc_subrange(m, k, m.len() as int);
            lemma_trim_plain(m.skip(k));
            lemma_truncations_plain(trim(m.skip(k)), 0, 0);
        } else {
            assert forall|i: int| 0 <= i < events.drop_first().len() implies no_esc(
                #[trigger] events.drop_first()[i].message@,
            ) by {
                assert(events.drop_first()[i] == events[i + 1]);
            }
            lemma_request_body_plain(events.drop_first());
        }
    }
}

proof fn lemma_span_plain(r: TreeRenderer, s: SpanModel, prefix: Seq<char>, is_last: bool, is_root: bool)
    requires
        !r.colors.on(),
        texts_plain(s),
        no_esc(prefix),
    ensures
        no_esc(span_text(r, s, prefix, is_last, is_root)),
    decreases s, 1int,
{
    broadcast use lemma_no_esc_concat;

    reveal(span_line);
    reveal(span_head);
    reveal(span_tail);
    reveal(own_error);
    reveal(body_block);
    lemma_literals_plain();
    let c = r.colors;
    let connector = connector_for(is_last, is_root);
    let name = shown_name(r, s, prefix, is_last, is_root);
    lemma_truncations_plain(s.name, r.terminal_width as int, 0);
    lemma_truncations_plain(
        s.name,
        r.terminal_width as int,
        (super::tree::utf8_len(prefix) + super::tree::utf8_len(connector)) as int,
    );
    lemma_duration_plain(spec_duration(s.start_time, s.end_time));
    let w = r.terminal_width as int;
    let dur = duration_text(spec_duration(s.start_time, s.end_time));
    let cur = super::tree::utf8_len(prefix) + super::tree::utf8_len(connector)
        + super::tree::utf8_len(name) + if s.has_error {
        3int
    } else {
        0int
    };
    let pad = if w > cur + super::tree::utf8_len(dur) + 2 {
        w - cur - super::tree::utf8_len(dur)
    } else {
        2
    };
    lemma_repeat_plain(' ', pad as nat);
    assert(no_esc(span_head(r, s, prefix, is_last, is_root)));
    assert(no_esc(span_tail(r, s, prefix, is_last, is_root)));
    assert(no_esc(span_line(r, s, prefix, is_last, is_root)));
    match s.error {
        Some(e) => {
            lemma_label_plain(e.error_type);
            lemma_truncations_plain(e.message@, 0, 0);
            lemma_request_body_plain(s.events);
            assert(no_esc(own_error(r, s, prefix, is_last, is_root)));
        },
        None => {},
    }
    lemma_children_plain(r, s.children, under_prefix(prefix, is_last, is_root, "   "@), s.error is None);
}

proof fn lemma_children_plain(r: TreeRenderer, kids: Seq<SpanModel>, prefix: Seq<char>, last: bool)
    requires
        !r.colors.on(),
        texts_plain_all(kids),
        no_esc(prefix),
    ensures
        no_esc(children_text(r, kids, prefix, last)),
    decreases kids, 0int,
{
    broadcast use lemma_no_esc_concat;

    lemma_literals_plain();
    if kids.len() > 0 {
        lemma_children_plain(r, kids.drop_last(), prefix, false);
        lemma_span_plain(r, kids.last(), prefix, last, false);
    }
}

proof fn lemma_error_lines_plain(r: TreeRenderer, s: SpanModel)
    requires
        !r.colors.on(),
        texts_plain(s),
    ensures
        no_esc(error_lines(r, s)),
    decreases s, 1int,
{
    broadcast use lemma_no_esc_concat;

    lemma_literals_plain();
    match s.error {
        Some(e) => {
            lemma_label_plain(e.error_type);
            lemma_truncations_plain(e.message@, 0, 0);
        },
        None => {},
    }
    lemma_error_lines_all_plain(r, s.children);
}

proof fn lemma_error_lines_all_plain(r: TreeRenderer, kids: Seq<SpanModel>)
    requires
        !r.colors.on(),
        texts_plain_all(kids),
    ensures
        no_esc(error_lines_all(r, kids)),
    decreases kids, 0int,
{
    broadcast use lemma_no_esc_concat;

    lemma_literals_plain();
    if kids.len() > 0 {
        lemma_error_lines_all_plain(r, kids.drop_last());
        lemma_error_lines_plain(r, kids.last());
    }
}

/// With colours off, the rendering of a trace is plain text: it holds no
/// escape character, as long as the texts of the trace (its id, span names,
/// error and logged messages) hold none.
pub proof fn law_plain_rendering_has_no_escapes(r: TreeRenderer, t: Trace)
    requires
        !r.colors.on(),
        no_esc(t.id@),
        texts_plain(t.root@),
    ensures
        no_esc(trace_text(r, t)),
{
    broadcast use lemma_no_esc_concat;

    reveal(header_line);
    lemma_literals_plain();
    lemma_decimal_plain(t.error_count as nat);
    lemma_duration_plain(t.total_duration);
    lemma_repeat_plain('─', header_dashes(r, t) as nat);
    assert(no_esc(status_label(t)));
    assert(no_esc(header_line(r, t)));
    lemma_span_plain(r, t.root@, Seq::empty(), true, true);
    let w = r.terminal_width as int;
    lemma_repeat_plain('─', w as nat);
    let title = "─── Error Summary "@;
    let remaining = if w > super::tree::utf8_len(title) {
        w - super::tree::utf8_len(title)
    } else {
        6
    };
    lemma_repeat_plain('─', remaining as nat);
    lemma_error_lines_plain(r, t.root@);
    assert(no_esc(error_summary(r, t)));
}

// ── Line ends ───────────────────────────────────────────────────────────────

/// `s` ends with a line feed.
pub open spec fn ends_nl(s: Seq<char>) -> bool {
    s.len() > 0 && s.last() == '\n'
}

proof fn lemma_ends_nl_concat(a: Seq<char>, b: Seq<char>)
    requires
        ends_nl(a) || ends_nl(b),
        b.len() == 0 || ends_nl(b),
    ensures
        ends_nl(a + b),
{
    if b.len() == 0 {
        assert(a + b =~= a);
    } else {
        assert((a + b).last() == b.last());
    }
}

proof fn lemma_newline()
    ensures
        ends_nl("\n"@),
{
    reveal_strlit("\n");
}

proof fn lemma_span_ends_nl(r: TreeRenderer, s: SpanModel, prefix: Seq<char>, is_last: bool, is_root: bool)
    ensures
        ends_nl(span_text(r, s, prefix, is_last, is_root)),
    decreases s, 1int,
{
    reveal(span_line);
    reveal(own_error);
    reveal(body_block);
    lemma_newline();
    let head = (if is_root {
        "\n"@
    } else {
        Seq::empty()
    }) + prefix + span_head(r, s, prefix, is_last, is_root) + span_tail(r, s, prefix, is_last, is_root);
    lemma_ends_nl_concat(head, "\n"@);
    let line = span_line(r, s, prefix, is_last, is_root);
    let err = own_error(r, s, prefix, is_last, is_root);
    match s.error {
        Some(e) => {
            let el = error_line(r, e, under_prefix(prefix, is_last, is_root, "    "@), s.children.len() == 0);
            let before = prefix + (if s.children.len() == 0 {
                branch_end()
            } else {
                branch_mid()
            }) + lightning_text(
                r.colors,
                error_type_label(e.error_type) + ": "@ + truncated_message(e.message@),
            );
            let p2 = under_prefix(prefix, is_last, is_root, "    "@);
            let before2 = p2 + (if s.children.len() == 0 {
                branch_end()
            } else {
                branch_mid()
            }) + lightning_text(
                r.colors,
                error_type_label(e.error_type) + ": "@ + truncated_message(e.message@),
            );
            lemma_ends_nl_concat(before2, "\n"@);
            let bb = body_block(r, s, prefix);
            if bb.len() > 0 {
                match request_body(s.events) {
                    Some(b) => {
                        let front = (if s.children.len() == 0 {
                            prefix + branch_space()
                        } else {
                            prefix + branch_pipe()
                        }) + dim_text(r.colors, "Request body: "@) + dim_text(r.colors, b);
                        lemma_ends_nl_concat(front, "\n"@);
                    },
                    None => {},
                }
            }
            lemma_ends_nl_concat(el, bb);
        },
        None => {},
    }
    lemma_ends_nl_concat(line, err);
    let kids = children_text(r, s.children, under_prefix(prefix, is_last, is_root, "   "@), s.error is None);
    lemma_children_ends_nl(r, s.children, under_prefix(prefix, is_last, is_root, "   "@), s.error is None);
    lemma_ends_nl_concat(line + err, kids);
}

proof fn lemma_children_ends_nl(r: TreeRenderer, kids: Seq<SpanModel>, prefix: Seq<char>, last: bool)
    ensures
        kids.len() == 0 ==> children_text(r, kids, prefix, last).len() == 0,
        kids.len() > 0 ==> ends_nl(children_text(r, kids, prefix, last)),
    decreases kids, 0int,
{
    if kids.len() > 0 {
        lemma_span_ends_nl(r, kids.last(), prefix, last, false);
        lemma_ends_nl_concat(
            children_text(r, kids.drop_last(), prefix, false),
            span_text(r, kids.last(), prefix, last, false),
        );
    }
}

/// The rendering of a trace ends with a line feed.
pub proof fn law_rendering_ends_with_line_feed(r: TreeRenderer, t: Trace)
    ensures
        ends_nl(trace_text(r, t)),
{
    lemma_newline();
    lemma_span_ends_nl(r, t.root@, Seq::empty(), true, true);
    let body = header_line(r, t) + span_text(r, t.root@, Seq::empty(), true, true);
    lemma_ends_nl_concat(header_line(r, t), span_text(r, t.root@, Seq::empty(), true, true));
    let sm = error_summary(r, t);
    if sm.len() > 0 {
        let w = r.terminal_width as int;
        let front = "\n"@ + dim_text(
            r.colors,
            "─── Error Summary "@ + repeat(
                '─',
                (if w > super::tree::utf8_len("─── Error Summary "@) {
                    w - super::tree::utf8_len("─── Error Summary "@)
                } else {
                    6
                }) as nat,
            ),
        ) + "\n"@ + error_lines(r, t.root@) + dim_text(r.colors, repeat('─', w as nat));
        lemma_ends_nl_concat(front, "\n"@);
    }
    lemma_ends_nl_concat(body, sm);
}

/// Rendered together, each trace after the first follows a blank line: the
/// text so far ends with a line feed, and one more comes before the next
/// trace.
pub proof fn law_traces_set_apart_by_blank_lines(r: TreeRenderer, ts: Seq<Trace>)
    ensures
        forall|i: int|
            #![trigger ts[i]]
            1 <= i < ts.len() ==> traces_text(r, ts.take(i + 1)) == traces_text(r, ts.take(i))
                + "\n"@ + trace_text(r, ts[i]) && ends_nl(traces_text(r, ts.take(i))),
{
    assert forall|i: int|
        #![trigger ts[i]]
        1 <= i < ts.len() implies traces_text(r, ts.take(i + 1)) == traces_text(r, ts.take(i))
            + "\n"@ + trace_text(r, ts[i]) && ends_nl(traces_text(r, ts.take(i))) by {
        assert(ts.take(i + 1).drop_last() =~= ts.take(i));
        assert(ts.take(i + 1).last() == ts[i]);
        let p = ts.take(i);
        assert(p.len() > 0);
        law_rendering_ends_with_line_feed(r, p.last());
        lemma_ends_nl_concat(
            traces_text(r, p.drop_last()) + (if p.len() > 1 {
                "\n"@
            } else {
                Seq::empty()
            }),
            trace_text(r, p.last()),
        );
    }
}

// ── The error summary ───────────────────────────────────────────────────────

proof fn lemma_error_count_any_error(m: SpanModel)
    ensures
        (m.error_count() > 0) == m.any_error(),
    decreases m, 1int,
{
    lemma_error_count_any_error_all(m.children);
}

proof fn lemma_error_count_any_error_all(s: Seq<SpanModel>)
    ensures
        (SpanModel::error_count_all(s) > 0) == SpanModel::any_error_all(s),
    decreases s, 0int,
{
    if s.len() > 0 {
        lemma_error_count_any_error_all(s.drop_last());
        lemma_error_count_any_error(s.last());
    }
}

/// A trace made from a root span (errors propagated, reported as failed
/// when some span carries an error) shows an error summary exactly when it
/// is reported as failed.
pub proof fn law_failed_trace_shows_summary(r: TreeRenderer, t: Trace, root: SpanModel)
    requires
        SpanModel::propagated(t.root@, root),
        t.has_error == (root.error_count() > 0),
    ensures
        t.has_error <==> error_summary(r, t).len() > 0,
{
    crate::model::span::law_propagation_keeps_counts(t.root@, root);
    lemma_error_count_any_error(t.root@);
    reveal_strlit("\n");
}

// ── The first line ──────────────────────────────────────────────────────────

/// `s` holds no line feed.
pub open spec fn no_nl(s: Seq<char>) -> bool {
    forall|i: int| 0 <= i < s.len() ==> s[i] != '\n'
}

proof fn lemma_no_nl_concat(a: Seq<char>, b: Seq<char>)
    requires
        no_nl(a),
        no_nl(b),
    ensures
        no_nl(a + b),
{
    assert forall|i: int| 0 <= i < (a + b).len() implies (a + b)[i] != '\n' by {
        if i < a.len() {
            assert((a + b)[i] == a[i]);
        } else {
            assert((a + b)[i] == b[i - a.len()]);
        }
    }
}

proof fn lemma_decimal_no_nl(n: nat)
    ensures
        no_nl(decimal(n)),
    decreases n,
{
    let d = digit_char(n % 10);
    assert(d != '\n') by {
        assert((d as u32) == (n % 10) + 48);
    }
    if n < 10 {
        assert(decimal(n) == seq![digit_char(n)]);
    } else {
        lemma_decimal_no_nl(n / 10);
        let a = decimal(n / 10);
        assert forall|i: int| 0 <= i < a.push(d).len() implies a.push(d)[i] != '\n' by {
            if i < a.len() {
                assert(a.push(d)[i] == a[i]);
            }
        }
    }
}

proof fn lemma_header_parts_no_nl(r: TreeRenderer, t: Trace)
    ensures
        no_nl("Trace "@),
        no_nl("  "@),
        no_nl(repeat('─', header_dashes(r, t) as nat)),
        no_nl(duration_text(t.total_duration)),
        no_nl(status_label(t)),
{
    reveal_strlit("Trace ");
    reveal_strlit("  ");
    reveal_strlit("❌ ");
    reveal_strlit(" error");
    reveal_strlit("s");
    reveal_strlit("✅ ok");
    reveal_strlit("ms");
    reveal_strlit(".");
    reveal_strlit("m");
    assert(no_nl(Seq::<char>::empty()));
    lemma_decimal_no_nl(t.error_count as nat);
    lemma_no_nl_concat("❌ "@, decimal(t.error_count as nat));
    lemma_no_nl_concat("❌ "@ + decimal(t.error_count as nat), " error"@);
    lemma_no_nl_concat("❌ "@ + decimal(t.error_count as nat) + " error"@, "s"@);
    lemma_no_nl_concat("❌ "@ + decimal(t.error_count as nat) + " error"@, Seq::empty());
    match t.total_duration {
        None => {},
        Some(m) => {
            if m < 1000 {
                lemma_decimal_no_nl(m as nat);
                lemma_no_nl_concat(decimal(m as nat), "ms"@);
            } else if m < 60000 {
                let q = super::tree::tenths(m as nat);
                lemma_decimal_no_nl(q / 10);
                lemma_decimal_no_nl(q % 10);
                lemma_no_nl_concat(decimal(q / 10), "."@);
                lemma_no_nl_concat(decimal(q / 10) + "."@, decimal(q % 10));
                lemma_no_nl_concat(decimal(q / 10) + "."@ + decimal(q % 10), "s"@);
            } else {
                let a = decimal((m / 60000) as nat);
                let b = decimal(((m % 60000) / 1000) as nat);
                lemma_decimal_no_nl((m / 60000) as nat);
                lemma_decimal_no_nl(((m % 60000) / 1000) as nat);
                lemma_no_nl_concat(a, "m"@);
                lemma_no_nl_concat(a + "m"@, b);
                lemma_no_nl_concat(a + "m"@ + b, "s"@);
            }
        },
    }
}

/// With colours off, the rendering of a trace starts with its header:
/// `Trace <id>`, the dashed rule, the duration and the status, two spaces
/// apart, then a line feed. When the id holds no line feed, none comes
/// before that one: the header is the first line.
pub proof fn law_rendering_starts_with_header(r: TreeRenderer, t: Trace)
    requires
        !r.colors.on(),
    ensures
        ({
            let h = "Trace "@ + t.id@ + "  "@ + repeat('─', header_dashes(r, t) as nat) + "  "@
                + duration_text(t.total_duration) + "  "@ + status_label(t);
            &&& trace_text(r, t).take(h.len() + 1int) == h.push('\n')
            &&& no_nl(t.id@) ==> no_nl(h)
        }),
{
    reveal(header_line);
    reveal_strlit("\n");
    let h = "Trace "@ + t.id@ + "  "@ + repeat('─', header_dashes(r, t) as nat) + "  "@
        + duration_text(t.total_duration) + "  "@ + status_label(t);
    assert(header_line(r, t) =~= h.push('\n'));
    let rest = span_text(r, t.root@, Seq::empty(), true, true) + error_summary(r, t);
    assert(trace_text(r, t) =~= h.push('\n') + rest);
    assert((h.push('\n') + rest).take(h.len() + 1int) =~= h.push('\n'));
    if no_nl(t.id@) {
        lemma_header_parts_no_nl(r, t);
        let d = repeat('─', header_dashes(r, t) as nat);
        lemma_no_nl_concat("Trace "@, t.id@);
        lemma_no_nl_concat("Trace "@ + t.id@, "  "@);
        lemma_no_nl_concat("Trace "@ + t.id@ + "  "@, d);
        lemma_no_nl_concat("Trace "@ + t.id@ + "  "@ + d, "  "@);
        lemma_no_nl_concat("Trace "@ + t.id@ + "  "@ + d + "  "@, duration_text(t.total_duration));
        lemma_no_nl_concat(
            "Trace "@ + t.id@ + "  "@ + d + "  "@ + duration_text(t.total_duration),
            "  "@,
        );
        lemma_no_nl_concat(
            "Trace "@ + t.id@ + "  "@ + d + "  "@ + duration_text(t.total_duration) + "  "@,
            status_label(t),
        );
    }
}

// ── One line per span, in preorder ────────────────────────────────────────

/// How a span is drawn: the span, the prefix of its line, whether it is
/// drawn as a last child, and whether it is the root.
pub type Placed = (SpanModel, Seq<char>, bool, bool);

/// The spans of a tree in preorder (each before its children, children in
/// order), each with the way it is drawn.
pub open spec fn preorder(s: SpanModel, prefix: Seq<char>, is_last: bool, is_root: bool) -> Seq<Placed>
    decreases s,
{
    seq![(s, prefix, is_last, is_root)] + preorder_all(
        s.children,
        under_prefix(prefix, is_last, is_root, "   "@),
        s.error is None,
    )
}

pub open spec fn preorder_all(kids: Seq<SpanModel>, prefix: Seq<char>, last_is_last: bool) -> Seq<Placed>
    decreases kids,
{
    if kids.len() == 0 {
        Seq::empty()
    } else {
        preorder_all(kids.drop_last(), prefix, false) + preorder(kids.last(), prefix, last_is_last, false)
    }
}

/// The lines of spans placed one after the other: for each, its line and
/// the lines of its own error.
pub open spec fn placed_text(r: TreeRenderer, ps: Seq<Placed>) -> Seq<char>
    decreases ps.len(),
{
    if ps.len() == 0 {
        Seq::empty()
    } else {
        let p = ps.last();
        placed_text(r, ps.drop_last()) + span_line(r, p.0, p.1, p.2, p.3) + own_error(r, p.0, p.1, p.2, p.3)
    }
}

proof fn lemma_placed_text_concat(r: TreeRenderer, a: Seq<Placed>, b: Seq<Placed>)
    ensures
        placed_text(r, a + b) == placed_text(r, a) + placed_text(r, b),
    decreases b.len(),
{
    if b.len() == 0 {
        assert(a + b =~= a);
    } else {
        lemma_placed_text_concat(r, a, b.drop_last());
        assert((a + b).drop_last() =~= a + b.drop_last());
        assert((a + b).last() == b.last());
    }
}

proof fn lemma_span_text_preorder(r: TreeRenderer, s: SpanModel, prefix: Seq<char>, is_last: bool, is_root: bool)
    ensures
        span_text(r, s, prefix, is_last, is_root) == placed_text(r, preorder(s, prefix, is_last, is_root)),
        preorder(s, prefix, is_last, is_root).len() == s.count(),
    decreases s, 1int,
{
    let kp = under_prefix(prefix, is_last, is_root, "   "@);
    lemma_children_preorder(r, s.children, kp, s.error is None);
    let head = seq![(s, prefix, is_last, is_root)];
    lemma_placed_text_concat(r, head, preorder_all(s.children, kp, s.error is None));
    assert(head.drop_last() =~= Seq::<Placed>::empty());
    assert(placed_text(r, head.drop_last()) == Seq::<char>::empty());
    assert(head.last() == (s, prefix, is_last, is_root));
    let a = span_line(r, s, prefix, is_last, is_root);
    let b = own_error(r, s, prefix, is_last, is_root);
    assert(placed_text(r, head) == Seq::<char>::empty() + a + b);
    assert(Seq::<char>::empty() + a + b =~= a + b);
}

proof fn lemma_children_preorder(r: TreeRenderer, kids: Seq<SpanModel>, prefix: Seq<char>, last: bool)
    ensures
        children_text(r, kids, prefix, last) == placed_text(r, preorder_all(kids, prefix, last)),
        preorder_all(kids, prefix, last).len() == SpanModel::count_all(kids),
    decreases kids, 0int,
{
    if kids.len() > 0 {
        lemma_children_preorder(r, kids.drop_last(), prefix, false);
        lemma_span_text_preorder(r, kids.last(), prefix, last, false);
        lemma_placed_text_concat(
            r,
            preorder_all(kids.drop_last(), prefix, false),
            preorder(kids.last(), prefix, last, false),
        );
    }
}

/// The tree of a trace is drawn span by span in preorder, each span once:
/// every span's line followed by the lines of its own error, the root
/// first, each span before its children, children in order.
pub proof fn law_tree_drawn_in_preorder(r: TreeRenderer, t: Trace)
    ensures
        span_text(r, t.root@, Seq::empty(), true, true) == placed_text(
            r,
            preorder(t.root@, Seq::empty(), true, true),
        ),
        preorder(t.root@, Seq::empty(), true, true).len() == t.root@.count(),
        preorder(t.root@, Seq::empty(), true, true)[0] == (t.root@, Seq::<char>::empty(), true, true),
{
    lemma_span_text_preorder(r, t.root@, Seq::empty(), true, true);
}

/// With colours off, a trace made from a root span (errors propagated,
/// reported as failed when some span carries an error) is drawn as its
/// header line (`Trace <id>`, the dashed rule, the duration and the status:
/// `❌ <n> error(s)` or `✅ ok`), then its tree, then an error summary, which
/// is there exactly when the trace has errors. The header is the first line
/// when the id holds no line feed.
pub proof fn law_trace_rendering(r: TreeRenderer, t: Trace, root: SpanModel)
    requires
        !r.colors.on(),
        SpanModel::propagated(t.root@, root),
        t.has_error == (root.error_count() > 0),
    ensures
        ({
            let h = "Trace "@ + t.id@ + "  "@ + repeat('─', header_dashes(r, t) as nat) + "  "@
                + duration_text(t.total_duration) + "  "@ + status_label(t);
            &&& trace_text(r, t) == h.push('\n') + span_text(r, t.root@, Seq::empty(), true, true)
                + error_summary(r, t)
            &&& no_nl(t.id@) ==> no_nl(h)
            &&& t.has_error <==> error_summary(r, t).len() > 0
        }),
{
    law_rendering_starts_with_header(r, t);
    law_failed_trace_shows_summary(r, t, root);
    reveal(header_line);
    reveal_strlit("\n");
    let h = "Trace "@ + t.id@ + "  "@ + repeat('─', header_dashes(r, t) as nat) + "  "@
        + duration_text(t.total_duration) + "  "@ + status_label(t);
    assert(header_line(r, t) =~= h.push('\n'));
}

} // verus!
