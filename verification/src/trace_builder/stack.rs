//! Reconstruction of a span tree from classified events, with a call stack.
use vstd::prelude::*;

use crate::model::event::{ClassifiedEvent, EventKind, LogEvent};
use crate::order::{is_subsequence, lemma_subsequence_empty, lemma_subsequence_extend, lemma_subsequence_push};
use crate::model::span::{
    lemma_count_all_push, lemma_count_all_update, lemma_models, lemma_models_drop_last,
    lemma_models_push, lemma_models_update, Span, SpanModel,
};
use crate::text::{
    at_exact_exec, contains_exact, contains_exact_exec, starts_with, string_of, to_chars, trim,
    trim_exec,
};

verus! {

// ── Specification ───────────────────────────────────────────────────────────

/// `name` looks like an outgoing HTTP request ("POST https://..."): once
/// trimmed it starts with an HTTP method and a space, and it mentions `http`.
pub open spec fn is_http_request_name(name: Seq<char>) -> bool {
    let t = trim(name);
    (starts_with(t, "GET "@) || starts_with(t, "POST "@) || starts_with(t, "PUT "@) || starts_with(
        t,
        "PATCH "@,
    ) || starts_with(t, "DELETE "@) || starts_with(t, "HEAD "@)) && contains_exact(t, "http"@)
}

/// The state of the reconstruction between two events: the first span
/// (`root`), the spans still open above it (`stack`, innermost last), and
/// whether the previous event opened a span.
#[verifier::ext_equal]
pub struct BuildState {
    pub root: Option<SpanModel>,
    pub stack: Seq<SpanModel>,
    pub prev_entry: bool,
}

pub open spec fn initial_state() -> BuildState {
    BuildState { root: None, stack: Seq::empty(), prev_entry: false }
}

/// Name given to the span an `Entry` event opens.
pub open spec fn entry_name(e: ClassifiedEvent) -> Seq<char> {
    match e.function_name {
        Some(n) => n@,
        None => "unknown"@,
    }
}

/// Name an `Exit` event closes.
pub open spec fn exit_name(e: ClassifiedEvent) -> Seq<char> {
    match e.function_name {
        Some(n) => n@,
        None => Seq::empty(),
    }
}

/// Attach a finished span to its parent: the innermost open span, else the
/// root (with neither, it is dropped).
pub open spec fn commit(span: SpanModel, st: BuildState) -> BuildState {
    if st.stack.len() > 0 {
        let n = st.stack.len() - 1;
        BuildState { stack: st.stack.update(n, st.stack[n].with_child(span)), ..st }
    } else {
        match st.root {
            Some(r) => BuildState { root: Some(r.with_child(span)), ..st },
            None => st,
        }
    }
}

/// Close every span above position `k`, each one becoming the last child of
/// the span below it.
pub open spec fn collapse(s: Seq<SpanModel>, k: int) -> Seq<SpanModel>
    decreases s.len(),
{
    if s.len() > k + 1 && s.len() >= 2 {
        let n = s.len();
        collapse(s.drop_last().update(n - 2, s[n - 2].with_child(s[n - 1])), k)
    } else {
        s
    }
}

/// Move the open spans, innermost first, under the root.
pub open spec fn drain(r: SpanModel, s: Seq<SpanModel>) -> SpanModel
    decreases s.len(),
{
    if s.len() == 0 {
        r
    } else {
        drain(r.with_child(s.last()), s.drop_last())
    }
}

/// Position of the innermost open span named `name` among the first `k`.
pub open spec fn last_named(s: Seq<SpanModel>, name: Seq<char>, k: int) -> Option<int>
    decreases k,
{
    if k <= 0 {
        None
    } else if s[k - 1].name == name {
        Some(k - 1)
    } else {
        last_named(s, name, k - 1)
    }
}

/// Make sure there is a root: a placeholder named `(empty)` when no span
/// has been opened yet.
pub open spec fn ensure_root(st: BuildState) -> BuildState {
    match st.root {
        Some(_) => st,
        None => BuildState { root: Some(SpanModel::leaf("(empty)"@, None)), ..st },
    }
}

/// One event processed.
///
/// * `Entry` opens a span named after the function (`unknown` without one)
///   and starting at the event's time. The first one becomes the root.
///   Otherwise, when the previous event opened a span too, or when both the
///   new span and the innermost open one are outgoing HTTP requests, the
///   innermost open span is closed first, so that the new one becomes its
///   sibling rather than its child.
/// * `Exit` closes the innermost open span with that name, ending at the
///   event's time, together with every span opened inside it. With no such
///   open span, an exit named after the root ends the root and moves every
///   open span under it.
/// * `Error` records the error on the innermost open span, or the root.
/// * `Log` keeps the event on the innermost open span, or the root.
pub open spec fn step(st: BuildState, e: ClassifiedEvent) -> BuildState {
    match e.kind {
        EventKind::Entry => {
            let name = entry_name(e);
            let span = SpanModel::leaf(name, e.event.timestamp);
            if st.root is None {
                BuildState { root: Some(span), stack: st.stack, prev_entry: true }
            } else {
                let top_is_http = st.stack.len() > 0 && is_http_request_name(st.stack.last().name);
                let new_is_http = is_http_request_name(name);
                let st2 = if (st.prev_entry && st.stack.len() > 0) || (new_is_http
                    && top_is_http) {
                    commit(st.stack.last(), BuildState { stack: st.stack.drop_last(), ..st })
                } else {
                    st
                };
                BuildState { root: st2.root, stack: st2.stack.push(span), prev_entry: true }
            }
        },
        EventKind::Exit => {
            let st = BuildState { prev_entry: false, ..st };
            let name = exit_name(e);
            match last_named(st.stack, name, st.stack.len() as int) {
                Some(idx) => {
                    let ended = SpanModel { end_time: e.event.timestamp, ..st.stack[idx] };
                    let s2 = collapse(st.stack.update(idx, ended), idx);
                    commit(s2.last(), BuildState { stack: s2.drop_last(), ..st })
                },
                None => match st.root {
                    Some(r) => if r.name == name {
                        BuildState {
                            root: Some(drain(SpanModel { end_time: e.event.timestamp, ..r }, st.stack)),
                            stack: Seq::empty(),
                            prev_entry: false,
                        }
                    } else {
                        st
                    },
                    None => st,
                },
            }
        },
        EventKind::Error => {
            let st = ensure_root(BuildState { prev_entry: false, ..st });
            if st.stack.len() > 0 {
                let n = st.stack.len() - 1;
                let top = SpanModel { error: e.error_detail, has_error: true, ..st.stack[n] };
                BuildState { stack: st.stack.update(n, top), ..st }
            } else {
                let r = st.root.unwrap();
                BuildState { root: Some(SpanModel { error: e.error_detail, has_error: true, ..r }), ..st }
            }
        },
        EventKind::Log => {
            let st = ensure_root(BuildState { prev_entry: false, ..st });
            if st.stack.len() > 0 {
                let n = st.stack.len() - 1;
                let top = SpanModel { events: st.stack[n].events.push(e.event), ..st.stack[n] };
                BuildState { stack: st.stack.update(n, top), ..st }
            } else {
                let r = st.root.unwrap();
                BuildState { root: Some(SpanModel { events: r.events.push(e.event), ..r }), ..st }
            }
        },
    }
}

/// Consecutive outgoing HTTP requests are siblings: when an entry named as
/// an outgoing HTTP request comes while the innermost open span is one too,
/// that span is closed first, whatever the previous event was. It becomes
/// the last child of the span below it (or of the root), and the new span
/// takes its place on top; nothing else changes.
pub proof fn law_http_after_http_is_sibling(st: BuildState, e: ClassifiedEvent)
    requires
        e.kind == EventKind::Entry,
        st.root is Some,
        st.stack.len() > 0,
        is_http_request_name(st.stack.last().name),
        is_http_request_name(entry_name(e)),
    ensures
        ({
            let st2 = step(st, e);
            let n = st.stack.len();
            &&& st2.prev_entry
            &&& st2.stack.len() == n
            &&& st2.stack[n - 1] == SpanModel::leaf(entry_name(e), e.event.timestamp)
            &&& forall|i: int| 0 <= i < n - 2 ==> #[trigger] st2.stack[i] == st.stack[i]
            &&& n >= 2 ==> st2.stack[n - 2] == st.stack[n - 2].with_child(st.stack[n - 1])
                && st2.root == st.root
            &&& n == 1 ==> st2.root == Some(st.root->0.with_child(st.stack[0]))
        }),
{
}

/// The first entry opens the root: with no root yet, an entry makes a span
/// named after it, starting at its time, the root.
pub proof fn law_first_entry_opens_root(st: BuildState, e: ClassifiedEvent)
    requires
        e.kind == EventKind::Entry,
        st.root is None,
    ensures
        step(st, e).root == Some(SpanModel::leaf(entry_name(e), e.event.timestamp)),
        step(st, e).stack == st.stack,
        step(st, e).prev_entry,
{
}

/// An entry right after another entry is a sibling of it: the innermost
/// open span is closed first, becoming the last child of the span below it
/// (or of the root), and the new span takes its place on top.
pub proof fn law_entry_after_entry_is_sibling(st: BuildState, e: ClassifiedEvent)
    requires
        e.kind == EventKind::Entry,
        st.root is Some,
        st.stack.len() > 0,
        st.prev_entry,
    ensures
        ({
            let st2 = step(st, e);
            let n = st.stack.len();
            &&& st2.stack.len() == n
            &&& st2.stack[n - 1] == SpanModel::leaf(entry_name(e), e.event.timestamp)
            &&& forall|i: int| 0 <= i < n - 2 ==> #[trigger] st2.stack[i] == st.stack[i]
            &&& n >= 2 ==> st2.stack[n - 2] == st.stack[n - 2].with_child(st.stack[n - 1])
                && st2.root == st.root
            &&& n == 1 ==> st2.root == Some(st.root->0.with_child(st.stack[0]))
        }),
{
}

/// Otherwise an entry opens a span inside the innermost open one: after
/// something other than an entry, and unless both it and the innermost open
/// span are outgoing HTTP requests, the new span is pushed on top of the
/// open spans, which stay as they are.
pub proof fn law_entry_nests_inside_open_span(st: BuildState, e: ClassifiedEvent)
    requires
        e.kind == EventKind::Entry,
        st.root is Some,
        !st.prev_entry || st.stack.len() == 0,
        !(st.stack.len() > 0 && is_http_request_name(st.stack.last().name) && is_http_request_name(
            entry_name(e),
        )),
    ensures
        step(st, e).stack == st.stack.push(SpanModel::leaf(entry_name(e), e.event.timestamp)),
        step(st, e).root == st.root,
        step(st, e).prev_entry,
{
}

/// An error is recorded on the innermost open span (or, with none open, on
/// the root, a placeholder root if there is none yet), which is then marked
/// as failed; nothing else changes.
pub proof fn law_error_lands_on_innermost_span(st: BuildState, e: ClassifiedEvent)
    requires
        e.kind == EventKind::Error,
    ensures
        ({
            let st2 = step(st, e);
            let r = match st.root {
                Some(r) => r,
                None => SpanModel::leaf("(empty)"@, None),
            };
            &&& !st2.prev_entry
            &&& st2.stack.len() == st.stack.len()
            &&& if st.stack.len() > 0 {
                let n = st.stack.len() - 1;
                &&& st2.root == Some(r)
                &&& st2.stack[n] == SpanModel { error: e.error_detail, has_error: true, ..st.stack[n] }
                &&& forall|i: int| 0 <= i < n ==> #[trigger] st2.stack[i] == st.stack[i]
            } else {
                st2.root == Some(SpanModel { error: e.error_detail, has_error: true, ..r })
            }
        }),
{
}

/// A log event is kept, as the last of its events, by the innermost open
/// span; with no span open, by the root. Nothing else changes, but that a
/// placeholder root named `(empty)` stands in when no span has been opened
/// yet, and that the event before the next one is no longer an entry.
pub proof fn law_log_event_stays_on_innermost_span(st: BuildState, e: ClassifiedEvent)
    requires
        e.kind == EventKind::Log,
    ensures
        ({
            let st2 = step(st, e);
            let r = match st.root {
                Some(r) => r,
                None => SpanModel::leaf("(empty)"@, None),
            };
            &&& !st2.prev_entry
            &&& if st.stack.len() > 0 {
                let n = st.stack.len() - 1;
                &&& st2.root == Some(r)
                &&& st2.stack == st.stack.update(
                    n,
                    SpanModel { events: st.stack[n].events.push(e.event), ..st.stack[n] },
                )
            } else {
                &&& st2.stack.len() == 0
                &&& st2.root == Some(SpanModel { events: r.events.push(e.event), ..r })
            }
        }),
{
    let st2 = step(st, e);
    if st.stack.len() > 0 {
        let n = st.stack.len() - 1;
        assert(st2.stack =~= st.stack.update(
            n,
            SpanModel { events: st.stack[n].events.push(e.event), ..st.stack[n] },
        ));
    }
}

/// The state after processing `events` in order.
pub open spec fn build_state(events: Seq<ClassifiedEvent>) -> BuildState
    decreases events.len(),
{
    if events.len() == 0 {
        initial_state()
    } else {
        step(build_state(events.drop_last()), events.last())
    }
}

/// After the last event every span still open is closed, each under the one
/// below it, the outermost under the root; without a root the tree is a lone
/// placeholder named `(empty)`.
pub open spec fn finish(st: BuildState) -> SpanModel {
    let s = collapse(st.stack, 0);
    let root = if s.len() > 0 {
        match st.root {
            Some(r) => Some(r.with_child(s[0])),
            None => None,
        }
    } else {
        st.root
    };
    match root {
        Some(r) => r,
        None => SpanModel::leaf("(empty)"@, None),
    }
}

/// The span tree reconstructed from `events`.
pub open spec fn build_model(events: Seq<ClassifiedEvent>) -> SpanModel {
    finish(build_state(events))
}

// ── Counting the spans ──────────────────────────────────────────────────────

/// Number of `Entry` events.
pub open spec fn entry_count(events: Seq<ClassifiedEvent>) -> nat
    decreases events.len(),
{
    if events.len() == 0 {
        0
    } else {
        entry_count(events.drop_last()) + if events.last().kind == EventKind::Entry {
            1nat
        } else {
            0nat
        }
    }
}

/// Kind of the first event that is not an `Exit`.
pub open spec fn first_open_kind(events: Seq<ClassifiedEvent>) -> Option<EventKind>
    decreases events.len(),
{
    if events.len() == 0 {
        None
    } else {
        match first_open_kind(events.drop_last()) {
            Some(k) => Some(k),
            None => if events.last().kind != EventKind::Exit {
                Some(events.last().kind)
            } else {
                None
            },
        }
    }
}

/// The tree needs a placeholder root: no `Entry` comes before every other
/// event that is not an `Exit`.
pub open spec fn needs_placeholder(events: Seq<ClassifiedEvent>) -> bool {
    first_open_kind(events) != Some(EventKind::Entry)
}

pub open spec fn state_total(st: BuildState) -> nat {
    (match st.root {
        Some(r) => r.count(),
        None => 0nat,
    }) + SpanModel::count_all(st.stack)
}

proof fn lemma_with_child_count(p: SpanModel, c: SpanModel)
    ensures
        p.with_child(c).count() == p.count() + c.count(),
{
    lemma_count_all_push(p.children, c);
}

proof fn lemma_commit_total(span: SpanModel, st: BuildState)
    requires
        st.root is Some,
    ensures
        state_total(commit(span, st)) == state_total(st) + span.count(),
        commit(span, st).root is Some,
{
    if st.stack.len() > 0 {
        let n = st.stack.len() - 1;
        lemma_with_child_count(st.stack[n], span);
        lemma_count_all_update(st.stack, n, st.stack[n].with_child(span));
    } else {
        lemma_with_child_count(st.root.unwrap(), span);
    }
}

proof fn lemma_collapse(s: Seq<SpanModel>, k: int)
    requires
        0 <= k < s.len(),
    ensures
        collapse(s, k).len() == k + 1,
        SpanModel::count_all(collapse(s, k)) == SpanModel::count_all(s),
        forall|i: int| 0 <= i < k ==> #[trigger] collapse(s, k)[i] == s[i],
    decreases s.len(),
{
    if s.len() > k + 1 {
        let n = s.len();
        let x = s[n - 2].with_child(s[n - 1]);
        let t = s.drop_last().update(n - 2, x);
        lemma_with_child_count(s[n - 2], s[n - 1]);
        lemma_count_all_update(s.drop_last(), n - 2, x);
        lemma_count_all_push(s.drop_last(), s.last());
        assert(s.drop_last().push(s.last()) =~= s);
        lemma_collapse(t, k);
    }
}

proof fn lemma_drain(r: SpanModel, s: Seq<SpanModel>)
    ensures
        drain(r, s).count() == r.count() + SpanModel::count_all(s),
    decreases s.len(),
{
    if s.len() > 0 {
        lemma_with_child_count(r, s.last());
        lemma_drain(r.with_child(s.last()), s.drop_last());
        lemma_count_all_push(s.drop_last(), s.last());
        assert(s.drop_last().push(s.last()) =~= s);
    }
}

proof fn lemma_last_named(s: Seq<SpanModel>, name: Seq<char>, k: int)
    requires
        0 <= k <= s.len(),
    ensures
        last_named(s, name, k) matches Some(i) ==> 0 <= i < k && s[i].name == name,
    decreases k,
{
    if k > 0 && s[k - 1].name != name {
        lemma_last_named(s, name, k - 1);
    }
}

/// What the state holds after each event: a root exactly when some event
/// other than an `Exit` has come, no open span without a root, and one span
/// per `Entry` plus the placeholder root when there is one.
proof fn lemma_build_state(events: Seq<ClassifiedEvent>)
    ensures
        (build_state(events).root is Some) == (first_open_kind(events) is Some),
        build_state(events).root is None ==> build_state(events).stack.len() == 0,
        state_total(build_state(events)) == entry_count(events) + if first_open_kind(events)
            is Some && first_open_kind(events) != Some(EventKind::Entry) {
            1nat
        } else {
            0nat
        },
    decreases events.len(),
{
    if events.len() > 0 {
        let prev = events.drop_last();
        let e = events.last();
        lemma_build_state(prev);
        let st = build_state(prev);
        lemma_last_named(st.stack, exit_name(e), st.stack.len() as int);
        match e.kind {
            EventKind::Entry => {
                let span = SpanModel::leaf(entry_name(e), e.event.timestamp);
                assert(span.count() == 1);
                if st.root is Some {
                    if st.stack.len() > 0 {
                        lemma_count_all_push(st.stack.drop_last(), st.stack.last());
                        assert(st.stack.drop_last().push(st.stack.last()) =~= st.stack);
                        lemma_commit_total(
                            st.stack.last(),
                            BuildState { stack: st.stack.drop_last(), ..st },
                        );
                    }
                    let top_is_http = st.stack.len() > 0 && is_http_request_name(
                        st.stack.last().name,
                    );
                    let st2 = if (st.prev_entry && st.stack.len() > 0) || (is_http_request_name(
                        entry_name(e),
                    ) && top_is_http) {
                        commit(st.stack.last(), BuildState { stack: st.stack.drop_last(), ..st })
                    } else {
                        st
                    };
                    lemma_count_all_push(st2.stack, span);
                }
            },
            EventKind::Exit => {
                let st1 = BuildState { prev_entry: false, ..st };
                match last_named(st1.stack, exit_name(e), st1.stack.len() as int) {
                    Some(idx) => {
                        let ended = SpanModel { end_time: e.event.timestamp, ..st1.stack[idx] };
                        let u = st1.stack.update(idx, ended);
                        assert(ended.count() == st1.stack[idx].count());
                        lemma_count_all_update(st1.stack, idx, ended);
                        lemma_collapse(u, idx);
                        let s2 = collapse(u, idx);
                        lemma_count_all_push(s2.drop_last(), s2.last());
                        assert(s2.drop_last().push(s2.last()) =~= s2);
                        lemma_commit_total(s2.last(), BuildState { stack: s2.drop_last(), ..st1 });
                    },
                    None => {
                        if st1.root is Some {
                            let r = st1.root.unwrap();
                            let ended = SpanModel { end_time: e.event.timestamp, ..r };
                            assert(ended.count() == r.count());
                            lemma_drain(ended, st1.stack);
                        }
                    },
                }
            },
            EventKind::Error => {
                let st1 = ensure_root(BuildState { prev_entry: false, ..st });
                if st1.stack.len() > 0 {
                    let n = st1.stack.len() - 1;
                    let top = SpanModel { error: e.error_detail, has_error: true, ..st1.stack[n] };
                    lemma_count_all_update(st1.stack, n, top);
                }
            },
            EventKind::Log => {
                let st1 = ensure_root(BuildState { prev_entry: false, ..st });
                if st1.stack.len() > 0 {
                    let n = st1.stack.len() - 1;
                    let top = SpanModel {
                        events: st1.stack[n].events.push(e.event),
                        ..st1.stack[n]
                    };
                    lemma_count_all_update(st1.stack, n, top);
                }
            },
        }
    }
}

/// Every `Entry` event becomes exactly one span of the reconstructed tree;
/// the only other span is the placeholder root, present exactly when no
/// `Entry` comes before every other event that is not an `Exit`.
pub proof fn law_one_span_per_entry(events: Seq<ClassifiedEvent>)
    ensures
        build_model(events).count() == entry_count(events) + if needs_placeholder(events) {
            1nat
        } else {
            0nat
        },
{
    lemma_build_state(events);
    let st = build_state(events);
    if st.root is Some {
        if st.stack.len() > 0 {
            lemma_collapse(st.stack, 0);
            let s = collapse(st.stack, 0);
            lemma_count_all_push(s.drop_last(), s.last());
            assert(s.drop_last() =~= Seq::<SpanModel>::empty());
            lemma_with_child_count(st.root.unwrap(), s[0]);
        }
    } else {
        assert(SpanModel::count_all(Seq::<SpanModel>::empty()) == 0);
        assert(SpanModel::leaf("(empty)"@, None).count() == 1);
    }
}

// ── Where the logged events go ──────────────────────────────────────────────

/// How many times `v` occurs in `s`.
pub open spec fn occurrences(s: Seq<LogEvent>, v: LogEvent) -> nat
    decreases s.len(),
{
    if s.len() == 0 {
        0
    } else {
        occurrences(s.drop_last(), v) + if s.last() == v {
            1nat
        } else {
            0nat
        }
    }
}

/// How many times the spans of a tree keep the logged event `v`.
pub open spec fn kept(m: SpanModel, v: LogEvent) -> nat
    decreases m,
{
    occurrences(m.events, v) + kept_all(m.children, v)
}

pub open spec fn kept_all(s: Seq<SpanModel>, v: LogEvent) -> nat
    decreases s,
{
    if s.len() == 0 {
        0
    } else {
        kept_all(s.drop_last(), v) + kept(s.last(), v)
    }
}

/// How many of `events` are `Log` events that carry `v`.
pub open spec fn logged_count(events: Seq<ClassifiedEvent>, v: LogEvent) -> nat
    decreases events.len(),
{
    if events.len() == 0 {
        0
    } else {
        logged_count(events.drop_last(), v) + if events.last().kind == EventKind::Log
            && events.last().event == v {
            1nat
        } else {
            0nat
        }
    }
}

pub open spec fn state_kept(st: BuildState, v: LogEvent) -> nat {
    (match st.root {
        Some(r) => kept(r, v),
        None => 0nat,
    }) + kept_all(st.stack, v)
}

proof fn lemma_kept_push(s: Seq<SpanModel>, x: SpanModel, v: LogEvent)
    ensures
        kept_all(s.push(x), v) == kept_all(s, v) + kept(x, v),
{
    assert(s.push(x).drop_last() =~= s);
}

proof fn lemma_kept_update(s: Seq<SpanModel>, i: int, x: SpanModel, v: LogEvent)
    requires
        0 <= i < s.len(),
    ensures
        kept_all(s.update(i, x), v) + kept(s[i], v) == kept_all(s, v) + kept(x, v),
    decreases s.len(),
{
    let n = s.len() - 1;
    if i == n {
        assert(s.update(i, x).drop_last() =~= s.drop_last());
    } else {
        assert(s.update(i, x).drop_last() =~= s.drop_last().update(i, x));
        lemma_kept_update(s.drop_last(), i, x, v);
    }
}

proof fn lemma_kept_with_child(p: SpanModel, c: SpanModel, v: LogEvent)
    ensures
        kept(p.with_child(c), v) == kept(p, v) + kept(c, v),
{
    lemma_kept_push(p.children, c, v);
}

proof fn lemma_commit_kept(span: SpanModel, st: BuildState, v: LogEvent)
    requires
        st.root is Some,
    ensures
        state_kept(commit(span, st), v) == state_kept(st, v) + kept(span, v),
{
    if st.stack.len() > 0 {
        let n = st.stack.len() - 1;
        lemma_kept_with_child(st.stack[n], span, v);
        lemma_kept_update(st.stack, n, st.stack[n].with_child(span), v);
    } else {
        lemma_kept_with_child(st.root.unwrap(), span, v);
    }
}

proof fn lemma_collapse_kept(s: Seq<SpanModel>, k: int, v: LogEvent)
    requires
        0 <= k < s.len(),
    ensures
        kept_all(collapse(s, k), v) == kept_all(s, v),
    decreases s.len(),
{
    if s.len() > k + 1 {
        let n = s.len();
        let x = s[n - 2].with_child(s[n - 1]);
        let t = s.drop_last().update(n - 2, x);
        lemma_kept_with_child(s[n - 2], s[n - 1], v);
        lemma_kept_update(s.drop_last(), n - 2, x, v);
        lemma_kept_push(s.drop_last(), s.last(), v);
        assert(s.drop_last().push(s.last()) =~= s);
        lemma_collapse_kept(t, k, v);
    }
}

proof fn lemma_drain_kept(r: SpanModel, s: Seq<SpanModel>, v: LogEvent)
    ensures
        kept(drain(r, s), v) == kept(r, v) + kept_all(s, v),
    decreases s.len(),
{
    if s.len() > 0 {
        lemma_kept_with_child(r, s.last(), v);
        lemma_drain_kept(r.with_child(s.last()), s.drop_last(), v);
        lemma_kept_push(s.drop_last(), s.last(), v);
        assert(s.drop_last().push(s.last()) =~= s);
    }
}

proof fn lemma_build_kept(events: Seq<ClassifiedEvent>, v: LogEvent)
    ensures
        state_kept(build_state(events), v) == logged_count(events, v),
    decreases events.len(),
{
    if events.len() > 0 {
        let prev = events.drop_last();
        let e = events.last();
        lemma_build_kept(prev, v);
        lemma_build_state(prev);
        let st = build_state(prev);
        lemma_last_named(st.stack, exit_name(e), st.stack.len() as int);
        assert(kept_all(Seq::<SpanModel>::empty(), v) == 0);
        assert(occurrences(Seq::<LogEvent>::empty(), v) == 0);
        match e.kind {
            EventKind::Entry => {
                let span = SpanModel::leaf(entry_name(e), e.event.timestamp);
                assert(kept(span, v) == 0);
                if st.root is Some {
                    if st.stack.len() > 0 {
                        lemma_kept_push(st.stack.drop_last(), st.stack.last(), v);
                        assert(st.stack.drop_last().push(st.stack.last()) =~= st.stack);
                        lemma_commit_kept(
                            st.stack.last(),
                            BuildState { stack: st.stack.drop_last(), ..st },
                            v,
                        );
                    }
                    let top_is_http = st.stack.len() > 0 && is_http_request_name(
                        st.stack.last().name,
                    );
                    let st2 = if (st.prev_entry && st.stack.len() > 0) || (is_http_request_name(
                        entry_name(e),
                    ) && top_is_http) {
                        commit(st.stack.last(), BuildState { stack: st.stack.drop_last(), ..st })
                    } else {
                        st
                    };
                    lemma_kept_push(st2.stack, span, v);
                }
            },
            EventKind::Exit => {
                let st1 = BuildState { prev_entry: false, ..st };
                match last_named(st1.stack, exit_name(e), st1.stack.len() as int) {
                    Some(idx) => {
                        let ended = SpanModel { end_time: e.event.timestamp, ..st1.stack[idx] };
                        let u = st1.stack.update(idx, ended);
                        assert(kept(ended, v) == kept(st1.stack[idx], v));
                        lemma_kept_update(st1.stack, idx, ended, v);
                        lemma_collapse(u, idx);
                        lemma_collapse_kept(u, idx, v);
                        let s2 = collapse(u, idx);
                        lemma_kept_push(s2.drop_last(), s2.last(), v);
                        assert(s2.drop_last().push(s2.last()) =~= s2);
                        lemma_commit_kept(
                            s2.last(),
                            BuildState { stack: s2.drop_last(), ..st1 },
                            v,
                        );
                    },
                    None => {
                        if st1.root is Some {
                            let r = st1.root.unwrap();
                            let ended = SpanModel { end_time: e.event.timestamp, ..r };
                            assert(kept(ended, v) == kept(r, v));
                            lemma_drain_kept(ended, st1.stack, v);
                        }
                    },
                }
            },
            EventKind::Error => {
                let st1 = ensure_root(BuildState { prev_entry: false, ..st });
                assert(kept(SpanModel::leaf("(empty)"@, None), v) == 0);
                if st1.stack.len() > 0 {
                    let n = st1.stack.len() - 1;
                    let top = SpanModel { error: e.error_detail, has_error: true, ..st1.stack[n] };
                    assert(kept(top, v) == kept(st1.stack[n], v));
                    lemma_kept_update(st1.stack, n, top, v);
                }
            },
            EventKind::Log => {
                let st1 = ensure_root(BuildState { prev_entry: false, ..st });
                assert(kept(SpanModel::leaf("(empty)"@, None), v) == 0);
                if st1.stack.len() > 0 {
                    let n = st1.stack.len() - 1;
                    let evs = st1.stack[n].events;
                    let top = SpanModel { events: evs.push(e.event), ..st1.stack[n] };
                    assert(evs.push(e.event).drop_last() =~= evs);
                    lemma_kept_update(st1.stack, n, top, v);
                } else {
                    let r = st1.root.unwrap();
                    assert(r.events.push(e.event).drop_last() =~= r.events);
                }
            },
        }
    }
}

/// Reconstruction keeps every logged event: each event value is kept by
/// the spans of the tree exactly as many times as `Log` events carry it in
/// the input (as multisets, the kept events are the logged ones), none lost
/// and none added.
pub proof fn law_tree_keeps_the_logged_events(events: Seq<ClassifiedEvent>, v: LogEvent)
    ensures
        kept(build_model(events), v) == logged_count(events, v),
{
    lemma_build_state(events);
    lemma_build_kept(events, v);
    let st = build_state(events);
    if st.root is Some {
        if st.stack.len() > 0 {
            lemma_collapse(st.stack, 0);
            lemma_collapse_kept(st.stack, 0, v);
            let s = collapse(st.stack, 0);
            lemma_kept_push(s.drop_last(), s.last(), v);
            assert(s.drop_last() =~= Seq::<SpanModel>::empty());
            assert(s.drop_last().push(s.last()) =~= s);
            lemma_kept_with_child(st.root.unwrap(), s[0], v);
        }
    } else {
        assert(kept_all(Seq::<SpanModel>::empty(), v) == 0);
        assert(occurrences(Seq::<LogEvent>::empty(), v) == 0);
    }
}

// ── The order of the logged events ──────────────────────────────────────────

/// The events of the `Log` events among `events`, in order.
pub open spec fn log_seq(events: Seq<ClassifiedEvent>) -> Seq<LogEvent>
    decreases events.len(),
{
    if events.len() == 0 {
        Seq::empty()
    } else {
        log_seq(events.drop_last()) + if events.last().kind == EventKind::Log {
            seq![events.last().event]
        } else {
            Seq::<LogEvent>::empty()
        }
    }
}

/// Every span of the tree keeps its events in the order they come in `l`.
pub open spec fn in_order(m: SpanModel, l: Seq<LogEvent>) -> bool
    decreases m,
{
    is_subsequence(m.events, l) && in_order_all(m.children, l)
}

pub open spec fn in_order_all(s: Seq<SpanModel>, l: Seq<LogEvent>) -> bool
    decreases s,
{
    s.len() == 0 || (in_order_all(s.drop_last(), l) && in_order(s.last(), l))
}

pub open spec fn state_in_order(st: BuildState, l: Seq<LogEvent>) -> bool {
    &&& st.root matches Some(r) ==> in_order(r, l)
    &&& in_order_all(st.stack, l)
}

proof fn lemma_in_order_extend(m: SpanModel, l: Seq<LogEvent>, y: LogEvent)
    requires
        in_order(m, l),
    ensures
        in_order(m, l.push(y)),
    decreases m,
{
    lemma_subsequence_extend(m.events, l, y);
    lemma_in_order_all_extend(m.children, l, y);
}

proof fn lemma_in_order_all_extend(s: Seq<SpanModel>, l: Seq<LogEvent>, y: LogEvent)
    requires
        in_order_all(s, l),
    ensures
        in_order_all(s, l.push(y)),
    decreases s,
{
    if s.len() > 0 {
        lemma_in_order_all_extend(s.drop_last(), l, y);
        lemma_in_order_extend(s.last(), l, y);
    }
}

proof fn lemma_in_order_push(s: Seq<SpanModel>, x: SpanModel, l: Seq<LogEvent>)
    ensures
        in_order_all(s.push(x), l) == (in_order_all(s, l) && in_order(x, l)),
{
    assert(s.push(x).drop_last() =~= s);
}

proof fn lemma_in_order_elem(s: Seq<SpanModel>, i: int, l: Seq<LogEvent>)
    requires
        in_order_all(s, l),
        0 <= i < s.len(),
    ensures
        in_order(s[i], l),
    decreases s.len(),
{
    if i < s.len() - 1 {
        lemma_in_order_elem(s.drop_last(), i, l);
    }
}

proof fn lemma_in_order_update(s: Seq<SpanModel>, i: int, x: SpanModel, l: Seq<LogEvent>)
    requires
        in_order_all(s, l),
        in_order(x, l),
        0 <= i < s.len(),
    ensures
        in_order_all(s.update(i, x), l),
    decreases s.len(),
{
    let n = s.len() - 1;
    if i == n {
        assert(s.update(i, x).drop_last() =~= s.drop_last());
    } else {
        assert(s.update(i, x).drop_last() =~= s.drop_last().update(i, x));
        lemma_in_order_update(s.drop_last(), i, x, l);
    }
}

proof fn lemma_in_order_with_child(p: SpanModel, c: SpanModel, l: Seq<LogEvent>)
    requires
        in_order(p, l),
        in_order(c, l),
    ensures
        in_order(p.with_child(c), l),
{
    lemma_in_order_push(p.children, c, l);
}

proof fn lemma_commit_in_order(span: SpanModel, st: BuildState, l: Seq<LogEvent>)
    requires
        st.root is Some,
        state_in_order(st, l),
        in_order(span, l),
    ensures
        state_in_order(commit(span, st), l),
{
    if st.stack.len() > 0 {
        let n = st.stack.len() - 1;
        lemma_in_order_elem(st.stack, n, l);
        lemma_in_order_with_child(st.stack[n], span, l);
        lemma_in_order_update(st.stack, n, st.stack[n].with_child(span), l);
    } else {
        lemma_in_order_with_child(st.root.unwrap(), span, l);
    }
}

proof fn lemma_collapse_in_order(s: Seq<SpanModel>, k: int, l: Seq<LogEvent>)
    requires
        0 <= k < s.len(),
        in_order_all(s, l),
    ensures
        in_order_all(collapse(s, k), l),
    decreases s.len(),
{
    if s.len() > k + 1 {
        let n = s.len();
        let x = s[n - 2].with_child(s[n - 1]);
        let t = s.drop_last().update(n - 2, x);
        lemma_in_order_elem(s, n - 2, l);
        lemma_in_order_elem(s, n - 1, l);
        lemma_in_order_with_child(s[n - 2], s[n - 1], l);
        lemma_in_order_update(s.drop_last(), n - 2, x, l);
        lemma_collapse_in_order(t, k, l);
    }
}

proof fn lemma_drain_in_order(r: SpanModel, s: Seq<SpanModel>, l: Seq<LogEvent>)
    requires
        in_order(r, l),
        in_order_all(s, l),
    ensures
        in_order(drain(r, s), l),
    decreases s.len(),
{
    if s.len() > 0 {
        lemma_in_order_with_child(r, s.last(), l);
        lemma_drain_in_order(r.with_child(s.last()), s.drop_last(), l);
    }
}

proof fn lemma_leaf_in_order(name: Seq<char>, t: Option<i64>, l: Seq<LogEvent>)
    ensures
        in_order(SpanModel::leaf(name, t), l),
{
    lemma_subsequence_empty(l);
}

proof fn lemma_build_in_order(events: Seq<ClassifiedEvent>)
    ensures
        state_in_order(build_state(events), log_seq(events)),
    decreases events.len(),
{
    if events.len() > 0 {
        let prev = events.drop_last();
        let e = events.last();
        let l = log_seq(prev);
        lemma_build_in_order(prev);
        lemma_build_state(prev);
        let st = build_state(prev);
        lemma_last_named(st.stack, exit_name(e), st.stack.len() as int);
        lemma_leaf_in_order("(empty)"@, None, l);
        lemma_leaf_in_order(entry_name(e), e.event.timestamp, l);
        if e.kind != EventKind::Log {
            assert(log_seq(events) =~= l);
        }
        match e.kind {
            EventKind::Entry => {
                let span = SpanModel::leaf(entry_name(e), e.event.timestamp);
                if st.root is Some {
                    if st.stack.len() > 0 {
                        lemma_in_order_push(st.stack.drop_last(), st.stack.last(), l);
                        assert(st.stack.drop_last().push(st.stack.last()) =~= st.stack);
                        lemma_commit_in_order(
                            st.stack.last(),
                            BuildState { stack: st.stack.drop_last(), ..st },
                            l,
                        );
                    }
                    let top_is_http = st.stack.len() > 0 && is_http_request_name(
                        st.stack.last().name,
                    );
                    let st2 = if (st.prev_entry && st.stack.len() > 0) || (is_http_request_name(
                        entry_name(e),
                    ) && top_is_http) {
                        commit(st.stack.last(), BuildState { stack: st.stack.drop_last(), ..st })
                    } else {
                        st
                    };
                    lemma_in_order_push(st2.stack, span, l);
                }
            },
            EventKind::Exit => {
                let st1 = BuildState { prev_entry: false, ..st };
                match last_named(st1.stack, exit_name(e), st1.stack.len() as int) {
                    Some(idx) => {
                        let ended = SpanModel { end_time: e.event.timestamp, ..st1.stack[idx] };
                        let u = st1.stack.update(idx, ended);
                        lemma_in_order_elem(st1.stack, idx, l);
                        lemma_in_order_update(st1.stack, idx, ended, l);
                        lemma_collapse(u, idx);
                        lemma_collapse_in_order(u, idx, l);
                        let s2 = collapse(u, idx);
                        lemma_in_order_push(s2.drop_last(), s2.last(), l);
                        assert(s2.drop_last().push(s2.last()) =~= s2);
                        lemma_commit_in_order(
                            s2.last(),
                            BuildState { stack: s2.drop_last(), ..st1 },
                            l,
                        );
                    },
                    None => {
                        if st1.root is Some {
                            let r = st1.root.unwrap();
                            let ended = SpanModel { end_time: e.event.timestamp, ..r };
                            lemma_drain_in_order(ended, st1.stack, l);
                        }
                    },
                }
            },
            EventKind::Error => {
                let st1 = ensure_root(BuildState { prev_entry: false, ..st });
                if st1.stack.len() > 0 {
                    let n = st1.stack.len() - 1;
                    let top = SpanModel { error: e.error_detail, has_error: true, ..st1.stack[n] };
                    lemma_in_order_elem(st1.stack, n, l);
                    lemma_in_order_update(st1.stack, n, top, l);
                }
            },
            EventKind::Log => {
                let x = e.event;
                let l2 = l.push(x);
                assert(log_seq(events) =~= l2);
                let st1 = ensure_root(BuildState { prev_entry: false, ..st });
                lemma_in_order_all_extend(st1.stack, l, x);
                lemma_in_order_extend(st1.root.unwrap(), l, x);
                if st1.stack.len() > 0 {
                    let n = st1.stack.len() - 1;
                    let old_top = st1.stack[n];
                    let top = SpanModel { events: old_top.events.push(x), ..old_top };
                    lemma_in_order_elem(st1.stack, n, l);
                    lemma_subsequence_push(old_top.events, l, x);
                    lemma_in_order_all_extend(old_top.children, l, x);
                    lemma_in_order_update(st1.stack, n, top, l2);
                } else {
                    let r = st1.root.unwrap();
                    lemma_subsequence_push(r.events, l, x);
                    lemma_in_order_all_extend(r.children, l, x);
                }
            },
        }
    }
}

/// Every span of the reconstructed tree keeps its events in the order they
/// were logged: each span's list is a subsequence of the events of the
/// `Log` events of the input.
pub proof fn law_spans_keep_logged_order(events: Seq<ClassifiedEvent>)
    ensures
        in_order(build_model(events), log_seq(events)),
{
    let l = log_seq(events);
    lemma_build_state(events);
    lemma_build_in_order(events);
    lemma_leaf_in_order("(empty)"@, None, l);
    let st = build_state(events);
    if st.root is Some {
        if st.stack.len() > 0 {
            lemma_collapse(st.stack, 0);
            lemma_collapse_in_order(st.stack, 0, l);
            let s = collapse(st.stack, 0);
            lemma_in_order_elem(s, 0, l);
            lemma_in_order_with_child(st.root.unwrap(), s[0], l);
        }
    }
}

proof fn lemma_entry_count_le(events: Seq<ClassifiedEvent>)
    ensures
        entry_count(events) <= events.len(),
        first_open_kind(events) is Some && first_open_kind(events) != Some(EventKind::Entry)
            ==> entry_count(events) < events.len(),
    decreases events.len(),
{
    if events.len() > 0 {
        lemma_entry_count_le(events.drop_last());
    }
}

/// The tree never holds more spans than there are events (or one, for no
/// events).
pub proof fn lemma_build_model_count_bound(events: Seq<ClassifiedEvent>)
    ensures
        build_model(events).count() <= if events.len() == 0 {
            1
        } else {
            events.len()
        },
{
    law_one_span_per_entry(events);
    lemma_entry_count_le(events);
    if first_open_kind(events) is None && events.len() > 0 {
        lemma_no_open_no_entry(events);
    }
}

proof fn lemma_no_open_no_entry(events: Seq<ClassifiedEvent>)
    requires
        first_open_kind(events) is None,
    ensures
        entry_count(events) == 0,
    decreases events.len(),
{
    if events.len() > 0 {
        lemma_no_open_no_entry(events.drop_last());
    }
}

// ── Execution ───────────────────────────────────────────────────────────────

pub open spec fn opt_model(o: Option<Span>) -> Option<SpanModel> {
    match o {
        Some(s) => Some(s@),
        None => None,
    }
}

pub open spec fn state_of(root: Option<Span>, stack: Seq<Span>, prev: bool) -> BuildState {
    BuildState { root: opt_model(root), stack: Span::models(stack), prev_entry: prev }
}

/// True if the span name looks like an outgoing HTTP request (e.g. "POST https://...").
pub fn is_http_request_span(name: &str) -> (r: bool)
    ensures
        r == is_http_request_name(name@),
{
    let all = to_chars(name);
    let t = trim_exec(all.as_slice());
    let ts = t.as_slice();
    let get = to_chars("GET ");
    let post = to_chars("POST ");
    let put = to_chars("PUT ");
    let patch = to_chars("PATCH ");
    let delete = to_chars("DELETE ");
    let head = to_chars("HEAD ");
    let http = to_chars("http");
    let method_prefix = at_exact_exec(ts, 0, get.as_slice()) || at_exact_exec(
        ts,
        0,
        post.as_slice(),
    ) || at_exact_exec(ts, 0, put.as_slice()) || at_exact_exec(ts, 0, patch.as_slice())
        || at_exact_exec(ts, 0, delete.as_slice()) || at_exact_exec(ts, 0, head.as_slice());
    method_prefix && contains_exact_exec(ts, http.as_slice())
}

fn push_child(parent: &mut Span, child: Span)
    ensures
        final(parent)@ == old(parent)@.with_child(child@),
{
    let ghost c = child;
    parent.children.push(child);
    proof {
        lemma_models_push(old(parent).children@, c);
        assert(final(parent)@ =~= old(parent)@.with_child(c@));
    }
}

/// Add a finished span to its parent: either the top of the stack or root.
fn commit_span(span: Span, stack: &mut Vec<Span>, root: &mut Option<Span>, prev: bool)
    ensures
        state_of(*final(root), final(stack)@, prev) == commit(
            span@,
            state_of(*old(root), old(stack)@, prev),
        ),
{
    let ghost sp = span;
    if stack.len() > 0 {
        let ghost s0 = stack@;
        let mut top = stack.pop().unwrap();
        push_child(&mut top, span);
        let ghost t = top;
        stack.push(top);
        proof {
            lemma_models_drop_last(s0);
            lemma_models_push(s0.drop_last(), t);
            lemma_models(s0);
            let n = s0.len() - 1;
            assert(Span::models(s0).update(n, Span::models(s0)[n].with_child(sp@)) =~= Span::models(
                s0,
            ).drop_last().push(t@));
        }
    } else if root.is_some() {
        let mut r = root.take().unwrap();
        push_child(&mut r, span);
        *root = Some(r);
    }
}

/// Index of the innermost open span named `name`.
fn find_last_named(stack: &Vec<Span>, name: &String) -> (r: Option<usize>)
    ensures
        r matches Some(i) ==> last_named(Span::models(stack@), name@, stack@.len() as int) == Some(
            i as int,
        ),
        r is None ==> last_named(Span::models(stack@), name@, stack@.len() as int) is None,
        r matches Some(i) ==> i < stack@.len(),
{
    proof {
        lemma_models(stack@);
    }
    let ghost ms = Span::models(stack@);
    let mut k = stack.len();
    while k > 0
        invariant
            k <= stack@.len(),
            ms == Span::models(stack@),
            ms.len() == stack@.len(),
            forall|i: int| 0 <= i < ms.len() ==> #[trigger] ms[i] == stack@[i]@,
            last_named(ms, name@, k as int) == last_named(ms, name@, stack@.len() as int),
        decreases k,
    {
        if stack[k - 1].name == *name {
            assert(ms[k - 1].name == name@);
            return Some(k - 1);
        }
        assert(ms[k - 1].name != name@);
        k = k - 1;
    }
    None
}

/// Close every span above position `k`, each becoming the last child of the
/// span below it.
fn collapse_stack(stack: &mut Vec<Span>, k: usize)
    requires
        k < old(stack)@.len(),
    ensures
        Span::models(final(stack)@) == collapse(Span::models(old(stack)@), k as int),
        final(stack)@.len() == k + 1,
{
    proof {
        lemma_models(stack@);
    }
    while stack.len() > k + 1
        invariant
            k < stack@.len(),
            collapse(Span::models(stack@), k as int) == collapse(
                Span::models(old(stack)@),
                k as int,
            ),
        decreases stack@.len(),
    {
        let ghost s0 = stack@;
        let child = stack.pop().unwrap();
        let mut top = stack.pop().unwrap();
        let ghost c = child;
        let ghost t0 = top;
        push_child(&mut top, child);
        let ghost t = top;
        stack.push(top);
        proof {
            let n = s0.len();
            lemma_models(s0);
            lemma_models(stack@);
            let m0 = Span::models(s0);
            assert(m0[n - 1] == c@);
            assert(m0[n - 2] == t0@);
            assert(Span::models(stack@) =~= m0.drop_last().update(
                n - 2,
                m0[n - 2].with_child(m0[n - 1]),
            ));
        }
    }
    proof {
        lemma_models(stack@);
    }
}

/// Move every open span, innermost first, under `r`.
fn drain_stack(r: &mut Span, stack: &mut Vec<Span>)
    ensures
        final(r)@ == drain(old(r)@, Span::models(old(stack)@)),
        final(stack)@.len() == 0,
{
    while stack.len() > 0
        invariant
            drain(r@, Span::models(stack@)) == drain(old(r)@, Span::models(old(stack)@)),
        decreases stack@.len(),
    {
        let ghost s0 = stack@;
        let child = stack.pop().unwrap();
        proof {
            lemma_models_drop_last(s0);
        }
        push_child(r, child);
    }
}

fn ensure_root_exec(root: &mut Option<Span>)
    ensures
        opt_model(*final(root)) == ensure_root(state_of(*old(root), Seq::empty(), false)).root,
{
    if root.is_none() {
        *root = Some(Span::new("(empty)"));
    }
}

/// Process one event.
fn apply_event(
    event: ClassifiedEvent,
    root: &mut Option<Span>,
    stack: &mut Vec<Span>,
    prev_was_entry: &mut bool,
)
    ensures
        state_of(*final(root), final(stack)@, *final(prev_was_entry)) == step(
            state_of(*old(root), old(stack)@, *old(prev_was_entry)),
            event,
        ),
{
    let ghost st = state_of(*root, stack@, *prev_was_entry);
    proof {
        lemma_models(stack@);
    }
    match event.kind {
        EventKind::Entry => {
            let name = match event.function_name {
                Some(n) => n,
                None => string_of("unknown"),
            };
            let mut span = Span::new(name.as_str());
            span.start_time = event.event.timestamp;
            if root.is_none() {
                *root = Some(span);
                *prev_was_entry = true;
                return;
            }
            let top_is_http = if stack.len() > 0 {
                is_http_request_span(stack[stack.len() - 1].name.as_str())
            } else {
                false
            };
            let new_is_http = is_http_request_span(name.as_str());
            if (*prev_was_entry && stack.len() > 0) || (new_is_http && top_is_http) {
                let ghost s0 = stack@;
                let sibling = stack.pop().unwrap();
                proof {
                    lemma_models_drop_last(s0);
                }
                commit_span(sibling, stack, root, *prev_was_entry);
            }
            let ghost s1 = stack@;
            let ghost sp = span;
            stack.push(span);
            proof {
                lemma_models_push(s1, sp);
            }
            *prev_was_entry = true;
        },
        EventKind::Exit => {
            *prev_was_entry = false;
            let name = match event.function_name {
                Some(n) => n,
                None => String::new(),
            };
            match find_last_named(stack, &name) {
                Some(idx) => {
                    let ghost s0 = stack@;
                    stack[idx].end_time = event.event.timestamp;
                    proof {
                        lemma_models_update(s0, idx as int, stack@[idx as int]);
                        assert(stack@ == s0.update(idx as int, stack@[idx as int]));
                        assert(stack@[idx as int]@ =~= (SpanModel {
                            end_time: event.event.timestamp,
                            ..s0[idx as int]@
                        }));
                    }
                    collapse_stack(stack, idx);
                    let ghost s1 = stack@;
                    let closed = stack.pop().unwrap();
                    proof {
                        lemma_models_drop_last(s1);
                    }
                    commit_span(closed, stack, root, false);
                },
                None => {
                    if root.is_some() {
                        let mut r = root.take().unwrap();
                        if r.name == name {
                            r.end_time = event.event.timestamp;
                            drain_stack(&mut r, stack);
                        }
                        *root = Some(r);
                    }
                },
            }
        },
        EventKind::Error => {
            *prev_was_entry = false;
            ensure_root_exec(root);
            if stack.len() > 0 {
                let ghost s0 = stack@;
                let n = stack.len() - 1;
                stack[n].error = event.error_detail;
                stack[n].has_error = true;
                proof {
                    lemma_models_update(s0, n as int, stack@[n as int]);
                    assert(stack@ == s0.update(n as int, stack@[n as int]));
                    assert(stack@[n as int]@ =~= (SpanModel {
                        error: event.error_detail,
                        has_error: true,
                        ..s0[n as int]@
                    }));
                }
            } else {
                let mut r = root.take().unwrap();
                r.error = event.error_detail;
                r.has_error = true;
                *root = Some(r);
            }
        },
        EventKind::Log => {
            *prev_was_entry = false;
            ensure_root_exec(root);
            if stack.len() > 0 {
                let ghost s0 = stack@;
                let n = stack.len() - 1;
                stack[n].events.push(event.event);
                proof {
                    lemma_models_update(s0, n as int, stack@[n as int]);
                    assert(stack@ == s0.update(n as int, stack@[n as int]));
                    assert(stack@[n as int]@ =~= (SpanModel {
                        events: s0[n as int]@.events.push(event.event),
                        ..s0[n as int]@
                    }));
                }
            } else {
                let mut r = root.take().unwrap();
                let ghost r0 = r;
                r.events.push(event.event);
                proof {
                    assert(r@ =~= (SpanModel { events: r0@.events.push(event.event), ..r0@ }));
                }
                *root = Some(r);
            }
        },
    }
}

/// Build a tree of `Span`s from a sequence of classified events.
///
/// Uses a stack-based algorithm with the **sibling heuristic**: consecutive
/// `Entry` events without an `Exit` between them are treated as siblings
/// (children of the same parent) rather than nested. This reflects the
/// common pattern in real-world logs where functions only log on entry.
///
/// When `Exit` events are present, proper nesting is respected.
pub fn build_span_tree(events: Vec<ClassifiedEvent>) -> (root: Span)
    ensures
        root@ == build_model(events@),
        root@.count() <= if events@.len() == 0 {
            1
        } else {
            events@.len()
        },
{
    proof {
        lemma_build_model_count_bound(events@);
    }
    let ghost all = events@;
    if events.len() == 0 {
        let s = Span::new("(empty)");
        proof {
            assert(all =~= Seq::<ClassifiedEvent>::empty());
        }
        return s;
    }
    let mut root: Option<Span> = None;
    let mut stack: Vec<Span> = Vec::new();
    let mut prev_was_entry = false;
    proof {
        assert(all.take(0) =~= Seq::<ClassifiedEvent>::empty());
        assert(state_of(root, stack@, prev_was_entry) =~= initial_state());
    }
    for event in it: events
        invariant
            it.seq() == all,
            state_of(root, stack@, prev_was_entry) == build_state(all.take(it.index() as int)),
    {
        let ghost i = it.index();
        apply_event(event, &mut root, &mut stack, &mut prev_was_entry);
        proof {
            assert(all.take(i + 1).drop_last() =~= all.take(i as int));
        }
    }
    proof {
        assert(all.take(all.len() as int) =~= all);
    }
    let ghost fin = state_of(root, stack@, prev_was_entry);
    if stack.len() > 0 {
        collapse_stack(&mut stack, 0);
        let last = stack.pop().unwrap();
        proof {
            lemma_models(stack@);
        }
        if root.is_some() {
            let mut r = root.take().unwrap();
            push_child(&mut r, last);
            root = Some(r);
        }
    } else {
        proof {
            assert(collapse(fin.stack, 0) == fin.stack);
        }
    }
    match root {
        Some(r) => r,
        None => Span::new("(empty)"),
    }
}

} // verus!
