//! From groups of events to traces.
pub mod stack;

use vstd::prelude::*;

use crate::grouper::RequestGroup;
use crate::model::event::{ClassifiedEvent, LogEvent};
use crate::model::span::{lemma_count_all_push, lemma_models, spec_duration, Span, SpanModel};
use crate::model::trace::Trace;

use self::stack::{build_model, build_span_tree};

verus! {

/// The later of two optional times.
pub open spec fn max_opt(a: Option<i64>, b: Option<i64>) -> Option<i64> {
    match (a, b) {
        (Some(x), Some(y)) => Some(if x >= y {
            x
        } else {
            y
        }),
        (Some(x), None) => Some(x),
        (None, Some(y)) => Some(y),
        (None, None) => None,
    }
}

/// Latest end (or, without one, start) time among the spans `cs`.
pub open spec fn children_latest(cs: Seq<SpanModel>) -> Option<i64>
    decreases cs.len(),
{
    if cs.len() == 0 {
        None
    } else {
        max_opt(
            children_latest(cs.drop_last()),
            match cs.last().end_time {
                Some(t) => Some(t),
                None => cs.last().start_time,
            },
        )
    }
}

/// Latest time among the events `es`.
pub open spec fn events_latest(es: Seq<LogEvent>) -> Option<i64>
    decreases es.len(),
{
    if es.len() == 0 {
        None
    } else {
        max_opt(events_latest(es.drop_last()), es.last().timestamp)
    }
}

/// The span tree `m` with end times inferred bottom-up: a span that started
/// but has no end ends at the latest time among its children (their end, or
/// start) and its own events.
pub open spec fn infer(m: SpanModel) -> SpanModel
    decreases m,
{
    let cs = infer_all(m.children);
    SpanModel {
        children: cs,
        end_time: if m.start_time is Some && m.end_time is None {
            max_opt(children_latest(cs), events_latest(m.events))
        } else {
            m.end_time
        },
        ..m
    }
}

pub open spec fn infer_all(s: Seq<SpanModel>) -> Seq<SpanModel>
    decreases s,
{
    if s.len() == 0 {
        Seq::empty()
    } else {
        infer_all(s.drop_last()).push(infer(s.last()))
    }
}

proof fn lemma_infer_all(s: Seq<SpanModel>)
    ensures
        infer_all(s).len() == s.len(),
        forall|i: int| 0 <= i < s.len() ==> #[trigger] infer_all(s)[i] == infer(s[i]),
    decreases s.len(),
{
    if s.len() > 0 {
        lemma_infer_all(s.drop_last());
    }
}

/// Inferring end times changes no span count.
pub proof fn lemma_infer_count(m: SpanModel)
    ensures
        infer(m).count() == m.count(),
    decreases m,
{
    lemma_infer_all_count(m.children);
}

proof fn lemma_infer_all_count(s: Seq<SpanModel>)
    ensures
        SpanModel::count_all(infer_all(s)) == SpanModel::count_all(s),
    decreases s,
{
    if s.len() > 0 {
        lemma_infer_all_count(s.drop_last());
        lemma_infer_count(s.last());
        lemma_count_all_push(infer_all(s.drop_last()), infer(s.last()));
    }
}

proof fn lemma_children_latest_bounds(cs: Seq<SpanModel>)
    ensures
        forall|i: int|
            0 <= i < cs.len() && (#[trigger] cs[i]).end_time is Some ==> children_latest(cs) is Some
                && children_latest(cs)->0 >= cs[i].end_time->0,
        forall|i: int|
            0 <= i < cs.len() && (#[trigger] cs[i]).end_time is None && cs[i].start_time is Some
                ==> children_latest(cs) is Some && children_latest(cs)->0 >= cs[i].start_time->0,
    decreases cs.len(),
{
    if cs.len() > 0 {
        lemma_children_latest_bounds(cs.drop_last());
        assert forall|i: int| 0 <= i < cs.len() - 1 implies cs[i] == cs.drop_last()[i] by {}
    }
}

proof fn lemma_events_latest_bounds(es: Seq<LogEvent>)
    ensures
        forall|i: int|
            0 <= i < es.len() && (#[trigger] es[i]).timestamp is Some ==> events_latest(es) is Some
                && events_latest(es)->0 >= es[i].timestamp->0,
    decreases es.len(),
{
    if es.len() > 0 {
        lemma_events_latest_bounds(es.drop_last());
        assert forall|i: int| 0 <= i < es.len() - 1 implies es[i] == es.drop_last()[i] by {}
    }
}

/// A span that started but whose end was not logged ends, once end times
/// are inferred, no earlier than any of its children (their inferred or
/// logged end; their start when they have no end) and than any of its own
/// events: end times are inferred bottom-up, children before parents. A
/// span whose end was logged keeps it, and one without a start gets none.
pub proof fn law_inferred_end_covers_children(m: SpanModel)
    ensures
        m.start_time is Some && m.end_time is None ==> {
            &&& forall|i: int|
                0 <= i < m.children.len() && (#[trigger] infer(m).children[i]).end_time is Some
                    ==> infer(m).end_time is Some && infer(m).end_time->0 >= infer(
                    m,
                ).children[i].end_time->0
            &&& forall|i: int|
                0 <= i < m.children.len() && (#[trigger] infer(m).children[i]).end_time is None
                    && infer(m).children[i].start_time is Some ==> infer(m).end_time is Some
                    && infer(m).end_time->0 >= infer(m).children[i].start_time->0
            &&& forall|i: int|
                0 <= i < m.events.len() && (#[trigger] m.events[i]).timestamp is Some
                    ==> infer(m).end_time is Some && infer(m).end_time->0 >= m.events[i].timestamp->0
        },
        !(m.start_time is Some && m.end_time is None) ==> infer(m).end_time == m.end_time,
        infer(m).children.len() == m.children.len(),
        forall|i: int| 0 <= i < m.children.len() ==> #[trigger] infer(m).children[i] == infer(m.children[i]),
        infer(m).start_time == m.start_time,
{
    let cs = infer_all(m.children);
    lemma_infer_all(m.children);
    lemma_children_latest_bounds(cs);
    lemma_events_latest_bounds(m.events);
}

/// The latest of the times of `span`'s children and events.
fn find_latest_timestamp(span: &Span) -> (r: Option<i64>)
    ensures
        r == max_opt(children_latest(span@.children), events_latest(span.events@)),
{
    proof {
        lemma_models(span.children@);
    }
    let ghost ms = span@.children;
    let mut child_max: Option<i64> = None;
    let mut i: usize = 0;
    while i < span.children.len()
        invariant
            0 <= i <= span.children@.len(),
            ms == Span::models(span.children@),
            ms.len() == span.children@.len(),
            forall|j: int| 0 <= j < ms.len() ==> #[trigger] ms[j] == span.children@[j]@,
            child_max == children_latest(ms.take(i as int)),
        decreases span.children@.len() - i,
    {
        let c = &span.children[i];
        let t = match c.end_time {
            Some(e) => Some(e),
            None => c.start_time,
        };
        child_max = max_exec(child_max, t);
        proof {
            assert(ms.take(i + 1).drop_last() =~= ms.take(i as int));
            assert(ms.take(i + 1).last() == ms[i as int]);
        }
        i = i + 1;
    }
    proof {
        assert(ms.take(i as int) =~= ms);
    }
    let ghost es = span.events@;
    let mut event_max: Option<i64> = None;
    let mut k: usize = 0;
    while k < span.events.len()
        invariant
            0 <= k <= span.events@.len(),
            es == span.events@,
            event_max == events_latest(es.take(k as int)),
        decreases span.events@.len() - k,
    {
        event_max = max_exec(event_max, span.events[k].timestamp);
        proof {
            assert(es.take(k + 1).drop_last() =~= es.take(k as int));
        }
        k = k + 1;
    }
    proof {
        assert(es.take(k as int) =~= es);
    }
    max_exec(child_max, event_max)
}

fn max_exec(a: Option<i64>, b: Option<i64>) -> (r: Option<i64>)
    ensures
        r == max_opt(a, b),
{
    match (a, b) {
        (Some(x), Some(y)) => Some(if x >= y {
            x
        } else {
            y
        }),
        (Some(x), None) => Some(x),
        (None, Some(y)) => Some(y),
        (None, None) => None,
    }
}

/// Recursively infer `end_time` for spans that have `start_time` but no
/// explicit `end_time`. Uses the latest timestamp found among children
/// and attached log events.
fn infer_end_times(span: &mut Span)
    ensures
        final(span)@ == infer(old(span)@),
    decreases old(span)@,
{
    proof {
        lemma_models(span.children@);
        lemma_infer_all(old(span)@.children);
    }
    let ghost old_ms = old(span)@.children;
    let n = span.children.len();
    let mut i: usize = 0;
    while i < n
        invariant
            0 <= i <= n,
            n == span.children@.len(),
            old_ms.len() == n,
            old_ms == old(span)@.children,
            span.name == old(span).name,
            span.id == old(span).id,
            span.kind == old(span).kind,
            span.start_time == old(span).start_time,
            span.end_time == old(span).end_time,
            span.error == old(span).error,
            span.events == old(span).events,
            span.has_error == old(span).has_error,
            forall|j: int| 0 <= j < i ==> #[trigger] span.children@[j]@ == infer(old_ms[j]),
            forall|j: int| i <= j < n ==> #[trigger] span.children@[j]@ == old_ms[j],
        decreases n - i,
    {
        proof {
            assert(decreases_to!(old(span)@ => old(span)@.children));
            assert(decreases_to!(old(span)@.children => old(span)@.children[i as int]));
        }
        let ghost before = span.children@;
        infer_end_times(&mut span.children[i]);
        proof {
            assert forall|j: int| 0 <= j < n && j != i implies span.children@[j] == before[j] by {
            }
        }
        i = i + 1;
    }
    proof {
        lemma_models(span.children@);
        assert(span@.children =~= infer_all(old_ms));
    }
    if span.start_time.is_some() && span.end_time.is_none() {
        span.end_time = find_latest_timestamp(span);
    }
    proof {
        assert(span@ =~= infer(old(span)@));
    }
}

/// `t` is the trace built from the events of group `id`: the tree the
/// events describe, with end times inferred and failures propagated to the
/// root, and the counts, times and duration of that tree.
pub open spec fn built_from(t: Trace, id: Seq<char>, events: Seq<ClassifiedEvent>) -> bool {
    let m = infer(build_model(events));
    &&& SpanModel::propagated(t.root@, m)
    &&& t.id@ == id
    &&& t.request_id matches Some(r) && r@ == id
    &&& t.trace_id is None
    &&& t.span_count == m.count()
    &&& t.error_count == m.error_count()
    &&& t.has_error == (t.error_count > 0)
    &&& t.start_time == m.start_time
    &&& t.end_time == m.end_time
    &&& t.total_duration == spec_duration(m.start_time, m.end_time)
}

/// Transform a `RequestGroup` into a fully-formed `Trace`.
///
/// Pipeline:
/// 1. Build span tree from classified events (sibling heuristic)
/// 2. Infer missing `end_time` values from children/events
/// 3. Compute aggregate metrics via `Trace::from_root_span`
pub fn build_trace(group: RequestGroup) -> (t: Trace)
    ensures
        built_from(t, group.id@, group.events@),
{
    let group_id = group.id.clone();
    let _n = group.events.len();  // records that the length fits in a usize
    let mut root = build_span_tree(group.events);
    proof {
        lemma_infer_count(root@);
    }
    infer_end_times(&mut root);
    Trace::from_root_span(root, Some(group_id))
}

/// Convenience: build traces from multiple groups.
pub fn build_traces(groups: Vec<RequestGroup>) -> (ts: Vec<Trace>)
    ensures
        ts@.len() == groups@.len(),
        forall|i: int|
            0 <= i < groups@.len() ==> built_from(
                #[trigger] ts@[i],
                groups@[i].id@,
                groups@[i].events@,
            ),
{
    let ghost gs = groups@;
    let mut out: Vec<Trace> = Vec::new();
    for g in it: groups
        invariant
            it.seq() == gs,
            out@.len() == it.index(),
            forall|i: int|
                0 <= i < it.index() ==> built_from(#[trigger] out@[i], gs[i].id@, gs[i].events@),
    {
        let t = build_trace(g);
        out.push(t);
    }
    out
}

} // verus!
