//! A whole run over a batch of lines: parse, classify, group, build traces,
//! select the ones asked for, and render them.
use vstd::prelude::*;

use crate::classifier::{classified_as, classify_all};
use crate::grouper::{
    detect_strategy, group_events, groups_view, grouping, strategy_for, GroupConfig,
    GroupStrategy, RequestGroup,
};
use crate::model::event::{ClassifiedEvent, EventKind, LogEvent};
use crate::model::trace::Trace;
use crate::parser::plain::{parsed_from, PlainTextParser};
use crate::parser::LogParser;
use crate::renderer::tree::{render_all, traces_text, TreeRenderer};
use crate::text::{push_str, trim};
use crate::trace_builder::{build_traces, built_from};

verus! {

/// What to show of a run.
pub struct PipelineOptions {
    /// Only the trace of this request id.
    pub request_id: Option<String>,
    /// Only traces with errors.
    pub errors_only: bool,
    /// Only the last N traces.
    pub last: Option<usize>,
    /// Largest gap in milliseconds within one time-based group.
    pub time_threshold_ms: u64,
}

/// Why a run cannot go on.
#[derive(Debug, Clone, Copy, PartialEq, Eq, Structural)]
pub enum RunError {
    /// The events have to be grouped by time, and the time threshold, read
    /// as a signed number of milliseconds, is the one value whose negation
    /// does not fit (2^63).
    TimeThresholdOutOfRange,
}

/// `evs` are the events of the lines of `lines` that are not blank, in order,
/// each numbered by its line, counted from one.
pub open spec fn parsed_lines(lines: Seq<String>, evs: Seq<LogEvent>) -> bool
    decreases lines.len(),
{
    if lines.len() == 0 {
        evs.len() == 0
    } else if trim(lines.last()@).len() == 0 {
        parsed_lines(lines.drop_last(), evs)
    } else {
        &&& evs.len() > 0
        &&& parsed_from(evs.last(), lines.last()@, lines.len() as usize)
        &&& parsed_lines(lines.drop_last(), evs.drop_last())
    }
}

/// `cs` is the classification of `evs`, event by event.
pub open spec fn classified_all(cs: Seq<ClassifiedEvent>, evs: Seq<LogEvent>) -> bool {
    cs.len() == evs.len() && forall|i: int| 0 <= i < evs.len() ==> classified_as(#[trigger] cs[i], evs[i])
}

/// Some event is an entry, an exit or an error.
pub open spec fn has_structured(cs: Seq<ClassifiedEvent>) -> bool {
    exists|i: int| 0 <= i < cs.len() && (#[trigger] cs[i]).kind != EventKind::Log
}

/// The raw lines of the events, each ended by a line feed.
pub open spec fn raw_text(cs: Seq<ClassifiedEvent>) -> Seq<char>
    decreases cs.len(),
{
    if cs.len() == 0 {
        Seq::empty()
    } else {
        raw_text(cs.drop_last()) + cs.last().event.raw_line@ + "\n"@
    }
}

/// The groups whose id is `id`.
pub open spec fn keep_id(gs: Seq<(Seq<char>, Seq<ClassifiedEvent>)>, id: Seq<char>) -> Seq<(Seq<char>, Seq<ClassifiedEvent>)>
    decreases gs.len(),
{
    if gs.len() == 0 {
        Seq::empty()
    } else {
        keep_id(gs.drop_last(), id) + if gs.last().0 == id {
            seq![gs.last()]
        } else {
            Seq::empty()
        }
    }
}

/// The groups asked for: all, or those of the request id given.
pub open spec fn requested(gs: Seq<(Seq<char>, Seq<ClassifiedEvent>)>, request_id: Option<String>) -> Seq<(Seq<char>, Seq<ClassifiedEvent>)> {
    match request_id {
        Some(r) => keep_id(gs, r@),
        None => gs,
    }
}

/// `ts` are the traces built from groups `gs`, one for one.
pub open spec fn traces_for(ts: Seq<Trace>, gs: Seq<(Seq<char>, Seq<ClassifiedEvent>)>) -> bool {
    ts.len() == gs.len() && forall|i: int| 0 <= i < gs.len() ==> built_from(#[trigger] ts[i], gs[i].0, gs[i].1)
}

/// The traces with errors.
pub open spec fn keep_failed(ts: Seq<Trace>) -> Seq<Trace>
    decreases ts.len(),
{
    if ts.len() == 0 {
        Seq::empty()
    } else {
        keep_failed(ts.drop_last()) + if ts.last().has_error {
            seq![ts.last()]
        } else {
            Seq::empty()
        }
    }
}

/// The traces to show: those with errors when asked, then the last `last`
/// of them when asked.
pub open spec fn selected(ts: Seq<Trace>, errors_only: bool, last: Option<usize>) -> Seq<Trace> {
    let a = if errors_only {
        keep_failed(ts)
    } else {
        ts
    };
    match last {
        Some(n) => if a.len() > n {
            a.skip(a.len() - n)
        } else {
            a
        },
        None => a,
    }
}

/// Whether a trace failed, as a predicate.
pub open spec fn failed_pred() -> spec_fn(Trace) -> bool {
    |t: Trace| t.has_error
}

proof fn lemma_keep_failed_is_filter(ts: Seq<Trace>)
    ensures
        keep_failed(ts) == ts.filter(failed_pred()),
    decreases ts.len(),
{
    if ts.len() == 0 {
        reveal(Seq::filter);
    } else {
        lemma_keep_failed_is_filter(ts.drop_last());
        let sub = ts.drop_last().filter(failed_pred());
        reveal(Seq::filter);
        assert(ts.filter(failed_pred()) == (if failed_pred()(ts.last()) {
            sub.push(ts.last())
        } else {
            sub
        }));
        if ts.last().has_error {
            assert(keep_failed(ts) =~= sub.push(ts.last()));
        } else {
            assert(keep_failed(ts) =~= sub);
        }
    }
}

/// The traces a run shows, by its filters: with `errors_only`, the last `N`
/// of the traces that failed (all of them without `last`), in their order;
/// without it, the last `N` traces. So with `errors_only` the selection is
/// empty only when no trace failed or `N` is 0.
pub proof fn law_selection_is_last_n_of_filtered(ts: Seq<Trace>, errors_only: bool, last: Option<usize>)
    ensures
        ({
            let f = if errors_only {
                ts.filter(failed_pred())
            } else {
                ts
            };
            let k: int = match last {
                Some(n) => if f.len() > n {
                    n as int
                } else {
                    f.len() as int
                },
                None => f.len() as int,
            };
            &&& selected(ts, errors_only, last).len() == k
            &&& selected(ts, errors_only, last) == f.skip(f.len() - k)
            &&& forall|i: int|
                0 <= i < selected(ts, errors_only, last).len() && errors_only ==> (#[trigger] selected(
                    ts,
                    errors_only,
                    last,
                )[i]).has_error
        }),
{
    lemma_keep_failed_is_filter(ts);
    let f = if errors_only {
        ts.filter(failed_pred())
    } else {
        ts
    };
    assert(f.skip(0) =~= f);
    if errors_only {
        ts.filter_lemma(failed_pred());
        let sel = selected(ts, errors_only, last);
        assert forall|i: int| 0 <= i < sel.len() implies (#[trigger] sel[i]).has_error by {
            let k = sel.len();
            assert(sel[i] == f[f.len() - k + i]);
        }
    }
}

/// Whether a group has id `id`, as a predicate.
pub open spec fn has_id(id: Seq<char>) -> spec_fn((Seq<char>, Seq<ClassifiedEvent>)) -> bool {
    |g: (Seq<char>, Seq<ClassifiedEvent>)| g.0 == id
}

/// Asking for a request id keeps exactly the groups with that id, in their
/// order; asking for none keeps every group.
pub proof fn law_request_filter_keeps_that_id(gs: Seq<(Seq<char>, Seq<ClassifiedEvent>)>, id: Seq<char>)
    ensures
        keep_id(gs, id) == gs.filter(has_id(id)),
        forall|i: int| 0 <= i < keep_id(gs, id).len() ==> (#[trigger] keep_id(gs, id)[i]).0 == id,
    decreases gs.len(),
{
    reveal(Seq::filter);
    if gs.len() > 0 {
        law_request_filter_keeps_that_id(gs.drop_last(), id);
        let sub = gs.drop_last().filter(has_id(id));
        assert(gs.filter(has_id(id)) == (if has_id(id)(gs.last()) {
            sub.push(gs.last())
        } else {
            sub
        }));
        if gs.last().0 == id {
            assert(keep_id(gs, id) =~= sub.push(gs.last()));
        } else {
            assert(keep_id(gs, id) =~= sub);
        }
    }
}

/// `out` is what a run over `lines` gives, with the events `evs` parsed
/// from them, their classification `cs` and the traces `ts` built from the
/// groups asked for:
/// - nothing when no line holds an event;
/// - the raw lines when no event is an entry, an exit or an error;
/// - an error when the events are to be grouped by time with a threshold
///   of 2^63 milliseconds;
/// - else the rendering of the traces selected, or nothing when none is.
pub open spec fn run_shows(
    lines: Seq<String>,
    o: PipelineOptions,
    r: TreeRenderer,
    out: Result<Option<String>, RunError>,
    evs: Seq<LogEvent>,
    cs: Seq<ClassifiedEvent>,
    ts: Seq<Trace>,
) -> bool {
    &&& parsed_lines(lines, evs)
    &&& classified_all(cs, evs)
    &&& if evs.len() == 0 {
        out == Ok::<Option<String>, RunError>(None)
    } else if !has_structured(cs) {
        out matches Ok(Some(t)) && t@ == raw_text(cs)
    } else if o.time_threshold_ms == 0x8000_0000_0000_0000 && strategy_for(cs)
        == GroupStrategy::Time {
        out == Err::<Option<String>, RunError>(RunError::TimeThresholdOutOfRange)
    } else {
        let sel = selected(ts, o.errors_only, o.last);
        &&& traces_for(ts, requested(grouping(cs, o.time_threshold_ms), o.request_id))
        &&& if sel.len() == 0 {
            out == Ok::<Option<String>, RunError>(None)
        } else {
            out matches Ok(Some(t)) && t@ == traces_text(r, sel)
        }
    }
}

fn parse_lines(lines: &[String]) -> (evs: Vec<LogEvent>)
    ensures
        parsed_lines(lines@, evs@),
{
    let parser = PlainTextParser::new();
    let mut events: Vec<LogEvent> = Vec::new();
    let n = lines.len();
    let mut i: usize = 0;
    assert(lines@.take(0) =~= Seq::<String>::empty());
    while i < n
        invariant
            n == lines@.len(),
            0 <= i <= n,
            parsed_lines(lines@.take(i as int), events@),
        decreases n - i,
    {
        assert(lines@.take(i + 1).drop_last() =~= lines@.take(i as int));
        let ghost before = events@;
        match parser.parse_line(lines[i].as_str(), i + 1) {
            Some(e) => {
                events.push(e);
                assert(events@.drop_last() =~= before);
            },
            None => {},
        }
        i = i + 1;
    }
    assert(lines@.take(n as int) =~= lines@);
    events
}

fn any_structured(cs: &Vec<ClassifiedEvent>) -> (r: bool)
    ensures
        r == has_structured(cs@),
{
    let mut i: usize = 0;
    while i < cs.len()
        invariant
            0 <= i <= cs@.len(),
            forall|j: int| 0 <= j < i ==> (#[trigger] cs@[j]).kind == EventKind::Log,
        decreases cs@.len() - i,
    {
        if cs[i].kind != EventKind::Log {
            return true;
        }
        i = i + 1;
    }
    false
}

fn raw_lines(cs: &Vec<ClassifiedEvent>) -> (t: String)
    ensures
        t@ == raw_text(cs@),
{
    let mut t = String::new();
    let mut i: usize = 0;
    assert(cs@.take(0) =~= Seq::<ClassifiedEvent>::empty());
    while i < cs.len()
        invariant
            0 <= i <= cs@.len(),
            t@ == raw_text(cs@.take(i as int)),
        decreases cs@.len() - i,
    {
        assert(cs@.take(i + 1).drop_last() =~= cs@.take(i as int));
        push_str(&mut t, cs[i].event.raw_line.as_str());
        push_str(&mut t, "\n");
        i = i + 1;
        assert(t@ =~= raw_text(cs@.take(i as int)));
    }
    assert(cs@.take(cs@.len() as int) =~= cs@);
    t
}

fn keep_request(groups: Vec<RequestGroup>, id: &String) -> (r: Vec<RequestGroup>)
    ensures
        groups_view(r@) == keep_id(groups_view(groups@), id@),
{
    let ghost gs = groups@;
    let mut kept: Vec<RequestGroup> = Vec::new();
    proof {
        assert(groups_view(gs.take(0)) =~= Seq::<(Seq<char>, Seq<ClassifiedEvent>)>::empty());
        assert(groups_view(kept@) =~= Seq::<(Seq<char>, Seq<ClassifiedEvent>)>::empty());
    }
    for g in it: groups
        invariant
            it.seq() == gs,
            groups_view(kept@) == keep_id(groups_view(gs.take(it.index() as int)), id@),
    {
        proof {
            assert(groups_view(gs.take(it.index() + 1)).drop_last() =~= groups_view(
                gs.take(it.index() as int),
            ));
            assert(groups_view(gs.take(it.index() + 1)).last() == (g.id@, g.events@));
        }
        let ghost before = kept@;
        if g.id == *id {
            kept.push(g);
            proof {
                assert(groups_view(kept@) =~= groups_view(before) + seq![
                    groups_view(kept@).last(),
                ]);
            }
        } else {
            proof {
                assert(groups_view(kept@) =~= groups_view(before) + Seq::<
                    (Seq<char>, Seq<ClassifiedEvent>),
                >::empty());
            }
        }
    }
    proof {
        assert(gs.take(gs.len() as int) =~= gs);
    }
    kept
}

fn failed_traces(traces: Vec<Trace>) -> (r: Vec<Trace>)
    ensures
        r@ == keep_failed(traces@),
{
    let ghost ts = traces@;
    let mut kept: Vec<Trace> = Vec::new();
    proof {
        assert(ts.take(0) =~= Seq::<Trace>::empty());
    }
    for t in it: traces
        invariant
            it.seq() == ts,
            kept@ == keep_failed(ts.take(it.index() as int)),
    {
        proof {
            assert(ts.take(it.index() + 1).drop_last() =~= ts.take(it.index() as int));
        }
        let ghost before = kept@;
        if t.has_error {
            kept.push(t);
            assert(kept@ =~= before + seq![t]);
        } else {
            assert(kept@ =~= before + Seq::<Trace>::empty());
        }
    }
    proof {
        assert(ts.take(ts.len() as int) =~= ts);
    }
    kept
}

fn last_traces(traces: Vec<Trace>, n: usize) -> (r: Vec<Trace>)
    requires
        traces@.len() > n,
    ensures
        r@ == traces@.skip(traces@.len() - n),
{
    let ghost ts = traces@;
    let total = traces.len();
    let skip = total - n;
    let mut kept: Vec<Trace> = Vec::new();
    let mut k: usize = 0;
    for t in it: traces
        invariant
            it.seq() == ts,
            total == ts.len(),
            skip == total - n,
            k == it.index(),
            kept@ == (if it.index() <= skip {
                Seq::<Trace>::empty()
            } else {
                ts.subrange(skip as int, it.index() as int)
            }),
    {
        if k >= skip {
            kept.push(t);
            assert(kept@ =~= ts.subrange(skip as int, it.index() + 1));
        }
        k = k + 1;
    }
    assert(kept@ =~= ts.skip(ts.len() - n));
    kept
}

/// Run the whole pipeline on `lines` and give what is to be shown: the
/// rendered traces, the raw lines when no event describes a flow, or
/// nothing when there is nothing to show.
pub fn process_lines(lines: &[String], options: &PipelineOptions, renderer: &TreeRenderer) -> (out: Result<Option<String>, RunError>)
    ensures
        exists|evs: Seq<LogEvent>, cs: Seq<ClassifiedEvent>, ts: Seq<Trace>|
            #[trigger] run_shows(lines@, *options, *renderer, out, evs, cs, ts),
{
    let events = parse_lines(lines);
    let ghost evs = events@;
    if events.len() == 0 {
        let out = Ok(None);
        assert(run_shows(lines@, *options, *renderer, out, evs, Seq::empty(), Seq::empty()));
        return out;
    }
    let classified = classify_all(events);
    let ghost cs = classified@;
    if !any_structured(&classified) {
        let text = raw_lines(&classified);
        let out = Ok(Some(text));
        assert(run_shows(lines@, *options, *renderer, out, evs, cs, Seq::empty()));
        return out;
    }
    if options.time_threshold_ms == 0x8000_0000_0000_0000 && detect_strategy(
        classified.as_slice(),
    ) == GroupStrategy::Time {
        let out = Err(RunError::TimeThresholdOutOfRange);
        assert(run_shows(lines@, *options, *renderer, out, evs, cs, Seq::empty()));
        return out;
    }
    let config = GroupConfig { time_threshold_ms: options.time_threshold_ms };
    let groups = group_events(classified, &config);
    let groups = match &options.request_id {
        Some(id) => keep_request(groups, id),
        None => groups,
    };
    let traces = build_traces(groups);
    let ghost ts = traces@;
    let traces = if options.errors_only {
        failed_traces(traces)
    } else {
        traces
    };
    let traces = match options.last {
        Some(n) => if traces.len() > n {
            last_traces(traces, n)
        } else {
            traces
        },
        None => traces,
    };
    assert(traces@ == selected(ts, options.errors_only, options.last));
    if traces.len() == 0 {
        let out = Ok(None);
        assert(run_shows(lines@, *options, *renderer, out, evs, cs, ts));
        return out;
    }
    let mut text = String::new();
    render_all(traces.as_slice(), renderer, &mut text);
    assert(text@ =~= traces_text(*renderer, traces@));
    let out = Ok(Some(text));
    assert(run_shows(lines@, *options, *renderer, out, evs, cs, ts));
    out
}

/// The ids of groups `gs`, in order.
pub open spec fn group_ids(gs: Seq<(Seq<char>, Seq<ClassifiedEvent>)>) -> Seq<Seq<char>> {
    gs.map_values(|g: (Seq<char>, Seq<ClassifiedEvent>)| g.0)
}

/// `ids` are the ids of the groups that a run over `lines` builds, with the
/// events `evs` parsed from them and their classification `cs`: none when
/// no event is an entry, an exit or an error, or when the run stops on its
/// time threshold.
pub open spec fn ids_of_run(
    lines: Seq<String>,
    time_threshold_ms: u64,
    ids: Seq<String>,
    evs: Seq<LogEvent>,
    cs: Seq<ClassifiedEvent>,
) -> bool {
    &&& parsed_lines(lines, evs)
    &&& classified_all(cs, evs)
    &&& if evs.len() == 0 || !has_structured(cs) || (time_threshold_ms == 0x8000_0000_0000_0000
        && strategy_for(cs) == GroupStrategy::Time) {
        ids.len() == 0
    } else {
        ids.map_values(|i: String| i@) == group_ids(grouping(cs, time_threshold_ms))
    }
}

fn ids_of_groups(groups: &Vec<RequestGroup>) -> (ids: Vec<String>)
    ensures
        ids@.map_values(|i: String| i@) == group_ids(groups_view(groups@)),
{
    let mut ids: Vec<String> = Vec::new();
    let mut i: usize = 0;
    while i < groups.len()
        invariant
            0 <= i <= groups@.len(),
            ids@.len() == i,
            forall|j: int| 0 <= j < i ==> (#[trigger] ids@[j])@ == groups@[j].id@,
        decreases groups@.len() - i,
    {
        ids.push(groups[i].id.clone());
        i = i + 1;
    }
    assert(ids@.map_values(|i: String| i@) =~= group_ids(groups_view(groups@)));
    ids
}

/// The ids of the groups that a run over `lines` builds, in order: what a
/// request id can be chosen from.
pub fn request_ids(lines: &[String], time_threshold_ms: u64) -> (ids: Vec<String>)
    ensures
        exists|evs: Seq<LogEvent>, cs: Seq<ClassifiedEvent>|
            #[trigger] ids_of_run(lines@, time_threshold_ms, ids@, evs, cs),
{
    let events = parse_lines(lines);
    let ghost evs = events@;
    let classified = classify_all(events);
    let ghost cs = classified@;
    if classified.len() == 0 || !any_structured(&classified) || (time_threshold_ms
        == 0x8000_0000_0000_0000 && detect_strategy(classified.as_slice()) == GroupStrategy::Time) {
        let ids: Vec<String> = Vec::new();
        assert(ids_of_run(lines@, time_threshold_ms, ids@, evs, cs));
        return ids;
    }
    let config = GroupConfig { time_threshold_ms };
    let groups = group_events(classified, &config);
    let ids = ids_of_groups(&groups);
    assert(ids_of_run(lines@, time_threshold_ms, ids@, evs, cs));
    ids
}

} // verus!
