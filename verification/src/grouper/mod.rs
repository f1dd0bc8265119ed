//! Grouping of classified events into requests.
pub mod by_id;
pub mod by_time;
pub mod laws;

use vstd::prelude::*;

use crate::model::event::ClassifiedEvent;

use self::by_id::{group_by_id, id_groups, key_of, IdField};
use self::by_time::{group_by_time, threshold_of, time_groups};

verus! {

/// Settings of the grouping.
#[derive(Debug, Clone)]
pub struct GroupConfig {
    /// Largest gap in milliseconds between two timestamps within one
    /// time-based group.
    pub time_threshold_ms: u64,
}

impl Default for GroupConfig {
    fn default() -> (c: Self)
        ensures
            c.time_threshold_ms == 500,
    {
        GroupConfig { time_threshold_ms: 500 }
    }
}

/// A group of classified events belonging to the same logical request.
#[derive(Debug)]
pub struct RequestGroup {
    pub id: String,
    pub events: Vec<ClassifiedEvent>,
}

/// Groups as (id, events) pairs of text and event sequences.
pub open spec fn groups_view(gs: Seq<RequestGroup>) -> Seq<(Seq<char>, Seq<ClassifiedEvent>)> {
    Seq::new(gs.len(), |i: int| (gs[i].id@, gs[i].events@))
}

/// How events are grouped.
#[derive(Debug, Clone, Copy, PartialEq, Eq, Structural)]
pub enum GroupStrategy {
    RequestId,
    TraceId,
    ThreadId,
    Time,
}

/// Number of events of `s` that carry identifier `f`.
pub open spec fn count_keyed(s: Seq<ClassifiedEvent>, f: IdField) -> nat
    decreases s.len(),
{
    if s.len() == 0 {
        0
    } else {
        count_keyed(s.drop_last(), f) + if key_of(s.last(), f) is Some {
            1nat
        } else {
            0nat
        }
    }
}

/// The strategy for `s`: by request id when more than half of the events
/// carry one, else by trace id on the same rule, else by thread id on the
/// same rule, else by time.
pub open spec fn strategy_for(s: Seq<ClassifiedEvent>) -> GroupStrategy {
    let half = s.len() / 2;
    if count_keyed(s, IdField::Request) > half {
        GroupStrategy::RequestId
    } else if count_keyed(s, IdField::Trace) > half {
        GroupStrategy::TraceId
    } else if count_keyed(s, IdField::Thread) > half {
        GroupStrategy::ThreadId
    } else {
        GroupStrategy::Time
    }
}

/// The groups of `s` under the strategy `strategy_for` picks, with time
/// threshold `threshold_ms`.
pub open spec fn grouping(s: Seq<ClassifiedEvent>, threshold_ms: u64) -> Seq<(Seq<char>, Seq<ClassifiedEvent>)> {
    if s.len() == 0 {
        Seq::empty()
    } else {
        match strategy_for(s) {
            GroupStrategy::RequestId => id_groups(s, IdField::Request),
            GroupStrategy::TraceId => id_groups(s, IdField::Trace),
            GroupStrategy::ThreadId => id_groups(s, IdField::Thread),
            GroupStrategy::Time => time_groups(s, threshold_of(threshold_ms)),
        }
    }
}

fn has_key(e: &ClassifiedEvent, f: IdField) -> (r: bool)
    ensures
        r == key_of(*e, f) is Some,
{
    match f {
        IdField::Request => e.event.request_id.is_some(),
        IdField::Trace => e.event.trace_id.is_some(),
        IdField::Thread => e.event.thread_id.is_some(),
    }
}

fn count_with(events: &[ClassifiedEvent], f: IdField) -> (n: usize)
    ensures
        n == count_keyed(events@, f),
{
    let mut n: usize = 0;
    let mut i: usize = 0;
    while i < events.len()
        invariant
            0 <= i <= events@.len(),
            n == count_keyed(events@.take(i as int), f),
            n <= i,
        decreases events@.len() - i,
    {
        assert(events@.take(i + 1).drop_last() =~= events@.take(i as int));
        if has_key(&events[i], f) {
            n = n + 1;
        }
        i = i + 1;
    }
    assert(events@.take(events@.len() as int) =~= events@);
    n
}

/// Pick the grouping strategy: the first identifier, among request, trace
/// and thread id, that more than half of the events carry; time otherwise.
pub fn detect_strategy(events: &[ClassifiedEvent]) -> (g: GroupStrategy)
    ensures
        g == strategy_for(events@),
{
    let half = events.len() / 2;
    if count_with(events, IdField::Request) > half {
        return GroupStrategy::RequestId;
    }
    if count_with(events, IdField::Trace) > half {
        return GroupStrategy::TraceId;
    }
    if count_with(events, IdField::Thread) > half {
        return GroupStrategy::ThreadId;
    }
    GroupStrategy::Time
}

/// Group classified events into request groups using the best available
/// strategy (see `detect_strategy`).
pub fn group_events(events: Vec<ClassifiedEvent>, config: &GroupConfig) -> (r: Vec<RequestGroup>)
    requires
        events@.len() > 0 && strategy_for(events@) == GroupStrategy::Time
            ==> config.time_threshold_ms != 0x8000_0000_0000_0000,
    ensures
        groups_view(r@) == grouping(events@, config.time_threshold_ms),
{
    if events.len() == 0 {
        assert(groups_view(Seq::<RequestGroup>::empty()) =~= Seq::empty());
        return Vec::new();
    }
    let strategy = detect_strategy(events.as_slice());
    match strategy {
        GroupStrategy::RequestId => group_by_id(events, IdField::Request),
        GroupStrategy::TraceId => group_by_id(events, IdField::Trace),
        GroupStrategy::ThreadId => group_by_id(events, IdField::Thread),
        GroupStrategy::Time => group_by_time(events, config.time_threshold_ms),
    }
}

} // verus!
