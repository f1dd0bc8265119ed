//! Grouping by time: consecutive events stay together until a gap in time,
//! or the start of what looks like a new flow, begins a new group.
use vstd::prelude::*;

use super::{groups_view, RequestGroup};
use crate::model::event::{ClassifiedEvent, EventKind};
use crate::text::{contains_lower, contains_lower_exec, decimal, push_decimal, string_of, to_chars};

verus! {

/// The signed number of milliseconds a threshold of `ms` milliseconds stands
/// for once read as an `i64` (values of 2^63 and more wrap round).
pub open spec fn threshold_of(ms: u64) -> int {
    if ms < 0x8000_0000_0000_0000 {
        ms as int
    } else {
        ms as int - 0x1_0000_0000_0000_0000
    }
}

/// Both timestamps are known and `curr` is more than `t` milliseconds after
/// `last`.
pub open spec fn gap_over(curr: Option<i64>, last: Option<i64>, t: int) -> bool {
    match (curr, last) {
        (Some(c), Some(l)) => c - l > t,
        _ => false,
    }
}

/// `g` holds an entry event.
pub open spec fn has_entry(g: Seq<ClassifiedEvent>) -> bool {
    exists|i: int| 0 <= i < g.len() && (#[trigger] g[i]).kind == EventKind::Entry
}

/// A function name that marks the start of a request: it mentions a
/// controller, handler or endpoint, in any case.
pub open spec fn names_flow(name: Seq<char>) -> bool {
    contains_lower(name, "controller"@) || contains_lower(name, "handler"@) || contains_lower(
        name,
        "endpoint"@,
    )
}

/// `e` looks like the start of a new flow after group `g`: the group ended
/// with an exit, or `e` comes strictly later than the group's last event and
/// names a controller, handler or endpoint.
pub open spec fn likely_new_flow(e: ClassifiedEvent, g: Seq<ClassifiedEvent>) -> bool {
    g.len() > 0 && (g.last().kind == EventKind::Exit || (gap_over(
        e.event.timestamp,
        g.last().event.timestamp,
        0,
    ) && match e.function_name {
        Some(n) => names_flow(n@),
        None => false,
    }))
}

/// `e` starts a new group after group `g`, the last timestamp seen being
/// `last`: the gap since `last` is over the threshold `t`, or `e` is an
/// entry after a group that holds an entry and `e` looks like a new flow.
pub open spec fn starts_group(e: ClassifiedEvent, last: Option<i64>, t: int, g: Seq<ClassifiedEvent>) -> bool {
    gap_over(e.event.timestamp, last, t) || (e.kind == EventKind::Entry && g.len() > 0 && has_entry(
        g,
    ) && likely_new_flow(e, g))
}

/// The groups that events `s` fall into with threshold `t`, and the last
/// timestamp seen: each event joins the last group, or starts a new one when
/// `starts_group` says so and the last group is not empty.
pub open spec fn time_split(s: Seq<ClassifiedEvent>, t: int) -> (Seq<Seq<ClassifiedEvent>>, Option<i64>)
    decreases s.len(),
{
    if s.len() == 0 {
        (seq![Seq::empty()], None)
    } else {
        let (gs, last) = time_split(s.drop_last(), t);
        let e = s.last();
        let gs2 = if starts_group(e, last, t, gs.last()) && gs.last().len() > 0 {
            gs.push(seq![e])
        } else {
            gs.update(gs.len() - 1, gs.last().push(e))
        };
        let last2 = if e.event.timestamp is Some {
            e.event.timestamp
        } else {
            last
        };
        (gs2, last2)
    }
}

/// The id of the group at `i`: `auto-` and its number counted from one.
pub open spec fn auto_id(i: int) -> Seq<char> {
    "auto-"@ + decimal((i + 1) as nat)
}

/// The groups of `s` by time with threshold `t`, each named by `auto_id`.
pub open spec fn time_groups(s: Seq<ClassifiedEvent>, t: int) -> Seq<(Seq<char>, Seq<ClassifiedEvent>)> {
    if s.len() == 0 {
        Seq::empty()
    } else {
        let gs = time_split(s, t).0;
        Seq::new(gs.len(), |i: int| (auto_id(i), gs[i]))
    }
}

/// `time_split` has at least one group; when `s` is not empty every group
/// is, and there are at most as many groups as events.
pub proof fn lemma_time_split_shape(s: Seq<ClassifiedEvent>, t: int)
    ensures
        time_split(s, t).0.len() >= 1,
        s.len() > 0 ==> forall|i: int|
            0 <= i < time_split(s, t).0.len() ==> #[trigger] time_split(s, t).0[i].len() > 0,
        s.len() > 0 ==> time_split(s, t).0.len() <= s.len(),
        s.len() == 0 ==> time_split(s, t).0.len() == 1 && time_split(s, t).0[0].len() == 0,
    decreases s.len(),
{
    if s.len() > 0 {
        lemma_time_split_shape(s.drop_last(), t);
        let (gs, last) = time_split(s.drop_last(), t);
        let gs2 = time_split(s, t).0;
        assert forall|i: int| 0 <= i < gs2.len() implies #[trigger] gs2[i].len() > 0 by {
            if i < gs.len() - 1 {
                assert(gs2[i] == gs[i]);
            }
        }
    }
}

fn any_entry(g: &Vec<ClassifiedEvent>) -> (r: bool)
    ensures
        r == has_entry(g@),
{
    let mut i: usize = 0;
    while i < g.len()
        invariant
            0 <= i <= g@.len(),
            forall|j: int| 0 <= j < i ==> (#[trigger] g@[j]).kind != EventKind::Entry,
        decreases g@.len() - i,
    {
        if g[i].kind == EventKind::Entry {
            return true;
        }
        i = i + 1;
    }
    false
}

fn gap_over_exec(curr: Option<i64>, last: Option<i64>, t: i128) -> (r: bool)
    ensures
        r == gap_over(curr, last, t as int),
{
    match (curr, last) {
        (Some(c), Some(l)) => (c as i128) - (l as i128) > t,
        _ => false,
    }
}

fn mentions(name: &[char], kw: &str) -> (r: bool)
    ensures
        r == contains_lower(name@, kw@),
{
    let k = to_chars(kw);
    contains_lower_exec(name, k.as_slice())
}

fn likely_new_flow_exec(e: &ClassifiedEvent, g: &Vec<ClassifiedEvent>) -> (r: bool)
    ensures
        r == likely_new_flow(*e, g@),
{
    if g.len() == 0 {
        return false;
    }
    let last = &g[g.len() - 1];
    if last.kind == EventKind::Exit {
        return true;
    }
    if gap_over_exec(e.event.timestamp, last.event.timestamp, 0) {
        match &e.function_name {
            Some(n) => {
                let cs = to_chars(n.as_str());
                mentions(cs.as_slice(), "controller") || mentions(cs.as_slice(), "handler")
                    || mentions(cs.as_slice(), "endpoint")
            },
            None => false,
        }
    } else {
        false
    }
}

fn starts_group_exec(e: &ClassifiedEvent, last: Option<i64>, t: i128, g: &Vec<ClassifiedEvent>) -> (r: bool)
    ensures
        r == starts_group(*e, last, t as int, g@),
{
    if gap_over_exec(e.event.timestamp, last, t) {
        return true;
    }
    e.kind == EventKind::Entry && g.len() > 0 && any_entry(g) && likely_new_flow_exec(e, g)
}

fn auto_name(i: usize) -> (r: String)
    requires
        i < usize::MAX,
    ensures
        r@ == auto_id(i as int),
{
    let mut s = string_of("auto-");
    push_decimal(&mut s, (i + 1) as u64);
    s
}

/// Group events that have no identifier by time proximity and flow
/// heuristics. A new group starts when the time since the last timestamp
/// seen exceeds `threshold_ms`, or when an entry that looks like the start of
/// a new flow follows a group that already holds an entry. Groups are named
/// `auto-1`, `auto-2`, ...
pub fn group_by_time(events: Vec<ClassifiedEvent>, threshold_ms: u64) -> (r: Vec<RequestGroup>)
    requires
        events@.len() > 0 ==> threshold_ms != 0x8000_0000_0000_0000,
    ensures
        groups_view(r@) == time_groups(events@, threshold_of(threshold_ms)),
{
    let ghost s = events@;
    let total = events.len();
    if total == 0 {
        assert(groups_view(Seq::<RequestGroup>::empty()) =~= Seq::empty());
        return Vec::new();
    }
    let t: i128 = if threshold_ms < 0x8000_0000_0000_0000 {
        threshold_ms as i128
    } else {
        (threshold_ms as i128) - 0x1_0000_0000_0000_0000
    };
    let ghost ti = threshold_of(threshold_ms);
    assert(t as int == ti);
    let mut groups: Vec<RequestGroup> = Vec::new();
    groups.push(RequestGroup { id: auto_name(0), events: Vec::new() });
    let mut last_ts: Option<i64> = None;
    proof {
        assert(s.take(0) =~= Seq::<ClassifiedEvent>::empty());
        assert(groups_view(groups@) =~= Seq::new(
            time_split(s.take(0), ti).0.len(),
            |i: int| (auto_id(i), time_split(s.take(0), ti).0[i]),
        ));
    }
    for event in it: events
        invariant
            it.seq() == s,
            t as int == ti,
            groups@.len() >= 1,
            groups@.len() <= it.index() + 1,
            s.len() == total,
            groups_view(groups@) == Seq::new(
                time_split(s.take(it.index() as int), ti).0.len(),
                |i: int| (auto_id(i), time_split(s.take(it.index() as int), ti).0[i]),
            ),
            last_ts == time_split(s.take(it.index() as int), ti).1,
    {
        let ghost p = s.take(it.index() as int);
        let ghost p2 = s.take(it.index() + 1);
        let ghost gs = time_split(p, ti).0;
        proof {
            assert(p2.drop_last() =~= p);
            assert(p2.last() == event);
            lemma_time_split_shape(p, ti);
            assert(groups_view(groups@).len() == gs.len());
            assert(groups@.len() == gs.len());
        }
        let n = groups.len();
        proof {
            if p.len() > 0 {
                assert(n <= it.index());
            }
        }
        let ghost before = groups@;
        let mut g = groups.pop().unwrap();
        proof {
            assert(before == groups@.push(g));
            assert(groups_view(before)[n - 1] == (auto_id(n - 1), gs[n - 1]));
            assert(g.events@ == gs.last());
            assert(g.id@ == auto_id(n - 1));
        }
        let split = starts_group_exec(&event, last_ts, t, &g.events) && g.events.len() > 0;
        if event.event.timestamp.is_some() {
            last_ts = event.event.timestamp;
        }
        let ghost old_groups = groups@;
        if split {
            groups.push(g);
            let mut evs: Vec<ClassifiedEvent> = Vec::new();
            evs.push(event);
            groups.push(RequestGroup { id: auto_name(n), events: evs });
            proof {
                let gs2 = time_split(p2, ti).0;
                assert(gs2 == gs.push(seq![event]));
                assert forall|i: int| 0 <= i < gs2.len() implies #[trigger] groups_view(groups@)[i]
                    == (auto_id(i), gs2[i]) by {
                    if i < n - 1 {
                        assert(groups@[i] == old_groups[i]);
                        assert(old_groups[i] == before[i]);
                        assert(groups_view(before)[i] == (auto_id(i), gs[i]));
                    } else if i == n - 1 {
                        assert(groups@[i] == g);
                    } else {
                        assert(groups@[i].events@ =~= seq![event]);
                    }
                }
                assert(groups_view(groups@) =~= Seq::new(
                    gs2.len(),
                    |i: int| (auto_id(i), gs2[i]),
                ));
            }
        } else {
            let ghost gl = g.events@;
            g.events.push(event);
            groups.push(g);
            proof {
                let gs2 = time_split(p2, ti).0;
                assert(gs2 == gs.update(gs.len() - 1, gl.push(event)));
                assert forall|i: int| 0 <= i < gs2.len() implies #[trigger] groups_view(groups@)[i]
                    == (auto_id(i), gs2[i]) by {
                    if i < n - 1 {
                        assert(groups@[i] == old_groups[i]);
                        assert(old_groups[i] == before[i]);
                        assert(groups_view(before)[i] == (auto_id(i), gs[i]));
                    }
                }
                assert(groups_view(groups@) =~= Seq::new(
                    gs2.len(),
                    |i: int| (auto_id(i), gs2[i]),
                ));
            }
        }
    }
    proof {
        assert(s.take(s.len() as int) =~= s);
    }
    groups
}

} // verus!
