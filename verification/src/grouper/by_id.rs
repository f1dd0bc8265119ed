//! Grouping by an identifier field: one group per distinct value, in the
//! order values first occur, and a last group for events without one.
use vstd::prelude::*;

use super::{groups_view, RequestGroup};
use crate::classifier::opt_text;
use crate::model::event::ClassifiedEvent;
use crate::text::string_of;

verus! {

/// Which identifier of an event groups it.
#[derive(Debug, Clone, Copy, PartialEq, Eq, Structural)]
pub enum IdField {
    Request,
    Trace,
    Thread,
}

/// The identifier `f` of event `e`, as text.
pub open spec fn key_of(e: ClassifiedEvent, f: IdField) -> Option<Seq<char>> {
    match f {
        IdField::Request => opt_text(e.event.request_id),
        IdField::Trace => opt_text(e.event.trace_id),
        IdField::Thread => opt_text(e.event.thread_id),
    }
}

/// The distinct identifiers of `s`, in the order they first occur.
pub open spec fn first_keys(s: Seq<ClassifiedEvent>, f: IdField) -> Seq<Seq<char>>
    decreases s.len(),
{
    if s.len() == 0 {
        Seq::empty()
    } else {
        let ks = first_keys(s.drop_last(), f);
        match key_of(s.last(), f) {
            Some(k) => if ks.contains(k) {
                ks
            } else {
                ks.push(k)
            },
            None => ks,
        }
    }
}

/// The events of `s` whose identifier is `k`, in their order.
pub open spec fn with_key(s: Seq<ClassifiedEvent>, f: IdField, k: Option<Seq<char>>) -> Seq<
    ClassifiedEvent,
>
    decreases s.len(),
{
    if s.len() == 0 {
        Seq::empty()
    } else {
        let r = with_key(s.drop_last(), f, k);
        if key_of(s.last(), f) == k {
            r.push(s.last())
        } else {
            r
        }
    }
}

/// The groups of `s` by field `f`: one per identifier, in first-occurrence
/// order, each with its events in order; then, when some events have no
/// identifier, the group `orphan` with those.
pub open spec fn id_groups(s: Seq<ClassifiedEvent>, f: IdField) -> Seq<(Seq<char>, Seq<ClassifiedEvent>)> {
    let ks = first_keys(s, f);
    let keyed = Seq::new(ks.len(), |i: int| (ks[i], with_key(s, f, Some(ks[i]))));
    if with_key(s, f, None).len() > 0 {
        keyed.push(("orphan"@, with_key(s, f, None)))
    } else {
        keyed
    }
}

/// The identifiers of `first_keys` are distinct.
pub proof fn lemma_first_keys_distinct(s: Seq<ClassifiedEvent>, f: IdField)
    ensures
        first_keys(s, f).no_duplicates(),
    decreases s.len(),
{
    if s.len() > 0 {
        lemma_first_keys_distinct(s.drop_last(), f);
    }
}

/// An identifier that does not occur among `first_keys` names no event.
pub proof fn lemma_unseen_key(s: Seq<ClassifiedEvent>, f: IdField, k: Seq<char>)
    requires
        !first_keys(s, f).contains(k),
    ensures
        with_key(s, f, Some(k)).len() == 0,
    decreases s.len(),
{
    if s.len() > 0 {
        let ks = first_keys(s.drop_last(), f);
        if ks.contains(k) {
            let i = choose|i: int| 0 <= i < ks.len() && ks[i] == k;
            match key_of(s.last(), f) {
                Some(k2) => if !ks.contains(k2) {
                    assert(ks.push(k2)[i] == k);
                },
                None => {},
            }
        }
        if key_of(s.last(), f) == Some(k) {
            assert(ks.push(k)[ks.len() as int] == k);
        }
        lemma_unseen_key(s.drop_last(), f, k);
    }
}

fn key_text(e: &ClassifiedEvent, f: IdField) -> (r: Option<String>)
    ensures
        opt_text(r) == key_of(*e, f),
{
    let o = match f {
        IdField::Request => &e.event.request_id,
        IdField::Trace => &e.event.trace_id,
        IdField::Thread => &e.event.thread_id,
    };
    match o {
        Some(k) => Some(k.clone()),
        None => None,
    }
}

/// Group events by the identifier `field`, keeping the order in which
/// identifiers first occur; events without one go to a last group `orphan`.
pub fn group_by_id(events: Vec<ClassifiedEvent>, field: IdField) -> (r: Vec<RequestGroup>)
    ensures
        groups_view(r@) == id_groups(events@, field),
{
    let ghost s = events@;
    let mut groups: Vec<RequestGroup> = Vec::new();
    let mut orphans: Vec<ClassifiedEvent> = Vec::new();
    for event in it: events
        invariant
            it.seq() == s,
            groups@.len() == first_keys(s.take(it.index() as int), field).len(),
            forall|j: int|
                0 <= j < groups@.len() ==> (#[trigger] groups@[j]).id@ == first_keys(
                    s.take(it.index() as int),
                    field,
                )[j] && groups@[j].events@ == with_key(
                    s.take(it.index() as int),
                    field,
                    Some(first_keys(s.take(it.index() as int), field)[j]),
                ),
            orphans@ == with_key(s.take(it.index() as int), field, None),
    {
        let ghost p = s.take(it.index() as int);
        let ghost p2 = s.take(it.index() + 1);
        proof {
            assert(p2.drop_last() =~= p);
            assert(p2.last() == event);
            lemma_first_keys_distinct(p, field);
        }
        let ghost ks = first_keys(p, field);
        match key_text(&event, field) {
            Some(k) => {
                let n = groups.len();
                let mut j: usize = 0;
                while j < n && !(groups[j].id == k)
                    invariant
                        n == groups@.len(),
                        0 <= j <= n,
                        forall|t: int| 0 <= t < j ==> groups@[t].id@ != k@,
                    decreases n - j,
                {
                    j = j + 1;
                }
                if j < n {
                    let ghost before = groups@;
                    let mut g = groups.remove(j);
                    g.events.push(event);
                    groups.insert(j, g);
                    proof {
                        assert(ks.contains(k@));
                        assert(first_keys(p2, field) == ks);
                        assert forall|t: int| 0 <= t < groups@.len() implies (#[trigger] groups@[
                            t
                        ]).id@ == first_keys(p2, field)[t] && groups@[t].events@ == with_key(
                            p2,
                            field,
                            Some(first_keys(p2, field)[t]),
                        ) by {
                            if t != j {
                                assert(groups@[t] == before[t]);
                                assert(ks[t] != ks[j as int]);
                            }
                        }
                    }
                } else {
                    proof {
                        assert forall|t: int| 0 <= t < ks.len() implies ks[t] != k@ by {
                            assert(groups@[t].id@ != k@);
                        }
                        lemma_unseen_key(p, field, k@);
                        assert(first_keys(p2, field) == ks.push(k@));
                    }
                    let mut evs: Vec<ClassifiedEvent> = Vec::new();
                    evs.push(event);
                    groups.push(RequestGroup { id: k, events: evs });
                    proof {
                        assert forall|t: int| 0 <= t < groups@.len() implies (#[trigger] groups@[
                            t
                        ]).id@ == first_keys(p2, field)[t] && groups@[t].events@ == with_key(
                            p2,
                            field,
                            Some(first_keys(p2, field)[t]),
                        ) by {
                            if t < n {
                                assert(ks[t] != k@);
                            } else {
                                assert(groups@[t].events@ =~= with_key(p, field, Some(k@)).push(
                                    event,
                                ));
                            }
                        }
                    }
                }
            },
            None => {
                orphans.push(event);
                proof {
                    assert(first_keys(p2, field) == ks);
                    assert forall|t: int| 0 <= t < groups@.len() implies (#[trigger] groups@[
                        t
                    ]).id@ == first_keys(p2, field)[t] && groups@[t].events@ == with_key(
                        p2,
                        field,
                        Some(first_keys(p2, field)[t]),
                    ) by {}
                }
            },
        }
    }
    proof {
        assert(s.take(s.len() as int) =~= s);
    }
    if orphans.len() > 0 {
        groups.push(RequestGroup { id: string_of("orphan"), events: orphans });
    }
    assert(groups_view(groups@) =~= id_groups(s, field));
    groups
}

} // verus!
