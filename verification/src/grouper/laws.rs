//! What holds of every grouping: the groups partition the events, no group
//! is empty, time groups keep the events in order and split exactly where a
//! new group is due, and id groups hold exactly the events of their id.
use vstd::prelude::*;

use super::by_id::{first_keys, id_groups, key_of, lemma_first_keys_distinct, with_key, IdField};
use super::by_time::{
    auto_id, gap_over, lemma_time_split_shape, threshold_of, time_groups, time_split,
};
use super::{count_keyed, grouping, strategy_for, GroupStrategy};
use crate::model::event::{ClassifiedEvent, EventKind};
use crate::order::{
    is_subsequence, lemma_subsequence_empty, lemma_subsequence_extend, lemma_subsequence_push,
};
use vstd::multiset::Multiset;

verus! {

/// The events of groups `gs`, one group after the other.
pub open spec fn joined(gs: Seq<(Seq<char>, Seq<ClassifiedEvent>)>) -> Seq<ClassifiedEvent>
    decreases gs.len(),
{
    if gs.len() == 0 {
        Seq::empty()
    } else {
        joined(gs.drop_last()) + gs.last().1
    }
}

/// The event sequences `gs`, one after the other.
pub open spec fn concat(gs: Seq<Seq<ClassifiedEvent>>) -> Seq<ClassifiedEvent>
    decreases gs.len(),
{
    if gs.len() == 0 {
        Seq::empty()
    } else {
        concat(gs.drop_last()) + gs.last()
    }
}

/// Number of events in groups `gs`.
pub open spec fn total_size(gs: Seq<(Seq<char>, Seq<ClassifiedEvent>)>) -> int
    decreases gs.len(),
{
    if gs.len() == 0 {
        0
    } else {
        total_size(gs.drop_last()) + gs.last().1.len()
    }
}

// ── Time groups ─────────────────────────────────────────────────────────────

proof fn lemma_concat_time_split(s: Seq<ClassifiedEvent>, t: int)
    ensures
        concat(time_split(s, t).0) == s,
    decreases s.len(),
{
    if s.len() == 0 {
        let one = seq![Seq::<ClassifiedEvent>::empty()];
        assert(one.drop_last() =~= Seq::<Seq<ClassifiedEvent>>::empty());
        assert(concat(one) == concat(one.drop_last()) + one.last());
        assert(concat(Seq::<Seq<ClassifiedEvent>>::empty()) == Seq::<ClassifiedEvent>::empty());
        assert(one.last() == Seq::<ClassifiedEvent>::empty());
        assert(concat(one) =~= Seq::<ClassifiedEvent>::empty());
        assert(s =~= Seq::<ClassifiedEvent>::empty());
    } else {
        let p = s.drop_last();
        let e = s.last();
        lemma_concat_time_split(p, t);
        lemma_time_split_shape(p, t);
        let (gs, last) = time_split(p, t);
        let gs2 = time_split(s, t).0;
        if starts_group(e, last, t, gs.last()) && gs.last().len() > 0 {
            assert(gs2.drop_last() =~= gs);
        } else {
            assert(gs2.drop_last() =~= gs.drop_last());
            assert(concat(gs) == concat(gs.drop_last()) + gs.last());
        }
        assert(s =~= p.push(e));
    }
}

use super::by_time::starts_group;

proof fn lemma_joined_is_concat(ps: Seq<(Seq<char>, Seq<ClassifiedEvent>)>, gs: Seq<Seq<ClassifiedEvent>>)
    requires
        ps.len() == gs.len(),
        forall|i: int| 0 <= i < ps.len() ==> (#[trigger] ps[i]).1 == gs[i],
    ensures
        joined(ps) == concat(gs),
    decreases ps.len(),
{
    if ps.len() > 0 {
        lemma_joined_is_concat(ps.drop_last(), gs.drop_last());
    }
}

proof fn lemma_total_is_joined_len(ps: Seq<(Seq<char>, Seq<ClassifiedEvent>)>)
    ensures
        total_size(ps) == joined(ps).len(),
    decreases ps.len(),
{
    if ps.len() > 0 {
        lemma_total_is_joined_len(ps.drop_last());
    }
}

/// Read one after the other, the time groups give back the events in their
/// order.
pub proof fn law_time_groups_keep_order(s: Seq<ClassifiedEvent>, t: int)
    ensures
        joined(time_groups(s, t)) == s,
{
    if s.len() > 0 {
        let gs = time_split(s, t).0;
        lemma_concat_time_split(s, t);
        lemma_joined_is_concat(time_groups(s, t), gs);
    }
}

/// An event without a timestamp that is not an entry joins the current time
/// group.
pub proof fn law_untimed_event_joins_current_group(s: Seq<ClassifiedEvent>, e: ClassifiedEvent, t: int)
    requires
        e.event.timestamp is None,
        e.kind != EventKind::Entry,
    ensures
        time_split(s.push(e), t).0 == time_split(s, t).0.update(
            time_split(s, t).0.len() - 1,
            time_split(s, t).0.last().push(e),
        ),
        time_split(s.push(e), t).1 == time_split(s, t).1,
{
    assert(s.push(e).drop_last() =~= s);
}

/// An event whose timestamp is more than the threshold after the last one
/// seen starts a new time group.
pub proof fn law_gap_starts_new_group(s: Seq<ClassifiedEvent>, e: ClassifiedEvent, t: int)
    requires
        s.len() > 0,
        gap_over(e.event.timestamp, time_split(s, t).1, t),
    ensures
        time_split(s.push(e), t).0 == time_split(s, t).0.push(seq![e]),
{
    assert(s.push(e).drop_last() =~= s);
    lemma_time_split_shape(s, t);
    assert(time_split(s, t).0.last().len() > 0);
}

/// The timestamp of the latest event of `s` that has one.
pub open spec fn last_timestamp(s: Seq<ClassifiedEvent>) -> Option<i64>
    decreases s.len(),
{
    if s.len() == 0 {
        None
    } else if s.last().event.timestamp is Some {
        s.last().event.timestamp
    } else {
        last_timestamp(s.drop_last())
    }
}

/// The index of the time group that event `i` of `s` falls into.
pub open spec fn group_of(s: Seq<ClassifiedEvent>, t: int, i: int) -> int {
    time_split(s.take(i + 1), t).0.len() - 1
}

proof fn lemma_split_last_seen(s: Seq<ClassifiedEvent>, t: int)
    ensures
        time_split(s, t).1 == last_timestamp(s),
    decreases s.len(),
{
    if s.len() > 0 {
        lemma_split_last_seen(s.drop_last(), t);
    }
}

/// The split of a prefix of the events is a prefix of the split of more of
/// them: its groups stay, and only its last one may still grow.
proof fn lemma_split_extends(s: Seq<ClassifiedEvent>, t: int, j: int, k: int)
    requires
        0 <= j <= k <= s.len(),
    ensures
        ({
            let a = time_split(s.take(j), t).0;
            let b = time_split(s.take(k), t).0;
            &&& 1 <= a.len() <= b.len()
            &&& forall|g: int| 0 <= g < a.len() - 1 ==> #[trigger] b[g] == a[g]
            &&& a.last().len() <= b[a.len() - 1].len()
            &&& b[a.len() - 1].subrange(0, a.last().len() as int) == a.last()
        }),
    decreases k - j,
{
    lemma_time_split_shape(s.take(j), t);
    if k > j {
        lemma_split_extends(s, t, j, k - 1);
        let a = time_split(s.take(j), t).0;
        let b0 = time_split(s.take(k - 1), t).0;
        let b = time_split(s.take(k), t).0;
        assert(s.take(k).drop_last() =~= s.take(k - 1));
        lemma_time_split_shape(s.take(k - 1), t);
        let n = a.len() - 1;
        if b.len() == b0.len() {
            assert(b =~= b0.update(b0.len() - 1, b0.last().push(s.take(k).last())));
            assert(b[n].subrange(0, a.last().len() as int) =~= b0[n].subrange(
                0,
                a.last().len() as int,
            ));
        } else {
            assert(b =~= b0.push(seq![s.take(k).last()]));
        }
    } else {
        assert(time_split(s.take(j), t).0.last().subrange(
            0,
            time_split(s.take(j), t).0.last().len() as int,
        ) =~= time_split(s.take(j), t).0.last());
    }
}

/// Time groups over the whole input: event `i` lies in group `group_of(i)`
/// of the split of all the events, and, after the first event, it starts a
/// new group (the next index) exactly when `starts_group` says so against
/// the groups so far; otherwise it stays in the group of the event before.
/// In particular an event more than the threshold after the latest earlier
/// timestamp starts a new group, and one that is not an entry and is not
/// that far after it (or has no timestamp) stays in the current group.
pub proof fn law_time_groups_over_the_whole_input(s: Seq<ClassifiedEvent>, t: int, i: int)
    requires
        0 <= i < s.len(),
    ensures
        0 <= group_of(s, t, i) < time_split(s, t).0.len(),
        time_split(s, t).0[group_of(s, t, i)].contains(s[i]),
        i == 0 ==> group_of(s, t, i) == 0,
        i > 0 ==> {
            let prev = time_split(s.take(i), t).0;
            &&& group_of(s, t, i - 1) == prev.len() - 1
            &&& if starts_group(s[i], last_timestamp(s.take(i)), t, prev.last()) {
                group_of(s, t, i) == group_of(s, t, i - 1) + 1
            } else {
                group_of(s, t, i) == group_of(s, t, i - 1)
            }
        },
        i > 0 && gap_over(s[i].event.timestamp, last_timestamp(s.take(i)), t) ==> group_of(s, t, i)
            == group_of(s, t, i - 1) + 1,
        i > 0 && s[i].kind != EventKind::Entry && !gap_over(
            s[i].event.timestamp,
            last_timestamp(s.take(i)),
            t,
        ) ==> group_of(s, t, i) == group_of(s, t, i - 1),
{
    let p = s.take(i);
    let q = s.take(i + 1);
    assert(q.drop_last() =~= p);
    assert(q.last() == s[i]);
    lemma_time_split_shape(p, t);
    lemma_time_split_shape(q, t);
    lemma_split_last_seen(p, t);
    let a = time_split(q, t).0;
    let pre = time_split(p, t).0;
    if i == 0 {
        assert(p =~= Seq::<ClassifiedEvent>::empty());
    } else {
        assert(s.take(i - 1 + 1) =~= p);
    }
    // the event is the last of the last group of its prefix
    assert(a.last().len() > 0);
    assert(a.last().last() == s[i]);
    lemma_split_extends(s, t, i + 1, s.len() as int);
    assert(s.take(s.len() as int) =~= s);
    let b = time_split(s, t).0;
    let g = a.len() - 1;
    assert(b[g].subrange(0, a.last().len() as int)[a.last().len() - 1] == s[i]);
    assert(b[g][a.last().len() - 1] == s[i]);
}

/// Time groups, all at once: read one after the other they give back the
/// events in their order; none is empty; group `k` is named `auto-(k+1)`;
/// event `i` lies in group `group_of(i)`; and after the first event, an event
/// more than the threshold after the latest earlier timestamp starts the next
/// group, while one that is not an entry and is not that far after it (or
/// has no timestamp) stays in the group of the event before.
pub proof fn law_time_groups(s: Seq<ClassifiedEvent>, t: int)
    requires
        s.len() > 0,
    ensures
        joined(time_groups(s, t)) == s,
        forall|k: int|
            0 <= k < time_groups(s, t).len() ==> (#[trigger] time_groups(s, t)[k]).1.len() > 0
                && time_groups(s, t)[k].0 == auto_id(k),
        forall|i: int|
            0 <= i < s.len() ==> 0 <= #[trigger] group_of(s, t, i) < time_groups(s, t).len()
                && time_groups(s, t)[group_of(s, t, i)].1.contains(s[i]),
        group_of(s, t, 0) == 0,
        forall|i: int|
            0 < i < s.len() && gap_over(s[i].event.timestamp, last_timestamp(s.take(i)), t) ==> #[trigger]
            group_of(s, t, i) == group_of(s, t, i - 1) + 1,
        forall|i: int|
            0 < i < s.len() && s[i].kind != EventKind::Entry && !gap_over(
                s[i].event.timestamp,
                last_timestamp(s.take(i)),
                t,
            ) ==> #[trigger] group_of(s, t, i) == group_of(s, t, i - 1),
{
    law_time_groups_keep_order(s, t);
    lemma_time_split_shape(s, t);
    law_time_groups_over_the_whole_input(s, t, 0);
    assert forall|i: int| 0 <= i < s.len() implies 0 <= #[trigger] group_of(s, t, i)
        < time_groups(s, t).len() && time_groups(s, t)[group_of(s, t, i)].1.contains(s[i]) by {
        law_time_groups_over_the_whole_input(s, t, i);
    }
    assert forall|i: int|
        0 < i < s.len() && gap_over(
            s[i].event.timestamp,
            last_timestamp(s.take(i)),
            t,
        ) implies #[trigger] group_of(s, t, i) == group_of(s, t, i - 1) + 1 by {
        law_time_groups_over_the_whole_input(s, t, i);
    }
    assert forall|i: int|
        0 < i < s.len() && s[i].kind != EventKind::Entry && !gap_over(
            s[i].event.timestamp,
            last_timestamp(s.take(i)),
            t,
        ) implies #[trigger] group_of(s, t, i) == group_of(s, t, i - 1) by {
        law_time_groups_over_the_whole_input(s, t, i);
    }
}

/// Grouping by an identifier, all at once: with `K` the distinct
/// identifiers in order of first appearance, group `i < K.len()` is named
/// `K[i]` and holds exactly the events with that identifier, in input order;
/// the events without an identifier, if any, form one more, last group
/// named `orphan`; there is no other group.
pub proof fn law_id_groups(s: Seq<ClassifiedEvent>, f: IdField)
    ensures
        ({
            let ks = first_keys(s, f);
            let gs = id_groups(s, f);
            &&& ks.no_duplicates()
            &&& gs.len() == ks.len() + if with_key(s, f, None).len() > 0 {
                1int
            } else {
                0int
            }
            &&& forall|i: int|
                0 <= i < ks.len() ==> (#[trigger] gs[i]).0 == ks[i] && gs[i].1 == with_key(
                    s,
                    f,
                    Some(ks[i]),
                ) && gs[i].1.len() > 0
            &&& with_key(s, f, None).len() > 0 ==> gs[ks.len() as int] == (
                "orphan"@,
                with_key(s, f, None),
            )
            &&& forall|j: int|
                0 <= j < s.len() && (#[trigger] key_of(s[j], f)) is Some ==> ks.contains(
                    key_of(s[j], f)->0,
                )
        }),
{
    lemma_first_keys_distinct(s, f);
    lemma_keys_listed(s, f);
    lemma_id_groups_nonempty(s, f);
}

/// Which identifier the events are grouped by: the request id when more
/// than half of the events carry one; otherwise the trace id when more than
/// half carry one, whatever the thread ids; otherwise the thread id on the
/// same rule; otherwise time.
pub proof fn law_grouping_key_precedence(s: Seq<ClassifiedEvent>, threshold_ms: u64)
    requires
        s.len() > 0,
    ensures
        count_keyed(s, IdField::Request) > s.len() / 2 ==> grouping(s, threshold_ms) == id_groups(
            s,
            IdField::Request,
        ),
        count_keyed(s, IdField::Request) <= s.len() / 2 && count_keyed(s, IdField::Trace) > s.len()
            / 2 ==> grouping(s, threshold_ms) == id_groups(s, IdField::Trace),
        count_keyed(s, IdField::Request) <= s.len() / 2 && count_keyed(s, IdField::Trace) <= s.len()
            / 2 && count_keyed(s, IdField::Thread) > s.len() / 2 ==> grouping(s, threshold_ms)
            == id_groups(s, IdField::Thread),
        count_keyed(s, IdField::Request) <= s.len() / 2 && count_keyed(s, IdField::Trace) <= s.len()
            / 2 && count_keyed(s, IdField::Thread) <= s.len() / 2 ==> grouping(s, threshold_ms)
            == time_groups(s, threshold_of(threshold_ms)),
{
}

// ── Id groups ───────────────────────────────────────────────────────────────

/// Number of events of `s` whose identifier is one of `ks`.
pub open spec fn keyed_total(s: Seq<ClassifiedEvent>, f: IdField, ks: Seq<Seq<char>>) -> int
    decreases ks.len(),
{
    if ks.len() == 0 {
        0
    } else {
        keyed_total(s, f, ks.drop_last()) + with_key(s, f, Some(ks.last())).len()
    }
}

/// How many entries of `ks` equal `k`.
pub open spec fn hits(ks: Seq<Seq<char>>, k: Option<Seq<char>>) -> int
    decreases ks.len(),
{
    if ks.len() == 0 {
        0
    } else {
        hits(ks.drop_last(), k) + if k == Some(ks.last()) {
            1int
        } else {
            0int
        }
    }
}

proof fn lemma_with_key_step(p: Seq<ClassifiedEvent>, e: ClassifiedEvent, f: IdField, k: Option<Seq<char>>)
    ensures
        with_key(p.push(e), f, k).len() == with_key(p, f, k).len() + if key_of(e, f) == k {
            1int
        } else {
            0int
        },
{
    assert(p.push(e).drop_last() =~= p);
}

proof fn lemma_keyed_total_step(p: Seq<ClassifiedEvent>, e: ClassifiedEvent, f: IdField, ks: Seq<Seq<char>>)
    ensures
        keyed_total(p.push(e), f, ks) == keyed_total(p, f, ks) + hits(ks, key_of(e, f)),
    decreases ks.len(),
{
    if ks.len() > 0 {
        lemma_keyed_total_step(p, e, f, ks.drop_last());
        lemma_with_key_step(p, e, f, Some(ks.last()));
    }
}

proof fn lemma_hits_unique(ks: Seq<Seq<char>>, k: Seq<char>)
    requires
        ks.no_duplicates(),
    ensures
        hits(ks, Some(k)) == if ks.contains(k) {
            1int
        } else {
            0int
        },
    decreases ks.len(),
{
    if ks.len() > 0 {
        let d = ks.drop_last();
        assert(d.no_duplicates());
        lemma_hits_unique(d, k);
        if ks.last() == k {
            if d.contains(k) {
                let i = choose|i: int| 0 <= i < d.len() && d[i] == k;
                assert(ks[i] == ks[ks.len() - 1]);
            }
        }
        if d.contains(k) {
            let i = choose|i: int| 0 <= i < d.len() && d[i] == k;
            assert(ks[i] == k);
        }
        if ks.contains(k) && ks.last() != k {
            let i = choose|i: int| 0 <= i < ks.len() && ks[i] == k;
            assert(d[i] == k);
        }
    }
}

proof fn lemma_hits_none(ks: Seq<Seq<char>>)
    ensures
        hits(ks, None) == 0,
    decreases ks.len(),
{
    if ks.len() > 0 {
        lemma_hits_none(ks.drop_last());
    }
}

/// Every identifier of `s` is among `first_keys(s)`.
proof fn lemma_keys_listed(s: Seq<ClassifiedEvent>, f: IdField)
    ensures
        forall|j: int|
            0 <= j < s.len() && (#[trigger] key_of(s[j], f)) is Some ==> first_keys(s, f).contains(
                key_of(s[j], f)->0,
            ),
    decreases s.len(),
{
    if s.len() > 0 {
        let p = s.drop_last();
        lemma_keys_listed(p, f);
        let ks = first_keys(p, f);
        assert forall|j: int|
            0 <= j < s.len() && (#[trigger] key_of(s[j], f)) is Some implies first_keys(
            s,
            f,
        ).contains(key_of(s[j], f)->0) by {
            let k = key_of(s[j], f)->0;
            if j < s.len() - 1 {
                assert(key_of(p[j], f) == key_of(s[j], f));
                let i = choose|i: int| 0 <= i < ks.len() && ks[i] == k;
                match key_of(s.last(), f) {
                    Some(k2) => if !ks.contains(k2) {
                        assert(ks.push(k2)[i] == k);
                    },
                    None => {},
                }
            } else {
                if !ks.contains(k) {
                    assert(ks.push(k)[ks.len() as int] == k);
                }
            }
        }
    }
}

proof fn lemma_keyed_all(s: Seq<ClassifiedEvent>, f: IdField, ks: Seq<Seq<char>>)
    requires
        ks.no_duplicates(),
        forall|j: int|
            0 <= j < s.len() && (#[trigger] key_of(s[j], f)) is Some ==> ks.contains(
                key_of(s[j], f)->0,
            ),
    ensures
        keyed_total(s, f, ks) + with_key(s, f, None).len() == s.len(),
    decreases s.len(),
{
    if s.len() == 0 {
        lemma_keyed_empty(s, f, ks);
    } else {
        let p = s.drop_last();
        let e = s.last();
        assert forall|j: int|
            0 <= j < p.len() && (#[trigger] key_of(p[j], f)) is Some implies ks.contains(
            key_of(p[j], f)->0,
        ) by {
            assert(key_of(s[j], f) == key_of(p[j], f));
        }
        lemma_keyed_all(p, f, ks);
        assert(s =~= p.push(e));
        lemma_keyed_total_step(p, e, f, ks);
        lemma_with_key_step(p, e, f, None);
        match key_of(e, f) {
            Some(k) => {
                assert(key_of(s[s.len() - 1], f) is Some);
                lemma_hits_unique(ks, k);
            },
            None => {
                lemma_hits_none(ks);
            },
        }
    }
}

proof fn lemma_keyed_empty(s: Seq<ClassifiedEvent>, f: IdField, ks: Seq<Seq<char>>)
    requires
        s.len() == 0,
    ensures
        keyed_total(s, f, ks) == 0,
        with_key(s, f, None).len() == 0,
    decreases ks.len(),
{
    if ks.len() > 0 {
        lemma_keyed_empty(s, f, ks.drop_last());
    }
}

proof fn lemma_total_keyed(ps: Seq<(Seq<char>, Seq<ClassifiedEvent>)>, s: Seq<ClassifiedEvent>, f: IdField, ks: Seq<Seq<char>>)
    requires
        ps.len() == ks.len(),
        forall|i: int| 0 <= i < ps.len() ==> (#[trigger] ps[i]).1 == with_key(s, f, Some(ks[i])),
    ensures
        total_size(ps) == keyed_total(s, f, ks),
    decreases ps.len(),
{
    if ps.len() > 0 {
        lemma_total_keyed(ps.drop_last(), s, f, ks.drop_last());
    }
}

proof fn lemma_total_id_groups(s: Seq<ClassifiedEvent>, f: IdField)
    ensures
        total_size(id_groups(s, f)) == s.len(),
{
    let ks = first_keys(s, f);
    let keyed = Seq::new(ks.len(), |i: int| (ks[i], with_key(s, f, Some(ks[i]))));
    lemma_first_keys_distinct(s, f);
    lemma_keys_listed(s, f);
    lemma_keyed_all(s, f, ks);
    lemma_total_keyed(keyed, s, f, ks);
    if with_key(s, f, None).len() > 0 {
        assert(keyed.push(("orphan"@, with_key(s, f, None))).drop_last() =~= keyed);
    }
}

/// An identifier among `first_keys(s)` names at least one event.
proof fn lemma_listed_key_nonempty(s: Seq<ClassifiedEvent>, f: IdField, k: Seq<char>)
    requires
        first_keys(s, f).contains(k),
    ensures
        with_key(s, f, Some(k)).len() > 0,
    decreases s.len(),
{
    let p = s.drop_last();
    let ks = first_keys(p, f);
    if ks.contains(k) {
        lemma_listed_key_nonempty(p, f, k);
    } else {
        let i = choose|i: int| 0 <= i < first_keys(s, f).len() && first_keys(s, f)[i] == k;
        match key_of(s.last(), f) {
            Some(k2) => if ks.contains(k2) {
            } else {
                if i < ks.len() {
                    assert(ks[i] == k);
                }
            },
            None => {},
        }
    }
}

/// Every event of `with_key(s, f, k)` has identifier `k`.
proof fn lemma_with_key_members(s: Seq<ClassifiedEvent>, f: IdField, k: Option<Seq<char>>)
    ensures
        forall|j: int|
            0 <= j < with_key(s, f, k).len() ==> key_of(#[trigger] with_key(s, f, k)[j], f) == k,
    decreases s.len(),
{
    if s.len() > 0 {
        lemma_with_key_members(s.drop_last(), f, k);
    }
}

// ── Every grouping ──────────────────────────────────────────────────────────

/// Grouping loses no event and counts none twice: the group sizes add up to
/// the number of events.
pub proof fn law_grouping_keeps_every_event(s: Seq<ClassifiedEvent>, threshold_ms: u64)
    ensures
        total_size(grouping(s, threshold_ms)) == s.len(),
{
    if s.len() > 0 {
        match strategy_for(s) {
            GroupStrategy::RequestId => lemma_total_id_groups(s, IdField::Request),
            GroupStrategy::TraceId => lemma_total_id_groups(s, IdField::Trace),
            GroupStrategy::ThreadId => lemma_total_id_groups(s, IdField::Thread),
            GroupStrategy::Time => {
                let t = threshold_of(threshold_ms);
                law_time_groups_keep_order(s, t);
                lemma_total_is_joined_len(time_groups(s, t));
            },
        }
    }
}

proof fn lemma_id_groups_nonempty(s: Seq<ClassifiedEvent>, f: IdField)
    ensures
        forall|i: int| 0 <= i < id_groups(s, f).len() ==> (#[trigger] id_groups(s, f)[i]).1.len() > 0,
{
    let ks = first_keys(s, f);
    assert forall|i: int| 0 <= i < id_groups(s, f).len() implies (#[trigger] id_groups(
        s,
        f,
    )[i]).1.len() > 0 by {
        if i < ks.len() {
            assert(ks.contains(ks[i]));
            lemma_listed_key_nonempty(s, f, ks[i]);
        }
    }
}

/// No group is empty.
pub proof fn law_groups_are_nonempty(s: Seq<ClassifiedEvent>, threshold_ms: u64)
    ensures
        forall|i: int|
            0 <= i < grouping(s, threshold_ms).len() ==> (#[trigger] grouping(s, threshold_ms)[
                i
            ]).1.len() > 0,
{
    if s.len() > 0 {
        match strategy_for(s) {
            GroupStrategy::RequestId => lemma_id_groups_nonempty(s, IdField::Request),
            GroupStrategy::TraceId => lemma_id_groups_nonempty(s, IdField::Trace),
            GroupStrategy::ThreadId => lemma_id_groups_nonempty(s, IdField::Thread),
            GroupStrategy::Time => {
                lemma_time_split_shape(s, threshold_of(threshold_ms));
            },
        }
    }
}

/// Grouping by an identifier: the groups before the `orphan` group carry
/// distinct ids and hold exactly the events with that id; the `orphan` group
/// holds the events without one.
pub proof fn law_id_groups_by_key(s: Seq<ClassifiedEvent>, f: IdField)
    ensures
        forall|i: int, j: int|
            0 <= i < j < first_keys(s, f).len() ==> (#[trigger] id_groups(s, f)[i]).0
                != (#[trigger] id_groups(s, f)[j]).0,
        forall|i: int, j: int|
            0 <= i < first_keys(s, f).len() && 0 <= j < id_groups(s, f)[i].1.len() ==> key_of(
                #[trigger] id_groups(s, f)[i].1[j],
                f,
            ) == Some(id_groups(s, f)[i].0),
        id_groups(s, f).len() > first_keys(s, f).len() ==> forall|j: int|
            0 <= j < id_groups(s, f)[first_keys(s, f).len() as int].1.len() ==> key_of(
                #[trigger] id_groups(s, f)[first_keys(s, f).len() as int].1[j],
                f,
            ) is None,
{
    let ks = first_keys(s, f);
    lemma_first_keys_distinct(s, f);
    assert forall|i: int, j: int|
        0 <= i < first_keys(s, f).len() && 0 <= j < id_groups(s, f)[i].1.len() implies key_of(
        #[trigger] id_groups(s, f)[i].1[j],
        f,
    ) == Some(id_groups(s, f)[i].0) by {
        lemma_with_key_members(s, f, Some(ks[i]));
    }
    lemma_with_key_members(s, f, None);
}

// ── The events as a multiset ───────────────────────────────────────────────

/// The events of `s` whose identifier is one of `ks`, as a multiset.
pub open spec fn keyed_bag(s: Seq<ClassifiedEvent>, f: IdField, ks: Seq<Seq<char>>) -> Multiset<ClassifiedEvent>
    decreases ks.len(),
{
    if ks.len() == 0 {
        Multiset::empty()
    } else {
        keyed_bag(s, f, ks.drop_last()).add(with_key(s, f, Some(ks.last())).to_multiset())
    }
}

proof fn lemma_with_key_bag_step(p: Seq<ClassifiedEvent>, e: ClassifiedEvent, f: IdField, k: Option<Seq<char>>)
    ensures
        with_key(p.push(e), f, k).to_multiset() =~= with_key(p, f, k).to_multiset().add(
            if key_of(e, f) == k {
                Multiset::singleton(e)
            } else {
                Multiset::empty()
            },
        ),
{
    broadcast use vstd::multiset::group_multiset_axioms;
    broadcast use vstd::seq_lib::group_to_multiset_ensures;

    assert(p.push(e).drop_last() =~= p);
    assert(p.push(e).last() == e);
}

proof fn lemma_keyed_bag_step(p: Seq<ClassifiedEvent>, e: ClassifiedEvent, f: IdField, ks: Seq<Seq<char>>)
    requires
        ks.no_duplicates(),
    ensures
        keyed_bag(p.push(e), f, ks) =~= keyed_bag(p, f, ks).add(
            if key_of(e, f) is Some && ks.contains(key_of(e, f)->0) {
                Multiset::singleton(e)
            } else {
                Multiset::empty()
            },
        ),
    decreases ks.len(),
{
    broadcast use vstd::multiset::group_multiset_axioms;

    if ks.len() > 0 {
        let d = ks.drop_last();
        assert(d.no_duplicates());
        lemma_keyed_bag_step(p, e, f, d);
        lemma_with_key_bag_step(p, e, f, Some(ks.last()));
        match key_of(e, f) {
            Some(k) => {
                if ks.contains(k) && ks.last() != k {
                    let i = choose|i: int| 0 <= i < ks.len() && ks[i] == k;
                    assert(d[i] == k);
                }
                if d.contains(k) {
                    let i = choose|i: int| 0 <= i < d.len() && d[i] == k;
                    assert(ks[i] == k);
                    if ks.last() == k {
                        assert(ks[i] == ks[ks.len() - 1]);
                    }
                }
                if ks.last() == k {
                    assert(ks[ks.len() - 1] == k);
                }
            },
            None => {},
        }
    }
}

proof fn lemma_keyed_bag_all(s: Seq<ClassifiedEvent>, f: IdField, ks: Seq<Seq<char>>)
    requires
        ks.no_duplicates(),
        forall|j: int|
            0 <= j < s.len() && (#[trigger] key_of(s[j], f)) is Some ==> ks.contains(
                key_of(s[j], f)->0,
            ),
    ensures
        keyed_bag(s, f, ks).add(with_key(s, f, None).to_multiset()) =~= s.to_multiset(),
    decreases s.len(),
{
    broadcast use vstd::multiset::group_multiset_axioms;
    broadcast use vstd::seq_lib::group_to_multiset_ensures;

    if s.len() == 0 {
        lemma_keyed_bag_empty(s, f, ks);
    } else {
        let p = s.drop_last();
        let e = s.last();
        assert forall|j: int|
            0 <= j < p.len() && (#[trigger] key_of(p[j], f)) is Some implies ks.contains(
            key_of(p[j], f)->0,
        ) by {
            assert(key_of(s[j], f) == key_of(p[j], f));
        }
        lemma_keyed_bag_all(p, f, ks);
        assert(s =~= p.push(e));
        lemma_keyed_bag_step(p, e, f, ks);
        lemma_with_key_bag_step(p, e, f, None);
        if key_of(e, f) is Some {
            assert(key_of(s[s.len() - 1], f) is Some);
        }
    }
}

proof fn lemma_keyed_bag_empty(s: Seq<ClassifiedEvent>, f: IdField, ks: Seq<Seq<char>>)
    requires
        s.len() == 0,
    ensures
        keyed_bag(s, f, ks) =~= Multiset::empty(),
        with_key(s, f, None).len() == 0,
    decreases ks.len(),
{
    broadcast use vstd::multiset::group_multiset_axioms;
    broadcast use vstd::seq_lib::group_to_multiset_ensures;

    if ks.len() > 0 {
        lemma_keyed_bag_empty(s, f, ks.drop_last());
        assert(with_key(s, f, Some(ks.last())) =~= Seq::<ClassifiedEvent>::empty());
    }
}

proof fn lemma_joined_bag(ps: Seq<(Seq<char>, Seq<ClassifiedEvent>)>, s: Seq<ClassifiedEvent>, f: IdField, ks: Seq<Seq<char>>)
    requires
        ps.len() == ks.len(),
        forall|i: int| 0 <= i < ps.len() ==> (#[trigger] ps[i]).1 == with_key(s, f, Some(ks[i])),
    ensures
        joined(ps).to_multiset() =~= keyed_bag(s, f, ks),
    decreases ps.len(),
{
    broadcast use vstd::multiset::group_multiset_axioms;
    broadcast use vstd::seq_lib::group_to_multiset_ensures;

    if ps.len() > 0 {
        lemma_joined_bag(ps.drop_last(), s, f, ks.drop_last());
        vstd::seq_lib::lemma_multiset_commutative(joined(ps.drop_last()), ps.last().1);
    } else {
        assert(joined(ps) =~= Seq::<ClassifiedEvent>::empty());
    }
}

proof fn lemma_id_groups_bag(s: Seq<ClassifiedEvent>, f: IdField)
    ensures
        joined(id_groups(s, f)).to_multiset() =~= s.to_multiset(),
{
    broadcast use vstd::multiset::group_multiset_axioms;

    let ks = first_keys(s, f);
    let keyed = Seq::new(ks.len(), |i: int| (ks[i], with_key(s, f, Some(ks[i]))));
    lemma_first_keys_distinct(s, f);
    lemma_keys_listed(s, f);
    lemma_keyed_bag_all(s, f, ks);
    lemma_joined_bag(keyed, s, f, ks);
    let orphans = with_key(s, f, None);
    if orphans.len() > 0 {
        let all = keyed.push(("orphan"@, orphans));
        assert(all.drop_last() =~= keyed);
        vstd::seq_lib::lemma_multiset_commutative(joined(keyed), orphans);
    } else {
        assert(orphans.to_multiset() =~= Multiset::empty()) by {
            broadcast use vstd::seq_lib::group_to_multiset_ensures;

            assert(orphans =~= Seq::<ClassifiedEvent>::empty());
        }
    }
}

/// The groups partition the events: taken together, they hold every event
/// exactly as many times as the input does.
pub proof fn law_groups_partition_the_events(s: Seq<ClassifiedEvent>, threshold_ms: u64)
    ensures
        joined(grouping(s, threshold_ms)).to_multiset() == s.to_multiset(),
{
    if s.len() == 0 {
        assert(joined(grouping(s, threshold_ms)) =~= s);
    } else {
        match strategy_for(s) {
            GroupStrategy::RequestId => lemma_id_groups_bag(s, IdField::Request),
            GroupStrategy::TraceId => lemma_id_groups_bag(s, IdField::Trace),
            GroupStrategy::ThreadId => lemma_id_groups_bag(s, IdField::Thread),
            GroupStrategy::Time => law_time_groups_keep_order(s, threshold_of(threshold_ms)),
        }
    }
}

// ── Order within each group ────────────────────────────────────────────────

proof fn lemma_with_key_in_order(s: Seq<ClassifiedEvent>, f: IdField, k: Option<Seq<char>>)
    ensures
        is_subsequence(with_key(s, f, k), s),
    decreases s.len(),
{
    if s.len() > 0 {
        let s0 = s.drop_last();
        lemma_with_key_in_order(s0, f, k);
        assert(s0.push(s.last()) =~= s);
        if key_of(s.last(), f) == k {
            lemma_subsequence_push(with_key(s0, f, k), s0, s.last());
        } else {
            lemma_subsequence_extend(with_key(s0, f, k), s0, s.last());
        }
    }
}

proof fn lemma_time_split_in_order(s: Seq<ClassifiedEvent>, t: int)
    ensures
        forall|i: int|
            0 <= i < time_split(s, t).0.len() ==> is_subsequence(#[trigger] time_split(s, t).0[i], s),
    decreases s.len(),
{
    if s.len() == 0 {
        lemma_subsequence_empty(s);
    } else {
        let s0 = s.drop_last();
        let e = s.last();
        lemma_time_split_in_order(s0, t);
        lemma_time_split_shape(s0, t);
        assert(s0.push(e) =~= s);
        let gs = time_split(s0, t).0;
        let gs2 = time_split(s, t).0;
        assert forall|i: int| 0 <= i < gs2.len() implies is_subsequence(#[trigger] gs2[i], s) by {
            if i < gs.len() && !(i == gs.len() - 1 && gs2.len() == gs.len()) {
                assert(gs2[i] == gs[i]);
                lemma_subsequence_extend(gs[i], s0, e);
            } else if i == gs.len() {
                assert(gs2[i] == seq![e]);
                lemma_subsequence_empty(s0);
                lemma_subsequence_push(Seq::<ClassifiedEvent>::empty(), s0, e);
                assert(Seq::<ClassifiedEvent>::empty().push(e) =~= seq![e]);
            } else {
                assert(gs2[i] == gs.last().push(e));
                lemma_subsequence_push(gs.last(), s0, e);
            }
        }
    }
}

/// Within each group the events keep their input order: every group is a
/// subsequence of the events.
pub proof fn law_groups_keep_input_order(s: Seq<ClassifiedEvent>, threshold_ms: u64)
    ensures
        forall|i: int|
            0 <= i < grouping(s, threshold_ms).len() ==> is_subsequence(
                #[trigger] grouping(s, threshold_ms)[i].1,
                s,
            ),
{
    if s.len() > 0 {
        let f = match strategy_for(s) {
            GroupStrategy::RequestId => IdField::Request,
            GroupStrategy::TraceId => IdField::Trace,
            _ => IdField::Thread,
        };
        match strategy_for(s) {
            GroupStrategy::Time => {
                lemma_time_split_in_order(s, threshold_of(threshold_ms));
            },
            _ => {
                let ks = first_keys(s, f);
                assert forall|i: int| 0 <= i < id_groups(s, f).len() implies is_subsequence(
                    #[trigger] id_groups(s, f)[i].1,
                    s,
                ) by {
                    if i < ks.len() {
                        lemma_with_key_in_order(s, f, Some(ks[i]));
                    } else {
                        lemma_with_key_in_order(s, f, None);
                    }
                }
            },
        }
    }
}

} // verus!
