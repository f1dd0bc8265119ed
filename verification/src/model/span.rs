//! Spans: the nodes of an execution tree.
use vstd::prelude::*;

use super::error::ErrorDetail;
use super::event::LogEvent;
use crate::text::string_of;

verus! {

/// `uuid::Uuid::new_v4`, taken as its 128-bit value (`Uuid::as_u128`): a
/// random identifier, so nothing is promised of its value.
#[verifier::external_body]
fn new_span_id() -> (id: u128) {
    uuid::Uuid::new_v4().as_u128()
}

/// Classification of what a span represents.
#[derive(Debug, Clone, Copy, PartialEq, Eq, Structural)]
pub enum SpanKind {
    Function,
    HttpRequest,
    Unknown,
}

/// A node in the execution tree. Each span can hold child spans,
/// an optional error, and raw log events.
///
/// Times are milliseconds since 1970-01-01 00:00:00 (see `LogEvent`).
#[derive(Debug)]
pub struct Span {
    /// The bits of a version 4 UUID.
    pub id: u128,
    pub name: String,
    pub kind: SpanKind,
    pub start_time: Option<i64>,
    pub end_time: Option<i64>,
    pub children: Vec<Span>,
    pub error: Option<ErrorDetail>,
    pub has_error: bool,
    pub events: Vec<LogEvent>,
}

/// The abstract content of a span: everything but its random identifier.
#[verifier::ext_equal]
pub struct SpanModel {
    pub name: Seq<char>,
    pub kind: SpanKind,
    pub start_time: Option<i64>,
    pub end_time: Option<i64>,
    pub children: Seq<SpanModel>,
    pub error: Option<ErrorDetail>,
    pub has_error: bool,
    pub events: Seq<LogEvent>,
}

impl Span {
    pub open spec fn model(self) -> SpanModel
        decreases self,
    {
        SpanModel {
            name: self.name@,
            kind: self.kind,
            start_time: self.start_time,
            end_time: self.end_time,
            children: Self::models(self.children@),
            error: self.error,
            has_error: self.has_error,
            events: self.events@,
        }
    }

    pub open spec fn models(s: Seq<Span>) -> Seq<SpanModel>
        decreases s,
    {
        if s.len() == 0 {
            Seq::empty()
        } else {
            Self::models(s.drop_last()).push(s.last().model())
        }
    }
}

impl View for Span {
    type V = SpanModel;

    open spec fn view(&self) -> SpanModel {
        self.model()
    }
}

pub proof fn lemma_models(s: Seq<Span>)
    ensures
        Span::models(s).len() == s.len(),
        forall|i: int| 0 <= i < s.len() ==> #[trigger] Span::models(s)[i] == s[i]@,
    decreases s.len(),
{
    if s.len() > 0 {
        lemma_models(s.drop_last());
    }
}

pub proof fn lemma_models_push(s: Seq<Span>, x: Span)
    ensures
        Span::models(s.push(x)) == Span::models(s).push(x@),
{
    assert(s.push(x).drop_last() =~= s);
}

pub proof fn lemma_models_drop_last(s: Seq<Span>)
    requires
        s.len() > 0,
    ensures
        Span::models(s.drop_last()) == Span::models(s).drop_last(),
        Span::models(s).last() == s.last()@,
{
    lemma_models(s);
    assert(Span::models(s.drop_last()) =~= Span::models(s).drop_last());
}

pub proof fn lemma_models_update(s: Seq<Span>, i: int, x: Span)
    requires
        0 <= i < s.len(),
    ensures
        Span::models(s.update(i, x)) == Span::models(s).update(i, x@),
{
    lemma_models(s);
    lemma_models(s.update(i, x));
    assert(Span::models(s.update(i, x)) =~= Span::models(s).update(i, x@));
}

impl SpanModel {
    /// A span with the given name and start time, and nothing else.
    pub open spec fn leaf(name: Seq<char>, start_time: Option<i64>) -> SpanModel {
        SpanModel {
            name,
            kind: SpanKind::Function,
            start_time,
            end_time: None,
            children: Seq::empty(),
            error: None,
            has_error: false,
            events: Seq::empty(),
        }
    }

    /// This span with `c` appended to its children.
    pub open spec fn with_child(self, c: SpanModel) -> SpanModel {
        SpanModel { children: self.children.push(c), ..self }
    }

    /// Number of spans in this subtree, this one included.
    pub open spec fn count(self) -> nat
        decreases self,
    {
        1 + Self::count_all(self.children)
    }

    pub open spec fn count_all(s: Seq<SpanModel>) -> nat
        decreases s,
    {
        if s.len() == 0 {
            0
        } else {
            Self::count_all(s.drop_last()) + s.last().count()
        }
    }

    /// Number of spans in this subtree, this one included, that carry an error.
    pub open spec fn error_count(self) -> nat
        decreases self,
    {
        (if self.error is Some {
            1nat
        } else {
            0nat
        }) + Self::error_count_all(self.children)
    }

    pub open spec fn error_count_all(s: Seq<SpanModel>) -> nat
        decreases s,
    {
        if s.len() == 0 {
            0
        } else {
            Self::error_count_all(s.drop_last()) + s.last().error_count()
        }
    }

    /// Some span in this subtree carries an error or is flagged as failed.
    pub open spec fn any_failure(self) -> bool
        decreases self,
    {
        self.has_error || self.error is Some || Self::any_failure_all(self.children)
    }

    pub open spec fn any_failure_all(s: Seq<SpanModel>) -> bool
        decreases s,
    {
        s.len() > 0 && (Self::any_failure_all(s.drop_last()) || s.last().any_failure())
    }

    /// Some span in this subtree carries an error.
    pub open spec fn any_error(self) -> bool
        decreases self,
    {
        self.error is Some || Self::any_error_all(self.children)
    }

    pub open spec fn any_error_all(s: Seq<SpanModel>) -> bool
        decreases s,
    {
        s.len() > 0 && (Self::any_error_all(s.drop_last()) || s.last().any_error())
    }

    /// Some span of `s` is flagged as failed.
    pub open spec fn any_flagged(s: Seq<SpanModel>) -> bool {
        exists|i: int| 0 <= i < s.len() && #[trigger] s[i].has_error
    }

    /// `new` is `old` after `propagate_errors`: the same tree, in which a span
    /// is flagged as failed when it was already, when it carries an error, or
    /// when one of its children is flagged after propagation.
    pub open spec fn propagated(new: SpanModel, old: SpanModel) -> bool
        decreases old,
    {
        &&& new.name == old.name
        &&& new.kind == old.kind
        &&& new.start_time == old.start_time
        &&& new.end_time == old.end_time
        &&& new.error == old.error
        &&& new.events == old.events
        &&& Self::propagated_all(new.children, old.children)
        &&& new.has_error == (old.has_error || old.error is Some || Self::any_flagged(
            new.children,
        ))
    }

    pub open spec fn propagated_all(news: Seq<SpanModel>, olds: Seq<SpanModel>) -> bool
        decreases olds,
    {
        news.len() == olds.len() && (olds.len() == 0 || (Self::propagated_all(
            news.drop_last(),
            olds.drop_last(),
        ) && Self::propagated(news.last(), olds.last())))
    }
}

pub proof fn lemma_propagated_all(news: Seq<SpanModel>, olds: Seq<SpanModel>)
    ensures
        SpanModel::propagated_all(news, olds) <==> (news.len() == olds.len() && forall|i: int|
            0 <= i < olds.len() ==> #[trigger] SpanModel::propagated(news[i], olds[i])),
    decreases olds.len(),
{
    if olds.len() > 0 && news.len() == olds.len() {
        lemma_propagated_all(news.drop_last(), olds.drop_last());
        let k = olds.len() - 1;
        if forall|i: int| 0 <= i < olds.len() ==> #[trigger] SpanModel::propagated(news[i], olds[i]) {
            assert forall|i: int| 0 <= i < k implies #[trigger] SpanModel::propagated(
                news.drop_last()[i],
                olds.drop_last()[i],
            ) by {
                assert(SpanModel::propagated(news[i], olds[i]));
            }
            assert(SpanModel::propagated(news[k], olds[k]));
        }
        if SpanModel::propagated_all(news, olds) {
            assert forall|i: int| 0 <= i < olds.len() implies #[trigger] SpanModel::propagated(
                news[i],
                olds[i],
            ) by {
                if i < k {
                    assert(SpanModel::propagated(news.drop_last()[i], olds.drop_last()[i]));
                }
            }
        }
    }
}

pub proof fn lemma_any_failure_all(s: Seq<SpanModel>)
    ensures
        SpanModel::any_failure_all(s) <==> exists|i: int|
            0 <= i < s.len() && #[trigger] s[i].any_failure(),
    decreases s.len(),
{
    if s.len() > 0 {
        lemma_any_failure_all(s.drop_last());
        assert(s.last() == s[s.len() - 1]);
        if s.last().any_failure() {
            assert(s[s.len() - 1].any_failure());
        }
        if exists|i: int| 0 <= i < s.len() && #[trigger] s[i].any_failure() {
            let i = choose|i: int| 0 <= i < s.len() && #[trigger] s[i].any_failure();
            if i < s.len() - 1 {
                assert(s.drop_last()[i].any_failure());
            }
        }
        if SpanModel::any_failure_all(s.drop_last()) {
            let i = choose|i: int| 0 <= i < s.len() - 1 && #[trigger] s.drop_last()[i].any_failure();
            assert(s[i].any_failure());
        }
        assert(s.last() == s[s.len() - 1]);
    }
}

/// Duration in milliseconds between two times, when both are known and the
/// end is not before the start.
pub open spec fn spec_duration(start: Option<i64>, end: Option<i64>) -> Option<u64> {
    match (start, end) {
        (Some(s), Some(e)) => if e >= s {
            Some((e - s) as u64)
        } else {
            None
        },
        _ => None,
    }
}

pub proof fn lemma_count_all_push(s: Seq<SpanModel>, x: SpanModel)
    ensures
        SpanModel::count_all(s.push(x)) == SpanModel::count_all(s) + x.count(),
        SpanModel::error_count_all(s.push(x)) == SpanModel::error_count_all(s) + x.error_count(),
{
    assert(s.push(x).drop_last() =~= s);
}

pub proof fn lemma_count_all_update(s: Seq<SpanModel>, i: int, x: SpanModel)
    requires
        0 <= i < s.len(),
    ensures
        SpanModel::count_all(s.update(i, x)) + s[i].count() == SpanModel::count_all(s) + x.count(),
    decreases s.len(),
{
    let n = s.len() - 1;
    if i == n {
        assert(s.update(i, x).drop_last() =~= s.drop_last());
    } else {
        assert(s.update(i, x).drop_last() =~= s.drop_last().update(i, x));
        lemma_count_all_update(s.drop_last(), i, x);
    }
}

pub proof fn lemma_count_all_take(s: Seq<SpanModel>, i: int)
    requires
        0 <= i < s.len(),
    ensures
        SpanModel::count_all(s.take(i + 1)) == SpanModel::count_all(s.take(i)) + s[i].count(),
        SpanModel::error_count_all(s.take(i + 1)) == SpanModel::error_count_all(s.take(i))
            + s[i].error_count(),
{
    assert(s.take(i + 1).drop_last() =~= s.take(i));
}

/// A prefix never counts more spans than the whole sequence.
pub proof fn lemma_count_all_prefix(s: Seq<SpanModel>, i: int)
    requires
        0 <= i <= s.len(),
    ensures
        SpanModel::count_all(s.take(i)) <= SpanModel::count_all(s),
        SpanModel::error_count_all(s.take(i)) <= SpanModel::error_count_all(s),
    decreases s.len() - i,
{
    if i < s.len() {
        lemma_count_all_take(s, i);
        lemma_count_all_prefix(s, i + 1);
    } else {
        assert(s.take(i) =~= s);
    }
}

/// A subtree holds no more spans with errors than spans.
pub proof fn lemma_error_count_le_count(m: SpanModel)
    ensures
        m.error_count() <= m.count(),
    decreases m,
{
    lemma_error_count_all_le(m.children);
}

pub proof fn lemma_error_count_all_le(s: Seq<SpanModel>)
    ensures
        SpanModel::error_count_all(s) <= SpanModel::count_all(s),
    decreases s,
{
    if s.len() > 0 {
        lemma_error_count_all_le(s.drop_last());
        lemma_error_count_le_count(s.last());
    }
}

/// Each child of a span counts no more spans than the span itself.
pub proof fn lemma_count_all_elem(s: Seq<SpanModel>, i: int)
    requires
        0 <= i < s.len(),
    ensures
        s[i].count() <= SpanModel::count_all(s),
        s[i].error_count() <= SpanModel::error_count_all(s),
{
    lemma_count_all_take(s, i);
    lemma_count_all_prefix(s, i + 1);
}

impl Span {
    /// A span named `name`, of kind `Function`, with a fresh random id and
    /// nothing else.
    pub fn new(name: &str) -> (s: Span)
        ensures
            s@ == SpanModel::leaf(name@, None),
    {
        let s = Span {
            id: new_span_id(),
            name: string_of(name),
            kind: SpanKind::Function,
            start_time: None,
            end_time: None,
            children: Vec::new(),
            error: None,
            has_error: false,
            events: Vec::new(),
        };
        proof {
            assert(s@.children =~= Seq::<SpanModel>::empty());
            assert(s@ =~= SpanModel::leaf(name@, None));
        }
        s
    }

    /// Append `child`; this span becomes flagged as failed when the child is.
    pub fn add_child(&mut self, child: Span)
        ensures
            final(self)@ == (SpanModel {
                has_error: old(self)@.has_error || child@.has_error,
                ..old(self)@.with_child(child@)
            }),
            final(self).id == old(self).id,
    {
        if child.has_error {
            self.has_error = true;
        }
        let ghost c = child;
        self.children.push(child);
        proof {
            lemma_models_push(old(self).children@, c);
        }
    }

    /// Duration from the start to the end time, when both are present and the
    /// end does not come before the start.
    pub fn duration(&self) -> (d: Option<u64>)
        ensures
            d == spec_duration(self.start_time, self.end_time),
    {
        match (self.start_time, self.end_time) {
            (Some(start), Some(end)) => {
                let diff = (end as i128) - (start as i128);
                if diff >= 0 {
                    Some(diff as u64)
                } else {
                    None
                }
            },
            _ => None,
        }
    }

    /// Total number of spans in this subtree (including self).
    pub fn span_count(&self) -> (n: usize)
        requires
            self@.count() <= usize::MAX,
        ensures
            n == self@.count(),
        decreases self,
    {
        proof {
            lemma_models(self.children@);
        }
        let ghost ms = self@.children;
        let mut total: usize = 1;
        let mut i: usize = 0;
        while i < self.children.len()
            invariant
                0 <= i <= self.children@.len(),
                ms == Span::models(self.children@),
                ms.len() == self.children@.len(),
                self@.count() <= usize::MAX,
                total == 1 + SpanModel::count_all(ms.take(i as int)),
            decreases self.children@.len() - i,
        {
            proof {
                lemma_models(self.children@);
                lemma_count_all_take(ms, i as int);
                lemma_count_all_prefix(ms, i + 1);
                assert(ms[i as int] == self.children@[i as int]@);
            }
            let c = self.children[i].span_count();
            total = total + c;
            i = i + 1;
        }
        proof {
            assert(ms.take(i as int) =~= ms);
        }
        total
    }

    /// Number of spans with errors in this subtree (including self).
    pub fn error_count(&self) -> (n: usize)
        requires
            self@.count() <= usize::MAX,
        ensures
            n == self@.error_count(),
        decreases self,
    {
        proof {
            lemma_models(self.children@);
            lemma_error_count_le_count(self@);
        }
        let ghost ms = self@.children;
        let mut total: usize = if self.error.is_some() {
            1
        } else {
            0
        };
        let mut i: usize = 0;
        while i < self.children.len()
            invariant
                0 <= i <= self.children@.len(),
                ms == Span::models(self.children@),
                ms.len() == self.children@.len(),
                self@.count() <= usize::MAX,
                self@.error_count() <= self@.count(),
                total == (if self.error is Some {
                    1nat
                } else {
                    0nat
                }) + SpanModel::error_count_all(ms.take(i as int)),
            decreases self.children@.len() - i,
        {
            proof {
                lemma_models(self.children@);
                lemma_count_all_take(ms, i as int);
                lemma_count_all_prefix(ms, i + 1);
                lemma_count_all_elem(ms, i as int);
                assert(ms[i as int] == self.children@[i as int]@);
            }
            let c = self.children[i].error_count();
            total = total + c;
            i = i + 1;
        }
        proof {
            assert(ms.take(i as int) =~= ms);
        }
        total
    }

    /// Walk the tree bottom-up, propagating `has_error` from children to parents.
    /// Returns `true` if this span or any descendant has an error.
    pub fn propagate_errors(&mut self) -> (r: bool)
        ensures
            SpanModel::propagated(final(self)@, old(self)@),
            r == final(self)@.has_error,
            final(self).id == old(self).id,
        decreases old(self)@,
    {
        proof {
            lemma_models(self.children@);
        }
        let ghost old_ms = old(self)@.children;
        let mut child_has_error = false;
        let n = self.children.len();
        let mut i: usize = 0;
        while i < n
            invariant
                0 <= i <= n,
                n == self.children@.len(),
                old_ms.len() == n,
                self.name == old(self).name,
                self.id == old(self).id,
                self.kind == old(self).kind,
                self.start_time == old(self).start_time,
                self.end_time == old(self).end_time,
                self.error == old(self).error,
                self.events == old(self).events,
                self.has_error == old(self).has_error,
                old_ms == old(self)@.children,
                forall|j: int|
                    0 <= j < i ==> #[trigger] SpanModel::propagated(
                        self.children@[j]@,
                        old_ms[j],
                    ),
                forall|j: int| i <= j < n ==> #[trigger] self.children@[j]@ == old_ms[j],
                child_has_error == (exists|j: int|
                    0 <= j < i && #[trigger] self.children@[j]@.has_error),
            decreases n - i,
        {
            let ghost before = self.children@;
            proof {
                assert(decreases_to!(old(self)@ => old(self)@.children));
                assert(decreases_to!(old(self)@.children => old(self)@.children[i as int]));
            }
            let e = self.children[i].propagate_errors();
            proof {
                assert forall|j: int| 0 <= j < n && j != i implies self.children@[j] == before[j] by {
                }
                if !child_has_error && e {
                    assert(self.children@[i as int]@.has_error);
                }
            }
            child_has_error = child_has_error || e;
            i = i + 1;
        }
        if self.error.is_some() || child_has_error {
            self.has_error = true;
        }
        proof {
            lemma_models(self.children@);
            let m = self@;
            assert(m.children.len() == old_ms.len());
            assert forall|j: int| 0 <= j < old_ms.len() implies #[trigger] SpanModel::propagated(
                m.children[j],
                old_ms[j],
            ) by {
                assert(m.children[j] == self.children@[j]@);
            }
            lemma_propagated_all(m.children, old_ms);
            assert(SpanModel::any_flagged(m.children) == child_has_error) by {
                if child_has_error {
                    let j = choose|j: int| 0 <= j < n && #[trigger] self.children@[j]@.has_error;
                    assert(m.children[j].has_error);
                }
                if exists|j: int| 0 <= j < m.children.len() && #[trigger] m.children[j].has_error {
                    let j = choose|j: int|
                        0 <= j < m.children.len() && #[trigger] m.children[j].has_error;
                    assert(self.children@[j]@.has_error);
                }
            }
        }
        self.has_error
    }
}

// ── Laws ────────────────────────────────────────────────────────────────────

/// After `propagate_errors`, a span is flagged as failed exactly when some
/// span of its subtree was flagged or carried an error before.
pub proof fn law_propagation_marks_failed_paths(new: SpanModel, old: SpanModel)
    requires
        SpanModel::propagated(new, old),
    ensures
        new.has_error == old.any_failure(),
    decreases old,
{
    lemma_propagated_all(new.children, old.children);
    lemma_any_failure_all(old.children);
    assert forall|i: int| 0 <= i < old.children.len() implies new.children[i].has_error
        == #[trigger] old.children[i].any_failure() by {
        assert(SpanModel::propagated(new.children[i], old.children[i]));
        law_propagation_marks_failed_paths(new.children[i], old.children[i]);
    }
    if SpanModel::any_failure_all(old.children) {
        let i = choose|i: int| 0 <= i < old.children.len() && #[trigger] old.children[i].any_failure();
        assert(new.children[i].has_error);
    }
    if SpanModel::any_flagged(new.children) {
        let i = choose|i: int| 0 <= i < new.children.len() && #[trigger] new.children[i].has_error;
        assert(old.children[i].any_failure());
    }
}

/// Propagating errors changes neither the number of spans nor the number of
/// spans that carry an error.
pub proof fn law_propagation_keeps_counts(new: SpanModel, old: SpanModel)
    requires
        SpanModel::propagated(new, old),
    ensures
        new.count() == old.count(),
        new.error_count() == old.error_count(),
    decreases old,
{
    lemma_propagated_all_counts(new.children, old.children);
}

proof fn lemma_propagated_all_counts(news: Seq<SpanModel>, olds: Seq<SpanModel>)
    requires
        SpanModel::propagated_all(news, olds),
    ensures
        SpanModel::count_all(news) == SpanModel::count_all(olds),
        SpanModel::error_count_all(news) == SpanModel::error_count_all(olds),
    decreases olds,
{
    if olds.len() > 0 {
        law_propagation_keeps_counts(news.last(), olds.last());
        lemma_propagated_all_counts(news.drop_last(), olds.drop_last());
    }
}

} // verus!
