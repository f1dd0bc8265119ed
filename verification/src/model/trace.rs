//! A complete execution trace for a single request.
use vstd::prelude::*;

use crate::text::push_char;
use super::span::{
    law_propagation_keeps_counts, law_propagation_marks_failed_paths, spec_duration, Span,
    SpanModel,
};

verus! {

/// The lower-case hexadecimal digit of `n` (below 16).
pub open spec fn hex_digit(n: u128) -> char {
    seq!['0', '1', '2', '3', '4', '5', '6', '7', '8', '9', 'a', 'b', 'c', 'd', 'e', 'f'][n as int]
}

/// The `k`-th of the 32 hexadecimal digits of `id`, most significant first.
pub open spec fn nibble(id: u128, k: int) -> u128 {
    (id >> ((124 - 4 * k) as u128)) & 0xf
}

/// The position among the 36 characters of the hyphenated form at which
/// digit `k` stands: digits in groups of 8, 4, 4, 4 and 12, a hyphen after
/// each group but the last.
pub open spec fn digit_pos(k: int) -> int {
    if k < 8 {
        k
    } else if k < 12 {
        k + 1
    } else if k < 16 {
        k + 2
    } else if k < 20 {
        k + 3
    } else {
        k + 4
    }
}

/// The hyphenated text of a UUID, as `uuid::Uuid`'s `Display` writes it:
/// its 32 lower-case hexadecimal digits, most significant first, in groups
/// of 8, 4, 4, 4 and 12 separated by `-`.
pub open spec fn hyphenated(id: u128) -> Seq<char> {
    Seq::new(
        36,
        |p: int|
            if p == 8 || p == 13 || p == 18 || p == 23 {
                '-'
            } else {
                hex_digit(
                    nibble(
                        id,
                        if p < 8 {
                            p
                        } else if p < 13 {
                            p - 1
                        } else if p < 18 {
                            p - 2
                        } else if p < 23 {
                            p - 3
                        } else {
                            p - 4
                        },
                    ),
                )
            },
    )
}

/// The hyphenated lower-case text of the UUID `id`.
pub fn uuid_text(id: u128) -> (s: String)
    ensures
        s@ == hyphenated(id),
{
    let digits: [char; 16] = ['0', '1', '2', '3', '4', '5', '6', '7', '8', '9', 'a', 'b', 'c', 'd', 'e', 'f'];
    let mut s = String::new();
    let mut k: usize = 0;
    while k < 32
        invariant
            0 <= k <= 32,
            digits@ == seq!['0', '1', '2', '3', '4', '5', '6', '7', '8', '9', 'a', 'b', 'c', 'd', 'e', 'f'],
            s@.len() == (if k == 0 { 0 } else { digit_pos(k - 1) + 1 }),
            forall|p: int| 0 <= p < s@.len() ==> #[trigger] s@[p] == hyphenated(id)[p],
        decreases 32 - k,
    {
        if k == 8 || k == 12 || k == 16 || k == 20 {
            push_char(&mut s, '-');
        }
        let shift: u128 = 124 - 4 * (k as u128);
        let n: u128 = (id >> shift) & 0xf;
        assert(n < 16) by (bit_vector)
            requires
                n == (id >> shift) & 0xf,
        ;
        push_char(&mut s, digits[n as usize]);
        k = k + 1;
    }
    assert(s@ =~= hyphenated(id));
    s
}

/// A complete execution trace for a single request.
///
/// Times are milliseconds since 1970-01-01 00:00:00, durations milliseconds.
#[derive(Debug)]
pub struct Trace {
    pub id: String,
    pub request_id: Option<String>,
    pub trace_id: Option<String>,
    pub root: Span,
    pub start_time: Option<i64>,
    pub end_time: Option<i64>,
    pub total_duration: Option<u64>,
    pub has_error: bool,
    pub error_count: usize,
    pub span_count: usize,
}

impl Trace {
    /// Build a `Trace` from a root span, computing all aggregate metrics.
    /// Propagates errors bottom-up and derives counts from the tree.
    pub fn from_root_span(root: Span, request_id: Option<String>) -> (t: Trace)
        requires
            root@.count() <= usize::MAX,
        ensures
            SpanModel::propagated(t.root@, root@),
            t.root.id == root.id,
            t.span_count == root@.count(),
            t.error_count == root@.error_count(),
            t.has_error == (root@.error_count() > 0),
            t.start_time == root.start_time,
            t.end_time == root.end_time,
            t.total_duration == spec_duration(root.start_time, root.end_time),
            t.request_id == request_id,
            t.trace_id is None,
            match request_id {
                Some(r) => t.id@ == r@,
                None => t.id@ == hyphenated(root.id),
            },
    {
        let ghost r0 = root@;
        let mut root = root;
        root.propagate_errors();
        proof {
            law_propagation_keeps_counts(root@, r0);
        }
        let span_count = root.span_count();
        let error_count = root.error_count();
        let has_error = error_count > 0;
        let start_time = root.start_time;
        let end_time = root.end_time;
        let total_duration = root.duration();
        let id = match &request_id {
            Some(r) => r.clone(),
            None => uuid_text(root.id),
        };
        Trace {
            id,
            request_id,
            trace_id: None,
            root,
            start_time,
            end_time,
            total_duration,
            has_error,
            error_count,
            span_count,
        }
    }
}

/// A span that carries an error is flagged, and so is every span above it.
pub proof fn lemma_error_means_failure(m: SpanModel)
    requires
        m.error_count() > 0,
    ensures
        m.any_failure(),
    decreases m,
{
    if m.error is None {
        let i = lemma_error_count_all_positive(m.children);
        lemma_error_means_failure(m.children[i]);
        crate::model::span::lemma_any_failure_all(m.children);
    }
}

proof fn lemma_error_count_all_positive(s: Seq<SpanModel>) -> (i: int)
    requires
        SpanModel::error_count_all(s) > 0,
    ensures
        0 <= i < s.len(),
        s[i].error_count() > 0,
        decreases_to!(s => s[i]),
    decreases s.len(),
{
    if s.last().error_count() > 0 {
        s.len() - 1
    } else {
        let i = lemma_error_count_all_positive(s.drop_last());
        assert(s.drop_last()[i] == s[i]);
        i
    }
}

/// A trace reported as failed has its root flagged as failed: the error
/// marks the whole path from the failing span up to the root.
pub proof fn law_trace_error_reaches_root(t: Trace, root: SpanModel)
    requires
        SpanModel::propagated(t.root@, root),
        t.has_error == (root.error_count() > 0),
    ensures
        t.has_error ==> t.root@.has_error,
{
    law_propagation_marks_failed_paths(t.root@, root);
    if t.has_error {
        lemma_error_means_failure(root);
    }
}

} // verus!
