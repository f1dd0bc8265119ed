//! Subsequences: what keeps the order of a sequence while leaving out some of
//! its elements.
use vstd::prelude::*;

verus! {

/// `a` is a subsequence of `b`: the elements of `a` occur in `b` in the same
/// order, not necessarily next to each other (matched from the end).
pub open spec fn is_subsequence<A>(a: Seq<A>, b: Seq<A>) -> bool
    decreases b.len(),
{
    if a.len() == 0 {
        true
    } else if b.len() == 0 {
        false
    } else if a.last() == b.last() {
        is_subsequence(a.drop_last(), b.drop_last())
    } else {
        is_subsequence(a, b.drop_last())
    }
}

pub proof fn lemma_subsequence_empty<A>(b: Seq<A>)
    ensures
        is_subsequence(Seq::<A>::empty(), b),
{
}

pub proof fn lemma_subsequence_drop_last<A>(a: Seq<A>, b: Seq<A>)
    requires
        is_subsequence(a, b),
        a.len() > 0,
    ensures
        is_subsequence(a.drop_last(), b),
    decreases 2 * b.len() + 1,
{
    if b.len() > 0 {
        let b0 = b.drop_last();
        assert(b0.push(b.last()) =~= b);
        if a.last() == b.last() {
            lemma_subsequence_extend(a.drop_last(), b0, b.last());
        } else {
            lemma_subsequence_drop_last(a, b0);
            lemma_subsequence_extend(a.drop_last(), b0, b.last());
        }
    }
}

/// A subsequence of a prefix of `b` is one of `b`.
pub proof fn lemma_subsequence_extend<A>(a: Seq<A>, b: Seq<A>, y: A)
    requires
        is_subsequence(a, b),
    ensures
        is_subsequence(a, b.push(y)),
    decreases 2 * b.len() + 2,
{
    assert(b.push(y).drop_last() =~= b);
    if a.len() > 0 && a.last() == y {
        lemma_subsequence_drop_last(a, b);
    }
}

/// Appending the same element to both keeps a subsequence one.
pub proof fn lemma_subsequence_push<A>(a: Seq<A>, b: Seq<A>, x: A)
    requires
        is_subsequence(a, b),
    ensures
        is_subsequence(a.push(x), b.push(x)),
{
    assert(a.push(x).drop_last() =~= a);
    assert(b.push(x).drop_last() =~= b);
}

pub proof fn lemma_subsequence_refl<A>(a: Seq<A>)
    ensures
        is_subsequence(a, a),
    decreases a.len(),
{
    if a.len() > 0 {
        lemma_subsequence_refl(a.drop_last());
    }
}

} // verus!
