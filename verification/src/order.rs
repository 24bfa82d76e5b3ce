//! Order-preserving membership of one identity sequence in another.
//!
//! As a combinator's pending set shrinks, the identities of the surviving
//! computations always form a subsequence of the identities it started
//! with: nothing is reordered and nothing new appears. [`subseq_of`] states
//! that relation, and the lemmas here give the facts the combinators need:
//! it is reflexive, removing one element of a sequence yields a subsequence
//! of it, and it is transitive.

use vstd::prelude::*;

verus! {

/// Whether `s` can be obtained from `t` by deleting elements, keeping the
/// relative order of those that remain.
pub open spec fn subseq_of(s: Seq<int>, t: Seq<int>) -> bool
    decreases s.len() + t.len(),
{
    if s.len() == 0 {
        true
    } else if t.len() == 0 {
        false
    } else {
        (s[0] == t[0] && subseq_of(s.drop_first(), t.drop_first())) || subseq_of(
            s,
            t.drop_first(),
        )
    }
}

/// Every sequence is a subsequence of itself.
pub proof fn lemma_subseq_refl(s: Seq<int>)
    ensures
        subseq_of(s, s),
    decreases s.len(),
{
    if s.len() > 0 {
        lemma_subseq_refl(s.drop_first());
    }
}

/// Removing one element leaves a subsequence of the original.
pub proof fn lemma_subseq_remove(t: Seq<int>, i: int)
    requires
        0 <= i < t.len(),
    ensures
        subseq_of(t.remove(i), t),
    decreases t.len(),
{
    if i == 0 {
        assert(t.remove(0) =~= t.drop_first());
        lemma_subseq_refl(t.drop_first());
    } else {
        let s = t.remove(i);
        assert(s[0] == t[0]);
        assert(s.drop_first() =~= t.drop_first().remove(i - 1));
        lemma_subseq_remove(t.drop_first(), i - 1);
    }
}

/// A subsequence of a subsequence is a subsequence.
pub proof fn lemma_subseq_trans(a: Seq<int>, b: Seq<int>, c: Seq<int>)
    requires
        subseq_of(a, b),
        subseq_of(b, c),
    ensures
        subseq_of(a, c),
    decreases b.len() + c.len(),
{
    if a.len() == 0 {
    } else if subseq_of(b, c.drop_first()) {
        lemma_subseq_trans(a, b, c.drop_first());
    } else {
        // By definition of subseq_of(b, c), the first elements must match.
        assert(b[0] == c[0] && subseq_of(b.drop_first(), c.drop_first()));
        if a[0] == b[0] && subseq_of(a.drop_first(), b.drop_first()) {
            lemma_subseq_trans(a.drop_first(), b.drop_first(), c.drop_first());
        } else {
            assert(subseq_of(a, b.drop_first()));
            lemma_subseq_trans(a, b.drop_first(), c.drop_first());
        }
    }
}

} // verus!
