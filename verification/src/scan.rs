//! The per-pass selection rule shared by both combinators.
//!
//! One drive step scans the pending computations left to right, in index
//! order, and stops at the first terminal result it observes. The spec
//! functions here capture that rule: [`first_terminal`] gives the selected
//! position over a sequence of observed poll results, [`polled_each`]
//! describes a scan that found nothing terminal, and [`resolving_scan`]
//! one that stopped at a terminal result. The lemmas state the rule's
//! laws: the selected position is the lowest-indexed terminal one, a lone
//! ready computation is always the one selected, and on a tie the lower
//! index wins while the other survives un-drained.

use vstd::prelude::*;

use crate::computation::{Computation, Poll};

verus! {

/// Whether a poll result is terminal (a success or a failure).
pub open spec fn is_terminal<T, E>(p: Poll<T, E>) -> bool {
    !(p is Pending)
}

/// The position of the first terminal result in a sequence of observed
/// poll results, if any: the selection rule of one scan pass.
pub open spec fn first_terminal<T, E>(s: Seq<Poll<T, E>>) -> Option<int>
    decreases s.len(),
{
    if s.len() <= 0 {
        None
    } else if is_terminal(s[0]) {
        Some(0int)
    } else {
        match first_terminal(s.drop_first()) {
            Some(i) => Some(i + 1),
            None => None,
        }
    }
}

/// A full scan that found nothing: every computation of `pre` was polled
/// once, in index order, ending in the matching position of `post` with
/// the matching observed result.
pub open spec fn polled_each<A: Computation>(
    pre: Seq<A>,
    post: Seq<A>,
    obs: Seq<Poll<A::Value, A::Error>>,
) -> bool {
    &&& post.len() == pre.len()
    &&& obs.len() == pre.len()
    &&& forall|j: int| 0 <= j < pre.len() ==> pre[j].polls_to(#[trigger] post[j], obs[j])
}

/// One resolving scan over `pre`, selecting position `idx` and leaving
/// `rest`: the computations before `idx` were each polled once, observed
/// pending, and sit in the matching positions of `rest`; the computation
/// at `idx` was polled once and went terminal with the selected result;
/// those after `idx` were not polled at all and sit in `rest` unchanged.
pub open spec fn resolving_scan<A: Computation>(
    pre: Seq<A>,
    idx: int,
    rest: Seq<A>,
    obs: Seq<Poll<A::Value, A::Error>>,
) -> bool {
    &&& 0 <= idx < pre.len()
    &&& rest.len() == pre.len() - 1
    &&& obs.len() == idx + 1
    &&& first_terminal(obs) == Some(idx)
    &&& forall|j: int| 0 <= j < idx ==> pre[j].polls_to(#[trigger] rest[j], obs[j])
    &&& exists|consumed: A| #[trigger] pre[idx].polls_to(consumed, obs[idx])
    &&& forall|j: int| idx <= j < rest.len() ==> #[trigger] rest[j] == pre[j + 1]
}

/// The selection rule picks exactly the lowest terminal position: a
/// selected position holds a terminal result and everything before it is
/// still pending, and nothing is selected only when nothing is terminal.
pub proof fn lemma_first_terminal_characterization<T, E>(s: Seq<Poll<T, E>>)
    ensures
        match first_terminal(s) {
            Some(i) => {
                &&& 0 <= i < s.len()
                &&& is_terminal(s[i])
                &&& forall|j: int| 0 <= j < i ==> !is_terminal(#[trigger] s[j])
            },
            None => forall|j: int| 0 <= j < s.len() ==> !is_terminal(#[trigger] s[j]),
        },
    decreases s.len(),
{
    if s.len() > 0 && !is_terminal(s[0]) {
        lemma_first_terminal_characterization(s.drop_first());
        assert forall|j: int| 1 <= j < s.len() implies s.drop_first()[j - 1] == s[j] by {}
    }
}

/// A scan that observed only pending results selects nothing.
pub proof fn lemma_first_terminal_none<T, E>(s: Seq<Poll<T, E>>)
    requires
        forall|j: int| 0 <= j < s.len() ==> !is_terminal(#[trigger] s[j]),
    ensures
        first_terminal(s) is None,
{
    lemma_first_terminal_characterization(s);
}

/// A scan that observed only pending results before a final terminal one
/// selects that final position.
pub proof fn lemma_first_terminal_of_scan<T, E>(s: Seq<Poll<T, E>>)
    requires
        s.len() > 0,
        forall|j: int| 0 <= j < s.len() - 1 ==> !is_terminal(#[trigger] s[j]),
        is_terminal(s[s.len() - 1]),
    ensures
        first_terminal(s) == Some(s.len() - 1),
    decreases s.len(),
{
    if s.len() > 1 {
        let t = s.drop_first();
        assert forall|j: int| 0 <= j < t.len() - 1 implies !is_terminal(#[trigger] t[j]) by {
            assert(t[j] == s[j + 1]);
        }
        assert(t[t.len() - 1] == s[s.len() - 1]);
        lemma_first_terminal_of_scan(t);
    }
}

/// When exactly one position holds a terminal result, the scan selects it;
/// removing it from a sequence of identities of the same length keeps every
/// other identity, in the original relative order.
pub proof fn lemma_race_sole_ready<T, E>(s: Seq<Poll<T, E>>, tags: Seq<int>, k: int)
    requires
        tags.len() == s.len(),
        0 <= k < s.len(),
        is_terminal(s[k]),
        forall|j: int| 0 <= j < s.len() && j != k ==> !is_terminal(#[trigger] s[j]),
    ensures
        first_terminal(s) == Some(k),
        tags.remove(k).len() == s.len() - 1,
        forall|j: int| 0 <= j < k ==> #[trigger] tags.remove(k)[j] == tags[j],
        forall|j: int| k <= j < s.len() - 1 ==> #[trigger] tags.remove(k)[j] == tags[j + 1],
{
    lemma_first_terminal_characterization(s);
    tags.remove_ensures(k);
}

/// The tie-break rule: when two positions hold terminal results in the
/// same scan, the selected position is no later than the lower of the two,
/// so the higher-indexed one survives into the remainder, un-drained.
pub proof fn lemma_race_tie_break<T, E>(s: Seq<Poll<T, E>>, tags: Seq<int>, j: int, k: int)
    requires
        tags.len() == s.len(),
        0 <= j < k < s.len(),
        is_terminal(s[j]),
        is_terminal(s[k]),
    ensures
        first_terminal(s) is Some,
        first_terminal(s)->Some_0 <= j,
        tags.remove(first_terminal(s)->Some_0)[k - 1] == tags[k],
{
    lemma_first_terminal_characterization(s);
    let i = first_terminal(s)->Some_0;
    tags.remove_ensures(i);
}

/// When one computation alone can go terminal, a resolving scan selects
/// exactly that computation, and every other one survives it.
pub proof fn lemma_resolving_scan_sole_ready<A: Computation>(
    pre: Seq<A>,
    idx: int,
    rest: Seq<A>,
    obs: Seq<Poll<A::Value, A::Error>>,
    k: int,
)
    requires
        resolving_scan(pre, idx, rest, obs),
        0 <= k < pre.len(),
        forall|j: int, post: A, r: Poll<A::Value, A::Error>|
            0 <= j < pre.len() && j != k && #[trigger] pre[j].polls_to(post, r) ==> r is Pending,
        forall|post: A, r: Poll<A::Value, A::Error>|
            #[trigger] pre[k].polls_to(post, r) ==> is_terminal(r),
    ensures
        idx == k,
        rest.len() == pre.len() - 1,
        forall|j: int| 0 <= j < k ==> pre[j].polls_to(#[trigger] rest[j], obs[j]),
        forall|j: int| k <= j < rest.len() ==> #[trigger] rest[j] == pre[j + 1],
{
    lemma_first_terminal_characterization(obs);
    if idx < k {
        let consumed = choose|consumed: A| #[trigger] pre[idx].polls_to(consumed, obs[idx]);
        assert(obs[idx] is Pending);
    }
    if idx > k {
        assert(pre[k].polls_to(rest[k], obs[k]));
        assert(!is_terminal(obs[k]));
    }
}

/// The tie-break rule at the level of a resolving scan: when two
/// computations become ready on the same drive call, the lower-indexed
/// one is selected, and the higher-indexed one survives into the
/// remainder un-polled.
pub proof fn lemma_resolving_scan_tie_break<A: Computation>(
    pre: Seq<A>,
    idx: int,
    rest: Seq<A>,
    obs: Seq<Poll<A::Value, A::Error>>,
    j: int,
    k: int,
)
    requires
        resolving_scan(pre, idx, rest, obs),
        0 <= j < k < pre.len(),
        forall|m: int, post: A, r: Poll<A::Value, A::Error>|
            0 <= m < pre.len() && m != j && m != k && #[trigger] pre[m].polls_to(post, r)
                ==> r is Pending,
        forall|post: A, r: Poll<A::Value, A::Error>|
            #[trigger] pre[j].polls_to(post, r) ==> is_terminal(r),
        forall|post: A, r: Poll<A::Value, A::Error>|
            #[trigger] pre[k].polls_to(post, r) ==> is_terminal(r),
    ensures
        idx == j,
        rest[k - 1] == pre[k],
{
    lemma_first_terminal_characterization(obs);
    if idx > j {
        assert(pre[j].polls_to(rest[j], obs[j]));
        assert(!is_terminal(obs[j]));
    }
    if idx < j {
        let consumed = choose|consumed: A| #[trigger] pre[idx].polls_to(consumed, obs[idx]);
        assert(obs[idx] is Pending);
    }
}

} // verus!
