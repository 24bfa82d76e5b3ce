//! Racing a list of computations until the first of them succeeds.

use vstd::prelude::*;

use crate::computation::{all_live, ids, Computation, Poll};
use crate::order::{lemma_subseq_refl, lemma_subseq_remove, lemma_subseq_trans, subseq_of};
use crate::scan::{
    first_terminal, is_terminal, lemma_first_terminal_none, lemma_first_terminal_of_scan,
    polled_each, resolving_scan,
};

verus! {

/// Combinator racing a list of computations, resolving on the first of
/// them to succeed. Unlike `SelectAll`, failures are discarded and the
/// rest of the set is rescanned within the same drive call; only when
/// every computation has failed does the most recently observed failure
/// surface.
///
/// This is created by the `select_any` function.
pub struct SelectAny<A: Computation> {
    inner: Vec<A>,
}

/// The result of driving a [`SelectAny`] one step.
///
/// On success it carries the value of the first computation to succeed
/// together with the computations not yet consumed, in their original
/// relative order. On failure the pending set has been exhausted: every
/// computation failed, and the error is the last failure observed, so no
/// remaining set is handed back. The combinator resolves at most once:
/// afterwards its own pending set is empty and driving it further only
/// reports `NotReady`.
pub enum AnyPoll<A: Computation> {
    NotReady,
    Completed(A::Value, Vec<A>),
    Failed(A::Error),
}

/// The outcome of one scan pass: nothing terminal, or the lowest-indexed
/// terminal computation's result, that computation having been removed
/// from the pending set.
enum PassOutcome<A: Computation> {
    Nothing,
    Success(A::Value),
    Failure(A::Error),
}

/// A chain of scan passes, each stopping at a failure and discarding the
/// failing computation. Each step records the selected position, the
/// poll results that pass observed, and the pending set it left behind,
/// which the next pass starts from; `post` is what is left after the
/// whole chain. An empty chain means no failure was consumed.
pub open spec fn failure_cascade<A: Computation>(
    pre: Seq<A>,
    post: Seq<A>,
    steps: Seq<(int, Seq<Poll<A::Value, A::Error>>, Seq<A>)>,
) -> bool
    decreases steps.len(),
{
    if steps.len() == 0 {
        post == pre
    } else {
        &&& resolving_scan(pre, steps[0].0, steps[0].2, steps[0].1)
        &&& steps[0].1[steps[0].0] is Failed
        &&& failure_cascade(steps[0].2, post, steps.drop_first())
    }
}

/// Each pass of a failure chain consumes exactly one computation, so
/// what is left after the chain is the starting set less one computation
/// per discarded failure.
pub proof fn lemma_cascade_len<A: Computation>(
    pre: Seq<A>,
    post: Seq<A>,
    steps: Seq<(int, Seq<Poll<A::Value, A::Error>>, Seq<A>)>,
)
    requires
        failure_cascade(pre, post, steps),
    ensures
        post.len() == pre.len() - steps.len(),
        steps.len() <= pre.len(),
    decreases steps.len(),
{
    if steps.len() > 0 {
        lemma_cascade_len(steps[0].2, post, steps.drop_first());
    }
}

/// Extending a chain of failure passes by one more keeps it a chain.
proof fn lemma_cascade_snoc<A: Computation>(
    pre: Seq<A>,
    mid: Seq<A>,
    post: Seq<A>,
    steps: Seq<(int, Seq<Poll<A::Value, A::Error>>, Seq<A>)>,
    idx: int,
    obs: Seq<Poll<A::Value, A::Error>>,
)
    requires
        failure_cascade(pre, mid, steps),
        resolving_scan(mid, idx, post, obs),
        obs[idx] is Failed,
    ensures
        failure_cascade(pre, post, steps.push((idx, obs, post))),
    decreases steps.len(),
{
    let grown = steps.push((idx, obs, post));
    assert(grown.len() == steps.len() + 1);
    assert(grown[0] == if steps.len() == 0 {
        (idx, obs, post)
    } else {
        steps[0]
    });
    if steps.len() == 0 {
        assert(grown.drop_first() =~= Seq::empty());
        assert(failure_cascade(grown[0].2, post, grown.drop_first()));
        assert(mid == pre);
        assert(resolving_scan(pre, grown[0].0, grown[0].2, grown[0].1));
    } else {
        lemma_cascade_snoc(steps[0].2, mid, post, steps.drop_first(), idx, obs);
        assert(grown.drop_first() =~= steps.drop_first().push((idx, obs, post)));
        assert(failure_cascade(grown[0].2, post, grown.drop_first()));
        assert(resolving_scan(pre, grown[0].0, grown[0].2, grown[0].1));
    }
    assert(grown[0].1[grown[0].0] is Failed);
}

/// Creates a new combinator which will race every computation in `items`,
/// tolerating individual failures until any of them succeeds.
///
/// The pending set keeps the order of `items`. An empty `items` is a
/// caller logic error with no sensible resolution value, and is excluded
/// by precondition.
pub fn select_any<A: Computation>(items: Vec<A>) -> (r: SelectAny<A>)
    requires
        items@.len() > 0,
        all_live(items@),
    ensures
        r.pending() == items@,
{
    SelectAny { inner: items }
}

impl<A: Computation> SelectAny<A> {
    /// The computations still under this combinator's management.
    pub closed spec fn pending(self) -> Seq<A> {
        self.inner@
    }

    /// Drive the race one step: scan the pending computations in index
    /// order, stopping at the first terminal result; a failure is removed
    /// and the now-smaller set is rescanned from the top within the same
    /// call, so several failing computations may be consumed in one step.
    ///
    /// Every outcome is described by a chain of failure passes starting
    /// from the old pending set. On success, the chain ends in a pass
    /// that selected a succeeding computation, whose value is reported;
    /// every computation not consumed moves to the caller, in the
    /// original relative order, none of them consumed, and the
    /// combinator's own pending set is left permanently empty. A failure
    /// surfaces only once it has emptied the pending set, and is then
    /// the most recently observed one. When nothing is terminal, the
    /// chain ends in a pass that polled each remaining computation once
    /// and observed no terminal result, and the computations that remain
    /// are exactly those not consumed as failures, still in their
    /// original relative order.
    pub fn poll(&mut self) -> (r: AnyPoll<A>)
        requires
            all_live(old(self).pending()),
        ensures
            match r {
                AnyPoll::NotReady => {
                    &&& all_live(final(self).pending())
                    &&& subseq_of(ids(final(self).pending()), ids(old(self).pending()))
                    &&& final(self).pending().len() <= old(self).pending().len()
                    &&& old(self).pending().len() > 0 ==> final(self).pending().len() > 0
                    &&& exists|
                        steps: Seq<(int, Seq<Poll<A::Value, A::Error>>, Seq<A>)>,
                        mid: Seq<A>,
                    |
                        {
                            &&& #[trigger] failure_cascade(old(self).pending(), mid, steps)
                            &&& exists|obs: Seq<Poll<A::Value, A::Error>>|
                                {
                                    &&& #[trigger] polled_each(mid, final(self).pending(), obs)
                                    &&& first_terminal(obs) is None
                                }
                        }
                },
                AnyPoll::Completed(v, rest) => {
                    &&& all_live(rest@)
                    &&& subseq_of(ids(rest@), ids(old(self).pending()))
                    &&& rest@.len() < old(self).pending().len()
                    &&& final(self).pending().len() == 0
                    &&& exists|
                        steps: Seq<(int, Seq<Poll<A::Value, A::Error>>, Seq<A>)>,
                        mid: Seq<A>,
                    |
                        {
                            &&& #[trigger] failure_cascade(old(self).pending(), mid, steps)
                            &&& exists|idx: int, obs: Seq<Poll<A::Value, A::Error>>|
                                {
                                    &&& #[trigger] resolving_scan(mid, idx, rest@, obs)
                                    &&& obs[idx] == Poll::<A::Value, A::Error>::Completed(v)
                                }
                        }
                },
                AnyPoll::Failed(e) => {
                    &&& old(self).pending().len() > 0
                    &&& final(self).pending().len() == 0
                    &&& exists|
                        steps: Seq<(int, Seq<Poll<A::Value, A::Error>>, Seq<A>)>,
                        mid: Seq<A>,
                    |
                        {
                            &&& #[trigger] failure_cascade(old(self).pending(), mid, steps)
                            &&& mid.len() == 1
                            &&& exists|obs: Seq<Poll<A::Value, A::Error>>|
                                {
                                    &&& #[trigger] resolving_scan(mid, 0, Seq::<A>::empty(), obs)
                                    &&& obs[0] == Poll::<A::Value, A::Error>::Failed(e)
                                }
                        }
                },
            },
            old(self).pending().len() == 0 ==> r is NotReady,
    {
        let ghost orig: Seq<A> = self.inner@;
        let ghost mut steps: Seq<(int, Seq<Poll<A::Value, A::Error>>, Seq<A>)> = Seq::empty();
        proof {
            lemma_subseq_refl(ids(orig));
        }
        loop
            invariant
                orig == old(self).pending(),
                all_live(self.inner@),
                subseq_of(ids(self.inner@), ids(orig)),
                self.inner@.len() <= orig.len(),
                orig.len() > 0 ==> self.inner@.len() > 0,
                orig.len() == 0 ==> self.inner@ == orig,
                failure_cascade(orig, self.inner@, steps),
            decreases self.inner@.len(),
        {
            let ghost cur: Seq<A> = self.inner@;
            let (outcome, Ghost(sel), Ghost(obs)) = self.scan_pass();
            match outcome {
                PassOutcome::Nothing => {
                    return AnyPoll::NotReady;
                },
                PassOutcome::Success(v) => {
                    let mut rest: Vec<A> = Vec::new();
                    core::mem::swap(&mut rest, &mut self.inner);
                    proof {
                        let idx = choose|idx: int|
                            0 <= idx < cur.len() && ids(rest@) == #[trigger] ids(cur).remove(idx);
                        lemma_subseq_remove(ids(cur), idx);
                        lemma_subseq_trans(ids(rest@), ids(cur), ids(orig));
                        assert(resolving_scan(cur, sel, rest@, obs));
                    }
                    return AnyPoll::Completed(v, rest);
                },
                PassOutcome::Failure(e) => {
                    if self.inner.is_empty() {
                        proof {
                            assert(self.inner@ =~= Seq::<A>::empty());
                            assert(sel == 0);
                            assert(resolving_scan(cur, 0, Seq::<A>::empty(), obs));
                        }
                        return AnyPoll::Failed(e);
                    }
                    proof {
                        let idx = choose|idx: int|
                            0 <= idx < cur.len() && ids(self.inner@) == #[trigger] ids(
                                cur,
                            ).remove(idx);
                        lemma_subseq_remove(ids(cur), idx);
                        lemma_subseq_trans(ids(self.inner@), ids(cur), ids(orig));
                        lemma_cascade_snoc(orig, cur, self.inner@, steps, sel, obs);
                        steps = steps.push((sel, obs, self.inner@));
                    }
                },
            }
        }
    }

    /// One scan pass: poll the pending computations in index order and
    /// stop at the first terminal result, removing that computation from
    /// the pending set. When nothing is terminal, the pending set is
    /// unchanged: the same computations, in the same order. The ghost
    /// results carry the selected position and the observed poll results.
    fn scan_pass(&mut self) -> (r: (
        PassOutcome<A>,
        Ghost<int>,
        Ghost<Seq<Poll<A::Value, A::Error>>>,
    ))
        requires
            all_live(old(self).pending()),
        ensures
            match r.0 {
                PassOutcome::Nothing => {
                    &&& ids(final(self).pending()) == ids(old(self).pending())
                    &&& final(self).pending().len() == old(self).pending().len()
                    &&& all_live(final(self).pending())
                    &&& polled_each(old(self).pending(), final(self).pending(), r.2@)
                    &&& first_terminal(r.2@) is None
                },
                PassOutcome::Success(v) => {
                    &&& final(self).pass_removed(*old(self))
                    &&& resolving_scan(old(self).pending(), r.1@, final(self).pending(), r.2@)
                    &&& r.2@[r.1@] == Poll::<A::Value, A::Error>::Completed(v)
                },
                PassOutcome::Failure(e) => {
                    &&& final(self).pass_removed(*old(self))
                    &&& resolving_scan(old(self).pending(), r.1@, final(self).pending(), r.2@)
                    &&& r.2@[r.1@] == Poll::<A::Value, A::Error>::Failed(e)
                },
            },
            old(self).pending().len() == 0 ==> r.0 is Nothing,
    {
        let ghost orig: Seq<A> = self.inner@;
        let ghost mut obs: Seq<Poll<A::Value, A::Error>> = Seq::empty();
        let mut i: usize = 0;
        while i < self.inner.len()
            invariant
                orig == old(self).pending(),
                i <= self.inner@.len(),
                self.inner@.len() == orig.len(),
                ids(self.inner@) == ids(orig),
                all_live(self.inner@),
                obs.len() == i,
                forall|j: int| 0 <= j < i ==> !is_terminal(#[trigger] obs[j]),
                forall|j: int| 0 <= j < i ==> orig[j].polls_to(#[trigger] self.inner@[j], obs[j]),
                forall|j: int| i <= j < self.inner@.len() ==> #[trigger] self.inner@[j] == orig[j],
            decreases self.inner@.len() - i,
        {
            let ghost before: Seq<A> = self.inner@;
            let r = self.inner[i].poll();
            proof {
                obs = obs.push(r);
                assert forall|j: int| 0 <= j < self.inner@.len() implies #[trigger] ids(
                    self.inner@,
                )[j] == ids(orig)[j] by {
                    if j != i {
                        assert(self.inner@[j] == before[j]);
                        assert(ids(before)[j] == before[j].id());
                    }
                }
                assert(ids(self.inner@) =~= ids(orig));
            }
            match r {
                Poll::Pending => {
                    proof {
                        assert forall|j: int|
                            0 <= j < self.inner@.len() implies !(#[trigger] self.inner@[j]).done() by {
                            if j != i {
                                assert(self.inner@[j] == before[j]);
                            }
                        }
                    }
                    i = i + 1;
                },
                Poll::Completed(v) => {
                    let ghost polled: Seq<A> = self.inner@;
                    let selected = self.inner.remove(i);
                    proof {
                        Self::lemma_pass_removed(polled, orig, before, i as int);
                        lemma_first_terminal_of_scan(obs);
                        polled.remove_ensures(i as int);
                        assert(orig[i as int].polls_to(selected, obs[i as int]));
                        assert(resolving_scan(orig, i as int, self.inner@, obs));
                    }
                    return (PassOutcome::Success(v), Ghost(i as int), Ghost(obs));
                },
                Poll::Failed(e) => {
                    let ghost polled: Seq<A> = self.inner@;
                    let selected = self.inner.remove(i);
                    proof {
                        Self::lemma_pass_removed(polled, orig, before, i as int);
                        lemma_first_terminal_of_scan(obs);
                        polled.remove_ensures(i as int);
                        assert(orig[i as int].polls_to(selected, obs[i as int]));
                        assert(resolving_scan(orig, i as int, self.inner@, obs));
                    }
                    return (PassOutcome::Failure(e), Ghost(i as int), Ghost(obs));
                },
            }
        }
        proof {
            lemma_first_terminal_none(obs);
            assert(polled_each(orig, self.inner@, obs));
        }
        (PassOutcome::Nothing, Ghost(0int), Ghost(obs))
    }

    /// What one pass's removal means for the pending set: exactly one
    /// computation is gone, and the identities of the others stand in
    /// their original relative order, none of them consumed.
    spec fn pass_removed(self, prev: Self) -> bool {
        &&& exists|idx: int|
            0 <= idx < prev.pending().len() && ids(self.pending()) == #[trigger] ids(
                prev.pending(),
            ).remove(idx)
        &&& self.pending().len() == prev.pending().len() - 1
        &&& all_live(self.pending())
    }

    /// After a scan stops at index `i` of `polled`, removing that entry
    /// leaves the other computations' identities in their original
    /// relative order, all of them still pollable.
    proof fn lemma_pass_removed(polled: Seq<A>, orig: Seq<A>, before: Seq<A>, i: int)
        requires
            polled.len() == orig.len(),
            0 <= i < polled.len(),
            ids(polled) == ids(orig),
            forall|j: int| 0 <= j < before.len() ==> !(#[trigger] before[j]).done(),
            before.len() == polled.len(),
            forall|j: int| 0 <= j < polled.len() && j != i ==> polled[j] == before[j],
        ensures
            ids(polled.remove(i)) == ids(orig).remove(i),
            all_live(polled.remove(i)),
    {
        polled.remove_ensures(i);
        ids(orig).remove_ensures(i);
        assert forall|j: int| 0 <= j < polled.remove(i).len() implies #[trigger] ids(
            polled.remove(i),
        )[j] == ids(orig).remove(i)[j] by {
            if j < i {
                assert(polled.remove(i)[j] == polled[j]);
                assert(ids(polled)[j] == polled[j].id());
            } else {
                assert(polled.remove(i)[j] == polled[j + 1]);
                assert(ids(polled)[j + 1] == polled[j + 1].id());
            }
        }
        assert(ids(polled.remove(i)) =~= ids(orig).remove(i));
        assert forall|j: int|
            0 <= j < polled.remove(i).len() implies !(#[trigger] polled.remove(i)[j]).done() by {
            if j < i {
                assert(polled.remove(i)[j] == polled[j]);
                assert(polled[j] == before[j]);
            } else {
                assert(polled.remove(i)[j] == polled[j + 1]);
                assert(polled[j + 1] == before[j + 1]);
            }
        }
    }
}

} // verus!
