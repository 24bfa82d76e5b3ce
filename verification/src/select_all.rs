//! Racing a list of computations until the first of them finishes either way.

use vstd::prelude::*;

use crate::computation::{all_live, ids, Computation, Poll};
use crate::scan::{
    first_terminal, is_terminal, lemma_first_terminal_none, lemma_first_terminal_of_scan,
    polled_each, resolving_scan,
};

verus! {

/// Combinator racing a list of computations, resolving on the first of
/// them to reach any terminal state, success and failure alike.
///
/// This is created by the `select_all` function.
pub struct SelectAll<A: Computation> {
    inner: Vec<A>,
}

/// The result of driving a [`SelectAll`] one step.
///
/// On resolution it carries the terminal value or error of the lowest-
/// indexed computation to finish, that computation's index in the pending
/// set, and the remaining computations, moved out to the caller in their
/// original relative order. The combinator resolves at most once: its own
/// pending set is left empty, and driving it further only reports
/// `NotReady`.
pub enum AllPoll<A: Computation> {
    NotReady,
    Completed(A::Value, usize, Vec<A>),
    Failed(A::Error, usize, Vec<A>),
}

/// Creates a new combinator which will race every computation in `items`.
///
/// The pending set keeps the order of `items`; that order is both the
/// tie-break key and the index reported on resolution. An empty `items`
/// is a caller logic error with no sensible resolution value, and is
/// excluded by precondition.
pub fn select_all<A: Computation>(items: Vec<A>) -> (r: SelectAll<A>)
    requires
        items@.len() > 0,
        all_live(items@),
    ensures
        r.pending() == items@,
{
    SelectAll { inner: items }
}

impl<A: Computation> SelectAll<A> {
    /// The computations still under this combinator's management.
    pub closed spec fn pending(self) -> Seq<A> {
        self.inner@
    }

    /// Drive the race one step: scan the pending computations in index
    /// order, polling each at most once, and stop at the first terminal
    /// result observed.
    ///
    /// If nothing is terminal this step, the pending set is unchanged:
    /// the same computations, in the same order. Otherwise the lowest-
    /// indexed computation to finish is removed and reported together
    /// with its index, and ownership of every other computation moves to
    /// the caller, in the original relative order, none of them consumed;
    /// the combinator's own pending set is left permanently empty.
    pub fn poll(&mut self) -> (r: AllPoll<A>)
        requires
            all_live(old(self).pending()),
        ensures
            match r {
                AllPoll::NotReady => {
                    &&& ids(final(self).pending()) == ids(old(self).pending())
                    &&& final(self).pending().len() == old(self).pending().len()
                    &&& all_live(final(self).pending())
                    &&& exists|obs: Seq<Poll<A::Value, A::Error>>|
                        {
                            &&& #[trigger] polled_each(
                                old(self).pending(),
                                final(self).pending(),
                                obs,
                            )
                            &&& first_terminal(obs) is None
                        }
                },
                AllPoll::Completed(v, idx, rest) => {
                    &&& final(self).resolved(*old(self), idx, rest@)
                    &&& exists|obs: Seq<Poll<A::Value, A::Error>>|
                        {
                            &&& #[trigger] resolving_scan(
                                old(self).pending(),
                                idx as int,
                                rest@,
                                obs,
                            )
                            &&& obs[idx as int] == Poll::<A::Value, A::Error>::Completed(v)
                        }
                },
                AllPoll::Failed(e, idx, rest) => {
                    &&& final(self).resolved(*old(self), idx, rest@)
                    &&& exists|obs: Seq<Poll<A::Value, A::Error>>|
                        {
                            &&& #[trigger] resolving_scan(
                                old(self).pending(),
                                idx as int,
                                rest@,
                                obs,
                            )
                            &&& obs[idx as int] == Poll::<A::Value, A::Error>::Failed(e)
                        }
                },
            },
            old(self).pending().len() == 0 ==> r is NotReady,
    {
        let ghost orig: Seq<A> = self.inner@;
        let ghost mut obs: Seq<Poll<A::Value, A::Error>> = Seq::empty();
        let mut i: usize = 0;
        while i < self.inner.len()
            invariant
                orig == old(self).pending(),
                i <= self.inner@.len(),
                self.inner@.len() == orig.len(),
                ids(self.inner@) == ids(orig),
                all_live(self.inner@),
                obs.len() == i,
                forall|j: int| 0 <= j < i ==> !is_terminal(#[trigger] obs[j]),
                forall|j: int| 0 <= j < i ==> orig[j].polls_to(#[trigger] self.inner@[j], obs[j]),
                forall|j: int| i <= j < self.inner@.len() ==> #[trigger] self.inner@[j] == orig[j],
            decreases self.inner@.len() - i,
        {
            let ghost before: Seq<A> = self.inner@;
            let r = self.inner[i].poll();
            proof {
                obs = obs.push(r);
                assert forall|j: int| 0 <= j < self.inner@.len() implies #[trigger] ids(
                    self.inner@,
                )[j] == ids(orig)[j] by {
                    if j != i {
                        assert(self.inner@[j] == before[j]);
                        assert(ids(before)[j] == before[j].id());
                    }
                }
                assert(ids(self.inner@) =~= ids(orig));
            }
            match r {
                Poll::Pending => {
                    proof {
                        assert forall|j: int|
                            0 <= j < self.inner@.len() implies !(#[trigger] self.inner@[j]).done() by {
                            if j != i {
                                assert(self.inner@[j] == before[j]);
                            }
                        }
                    }
                    i = i + 1;
                },
                Poll::Completed(v) => {
                    let ghost polled: Seq<A> = self.inner@;
                    let _selected = self.inner.remove(i);
                    let mut rest: Vec<A> = Vec::new();
                    core::mem::swap(&mut rest, &mut self.inner);
                    proof {
                        assert forall|j: int|
                            0 <= j < polled.len() && j != i implies !(#[trigger] polled[j]).done() by {
                            assert(polled[j] == before[j]);
                        }
                        Self::lemma_remainder(polled, orig, i as int);
                        lemma_first_terminal_of_scan(obs);
                        polled.remove_ensures(i as int);
                        assert(orig[i as int].polls_to(_selected, obs[i as int]));
                        assert(resolving_scan(orig, i as int, rest@, obs));
                    }
                    return AllPoll::Completed(v, i, rest);
                },
                Poll::Failed(e) => {
                    let ghost polled: Seq<A> = self.inner@;
                    let _selected = self.inner.remove(i);
                    let mut rest: Vec<A> = Vec::new();
                    core::mem::swap(&mut rest, &mut self.inner);
                    proof {
                        assert forall|j: int|
                            0 <= j < polled.len() && j != i implies !(#[trigger] polled[j]).done() by {
                            assert(polled[j] == before[j]);
                        }
                        Self::lemma_remainder(polled, orig, i as int);
                        lemma_first_terminal_of_scan(obs);
                        polled.remove_ensures(i as int);
                        assert(orig[i as int].polls_to(_selected, obs[i as int]));
                        assert(resolving_scan(orig, i as int, rest@, obs));
                    }
                    return AllPoll::Failed(e, i, rest);
                },
            }
        }
        proof {
            lemma_first_terminal_none(obs);
            assert(polled_each(orig, self.inner@, obs));
        }
        AllPoll::NotReady
    }

    /// After a scan stops at index `i` of `polled`, removing that entry
    /// leaves the other computations' identities in their original
    /// relative order, all of them still pollable.
    proof fn lemma_remainder(polled: Seq<A>, orig: Seq<A>, i: int)
        requires
            polled.len() == orig.len(),
            0 <= i < polled.len(),
            ids(polled) == ids(orig),
            forall|j: int| 0 <= j < polled.len() && j != i ==> !(#[trigger] polled[j]).done(),
        ensures
            ids(polled.remove(i)) == ids(orig).remove(i),
            all_live(polled.remove(i)),
    {
        polled.remove_ensures(i);
        ids(orig).remove_ensures(i);
        assert forall|j: int| 0 <= j < polled.remove(i).len() implies #[trigger] ids(
            polled.remove(i),
        )[j] == ids(orig).remove(i)[j] by {
            if j < i {
                assert(polled.remove(i)[j] == polled[j]);
                assert(ids(polled)[j] == polled[j].id());
            } else {
                assert(polled.remove(i)[j] == polled[j + 1]);
                assert(ids(polled)[j + 1] == polled[j + 1].id());
            }
        }
        assert(ids(polled.remove(i)) =~= ids(orig).remove(i));
        assert forall|j: int|
            0 <= j < polled.remove(i).len() implies !(#[trigger] polled.remove(i)[j]).done() by {}
    }

    /// What resolution means for the pending set: the selected index was
    /// in range, the remainder holds the identities of every other
    /// computation in the original relative order, none of the remainder
    /// is consumed, and the combinator itself is left empty.
    pub open spec fn resolved(self, prev: Self, idx: usize, rest: Seq<A>) -> bool {
        &&& (idx as int) < prev.pending().len()
        &&& ids(rest) == ids(prev.pending()).remove(idx as int)
        &&& all_live(rest)
        &&& self.pending().len() == 0
    }
}

} // verus!
