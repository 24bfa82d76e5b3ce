//! A deterministic computation with a fixed schedule.

use vstd::prelude::*;

use crate::computation::{Computation, Poll};

verus! {

/// A computation that reports pending for a fixed number of polls and
/// then surfaces a fixed terminal outcome.
///
/// It carries a caller-chosen tag as its identity, so that the
/// computations handed back by a combinator can be told apart. Useful for
/// exercising the combinators deterministically.
pub struct ScriptedComputation<T, E> {
    tag: u64,
    script: Option<(u64, Result<T, E>)>,
}

impl<T, E> ScriptedComputation<T, E> {
    /// A computation that is pending for `delay` polls and then resolves
    /// with `outcome`: a success for `Ok`, a failure for `Err`.
    pub fn new(tag: u64, delay: u64, outcome: Result<T, E>) -> (r: Self)
        ensures
            !r.done(),
            r.id() == tag as int,
            r.plan() == Some((delay, outcome)),
    {
        ScriptedComputation { tag, script: Some((delay, outcome)) }
    }

    /// The polls still owed before the terminal outcome, and that
    /// outcome; nothing once the computation has been consumed.
    pub closed spec fn plan(self) -> Option<(u64, Result<T, E>)> {
        self.script
    }

    /// The caller-chosen tag identifying this computation.
    pub fn tag(&self) -> (t: u64)
        ensures
            t as int == self.id(),
    {
        self.tag
    }
}

impl<T, E> Computation for ScriptedComputation<T, E> {
    type Value = T;

    type Error = E;

    closed spec fn done(&self) -> bool {
        self.script is None
    }

    closed spec fn id(&self) -> int {
        self.tag as int
    }

    /// The schedule is deterministic: a pending step counts the delay
    /// down, and once the delay is spent the scheduled outcome surfaces.
    open spec fn polls_to(&self, post: Self, r: Poll<T, E>) -> bool {
        match self.plan() {
            Some((delay, outcome)) => {
                &&& post.id() == self.id()
                &&& if delay > 0 {
                    &&& r is Pending
                    &&& post.plan() == Some(((delay - 1) as u64, outcome))
                } else {
                    &&& r == (match outcome {
                        Result::Ok(v) => Poll::<T, E>::Completed(v),
                        Result::Err(e) => Poll::<T, E>::Failed(e),
                    })
                    &&& post.plan() is None
                }
            },
            None => false,
        }
    }

    fn poll(&mut self) -> (r: Poll<T, E>) {
        let step = self.script.take();
        match step {
            Option::Some((delay, outcome)) => {
                if delay > 0 {
                    self.script = Option::Some((delay - 1, outcome));
                    Poll::Pending
                } else {
                    match outcome {
                        Result::Ok(v) => Poll::Completed(v),
                        Result::Err(e) => Poll::Failed(e),
                    }
                }
            },
            Option::None => vstd::pervasive::unreached(),
        }
    }
}

} // verus!
