//! The computation capability the combinators consume.

use vstd::prelude::*;

verus! {

/// The result of driving a computation once: still pending, or a terminal
/// success or failure.
pub enum Poll<T, E> {
    Pending,
    Completed(T),
    Failed(E),
}

/// A unit of externally driven, lazily progressing work.
///
/// A computation exposes a single non-blocking `poll` operation, callable
/// repeatedly until it returns a terminal result. Once a terminal result
/// has been surfaced the computation counts as consumed (`done`) and must
/// not be polled again. Polling never changes a computation's identity.
pub trait Computation: Sized {
    type Value;
    type Error;

    /// Whether this computation has already surfaced its terminal result.
    spec fn done(&self) -> bool;

    /// A stable identity, used to track which computations remain under
    /// management as a pending set shrinks.
    spec fn id(&self) -> int;

    /// The implementor's own description of one poll transition: whether
    /// a computation in this state may end a poll call in state `post`
    /// with result `r`. An implementation promising nothing beyond the
    /// basic poll contract may define it as `true`; a deterministic one
    /// may pin the transition down exactly, and everything a combinator
    /// guarantees about observed results is then exact as well.
    spec fn polls_to(&self, post: Self, r: Poll<Self::Value, Self::Error>) -> bool;

    /// Drive the computation one step without blocking.
    fn poll(&mut self) -> (r: Poll<Self::Value, Self::Error>)
        requires
            !old(self).done(),
        ensures
            final(self).id() == old(self).id(),
            final(self).done() <==> !(r is Pending),
            old(self).polls_to(*final(self), r),
    ;
}

/// The identities of a sequence of computations, in order.
pub open spec fn ids<A: Computation>(s: Seq<A>) -> Seq<int> {
    s.map_values(|a: A| a.id())
}

/// Every computation in the sequence may still be polled.
pub open spec fn all_live<A: Computation>(s: Seq<A>) -> bool {
    forall|i: int| 0 <= i < s.len() ==> !(#[trigger] s[i]).done()
}

} // verus!
