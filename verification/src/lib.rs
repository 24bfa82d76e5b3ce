//! Race combinators over a set of independently progressing computations.
//!
//! The library drives an ordered, non-empty collection of asynchronous
//! computations and resolves as soon as one of them reaches a terminal
//! state:
//!
//! - [`select_all::select_all`] resolves on the first computation to reach
//!   any terminal state, success and failure alike, reporting its index
//!   and handing the remaining computations back to the caller.
//! - [`select_any::select_any`] resolves on the first computation to
//!   succeed; failures are discarded and the rest of the set is rescanned
//!   within the same drive call, with failure surfacing only once every
//!   computation has failed.
//!
//! A computation is anything implementing [`computation::Computation`]:
//! a single non-blocking poll operation that reports pending, success, or
//! failure, callable repeatedly until it returns a terminal result.
//! [`scripted::ScriptedComputation`] is a deterministic implementation
//! useful for exercising the combinators.
//!
//! Within one drive call the pending computations are polled strictly in
//! their original order and the first terminal result encountered wins,
//! so ties go to the lowest index. Both combinators are one-shot: on
//! resolution their own pending set is left empty, ownership of every
//! unresolved computation transfers to the caller, and driving them again
//! only reports not-ready.

pub mod computation;
pub mod order;
pub mod scan;
pub mod scripted;
pub mod select_all;
pub mod select_any;

pub use computation::{Computation, Poll};
pub use scripted::ScriptedComputation;
pub use select_all::{select_all, AllPoll, SelectAll};
pub use select_any::{select_any, AnyPoll, SelectAny};
