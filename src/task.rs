//! What a task is, and what a slot reported when it was last driven.
use vstd::prelude::*;

verus! {

/// The answer of one attempt to drive a task forward.
#[derive(Debug, PartialEq, Eq)]
pub enum Step<O, E> {
    /// The task produced its final result.
    Ready(O),
    /// The task is still suspended and must be driven again later.
    Pending,
    /// The task failed instead of producing a result.
    Failed(E),
}

/// A suspended computation that can be asked to take one step.
///
/// `C` is the context that the host scheduler hands to every step (a waker,
/// typically). Once a step has answered `Ready` or `Failed`, the engines of
/// this library never drive that task again.
pub trait Task<C> {
    type Output;
    type Error;

    /// Drives the computation forward once; never blocks.
    fn poll_step(&mut self, cx: &mut C) -> Step<Self::Output, Self::Error>;
}

/// What one slot reported during the most recent pass of an engine.
pub enum Report<O> {
    /// The slot was not driven in that pass.
    Unpolled,
    /// The slot was driven and is still suspended.
    Pending,
    /// The slot was driven and produced this result.
    Ready(O),
    /// The slot was driven and failed.
    Failed,
}

/// The report that matches an engine's answer: `Ready(o)` for `Ready(o)`,
/// `Failed` for a failure, `Pending` for "not yet".
pub open spec fn report_of<O, E>(r: Step<O, E>) -> Report<O> {
    match r {
        Step::Ready(o) => Report::Ready(o),
        Step::Pending => Report::Pending,
        Step::Failed(_) => Report::Failed,
    }
}

} // verus!
