//! `join` and `select` over a fixed group of independently progressing tasks.
//!
//! A task is anything that can be asked to take one step and answers with a
//! result, a failure, or "not yet" (see [`Task`]). [`Joiner`] drives every
//! task to completion and hands back all results in slot order; [`SelectFuture`]
//! hands back the first result it observes, starting each pass at a slot drawn
//! from a [`FairRng`] so that no slot is favoured when several are ready.
use vstd::prelude::*;

pub mod join;
pub mod rng;
pub mod select;
pub mod task;

pub use join::{FutStatus, Join, Joiner};
pub use rng::{random, FairRng};
pub use select::{Select, SelectFuture};
pub use task::{Report, Step, Task};

verus! {

} // verus!
