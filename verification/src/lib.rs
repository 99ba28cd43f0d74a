//! A sans-I/O core for an in-process parallel map/reduce engine.
//!
//! The crate decides what a run does; a driver executes it. The driver
//! launches one concurrent task per work item, waits for every task to settle
//! and hands the outcomes back. Everything in between is decided here:
//! which items the map phase works on, which outputs survive a phase, how
//! the surviving key/value pairs are grouped, and which reduce tasks follow.
//!
//! A run has four steps, two before and two after the points where the
//! driver waits:
//!
//! 1. [`Framework::map_tasks`] gives the items to launch map tasks for;
//! 2. [`Framework::map`] takes the outcomes of the map tasks and keeps the
//!    pairs of those that completed;
//! 3. [`Framework::reduce_tasks`] groups the pairs by key and gives one
//!    reduce task per key;
//! 4. [`Framework::reduce`] takes the outcomes of the reduce tasks.
//!
//! A task that fails costs the run its own contribution and nothing else.

pub mod aggregator;
pub mod engine;
pub mod task_runner;

pub use aggregator::group;
pub use engine::Framework;
pub use task_runner::{fan_in, Phase, Settled, TaskFailure, TaskOutcome};
