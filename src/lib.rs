//! A discrete-time simulator of fixed-priority preemptive scheduling over
//! three task archetypes that contend for one shared buffer, with priority
//! elevation to resolve priority inversion.
//!
//! `parse` reads a job list, `scheduler` runs it tick by tick, and `trace`
//! renders what the run reports.

use vstd::prelude::*;

pub mod buffer;
pub mod job;
pub mod parse;
pub mod scheduler;
pub mod trace;

verus! {

} // verus!
