//! A dependency-aware scheduler for recurring jobs.
//!
//! Jobs are stored in a directed acyclic graph: an edge runs from each
//! dependency ("parent") to the job that depends on it ("child"). Triggering
//! a job records that it has just refreshed, and reports which of its direct
//! dependents have thereby become due to run.

use vstd::prelude::*;

pub mod engine;
pub mod queue;
pub mod snapshot;

verus! {

pub use crate::engine::Eventuler;
pub use crate::engine::EventulerError;
pub use crate::engine::Job;
pub use crate::engine::Task;
pub use crate::snapshot::Graph;
pub use crate::queue::Request;

} // verus!
