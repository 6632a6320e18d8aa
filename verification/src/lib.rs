//! Dependency-ordered upload scheduling for closures of content-addressed
//! store artifacts.
//!
//! A closure is a set of artifacts together with their declared references.
//! [`graph::DependencyGraph`] turns such a closure into a directed dependency
//! graph, and [`scheduler::Scheduler`] drives an incremental upload of it:
//! it hands out the artifacts whose dependencies are already uploaded, and
//! unlocks dependents the moment their last outstanding dependency completes.

pub mod artifact;
pub mod error;
pub mod graph;
pub mod scheduler;

