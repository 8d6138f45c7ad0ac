//! A local, iterative build orchestrator.
//!
//! Targets form a dependency graph; the scheduler builds a target once every
//! dependency has been built, skips work whose fingerprinted inputs and
//! outputs are unchanged since the last successful execution, marks targets
//! as changed when a watched path prefix sees a filesystem event, and drives
//! the supervision of long-running processes that are restarted on rebuild.

pub mod domain;
pub mod fingerprint;
pub mod graph;
pub mod incremental;
pub mod scheduler;
pub mod supervisor;

pub use domain::Target;
