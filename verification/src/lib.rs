//! A MapReduce batch-execution library: a bounded FIFO work queue, the
//! controller's task-scheduling state machine (map phase, reduce phase,
//! shutdown), and the worker-side computation (deterministic partitioning
//! of map output, parsing, sorting and grouping of intermediate records).
//!
//! The controller hands out tasks on demand, detects stalled workers by
//! timer expiry, and reassigns their tasks under fresh identifiers; the
//! worker-side functions are pure so that a retried attempt reproduces
//! the original attempt's results.
use vstd::prelude::*;

pub mod apps;
pub mod coordinator;
pub mod kv;
pub mod manifest;
pub mod partition;
pub mod queue;
pub mod registry;
pub mod task;
pub mod text;
pub mod trusted;
pub mod worker;

verus! {

/// The pluggable per-job computation: `map` turns one input document
/// into key/value records, `reduce` folds the values collected under
/// one key into a single output value. An implementation is chosen per
/// job; the controller and worker depend only on this interface.
pub trait App {
    /// Emits the records of one input document.
    fn map(&self, k: String, v: String) -> Vec<(String, String)>;

    /// Folds the values grouped under one key.
    fn reduce(&self, k: String, vs: Vec<String>) -> String;
}

} // verus!
