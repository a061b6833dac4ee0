//! A library to manage a graph of interdependent, typed computations.
//!
//! Named transformations (pure functions with declared input and output
//! types) are wired into a directed dependency graph.  Connections are
//! type-checked and cycle-checked when they are made, outputs are computed
//! on demand through a type-checked invocation session, and results are
//! cached and recomputed only when the graph has changed since they were
//! last computed.

pub mod dst;
pub mod serial;
pub mod transform;
pub mod values;
