//! Sampling core of a heap-allocation profiler: bounded call stacks compared by
//! raw addresses, an aggregator of signed byte deltas per distinct stack, and
//! the collapsed-stack report text.

pub mod stack;
pub mod totals;
pub mod aggregator;
pub mod merge;
pub mod report;
