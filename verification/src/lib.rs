//! Disk-usage aggregation: trees of filesystem entries, each carrying the
//! cumulative byte size of everything beneath it.
//!
//! The library decides and computes; it never touches the disk. A caller
//! walks the filesystem and hands over what it finds as plain values:
//!
//! - `classify` turns the answer of one metadata query into the kind of an
//!   entry;
//! - `scan` is the sequential scanner, a state machine that takes the events
//!   of a walk one by one and ends with the finished tree;
//! - `turbo` is the parallel scanner, one directory at a time: what a worker
//!   counts itself, what it hands out, and how it joins what comes back;
//! - `walk` states on whole walks what both scanners compute, and proves
//!   that they do;
//! - `node` holds the tree, `flatten` its largest nodes in ranking order,
//!   `store` the finished trees by root;
//! - `progress` and `counter` hold the snapshots of a running scan, the
//!   throttle on their delivery and the counter that the workers share.

pub mod classify;
pub mod counter;
pub mod error;
pub mod flatten;
pub mod label;
pub mod node;
pub mod progress;
pub mod scan;
pub mod store;
pub mod turbo;
pub mod walk;
