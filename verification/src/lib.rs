//! Core of a concurrent web crawler: link resolution, the shared
//! frontier (pending queue plus visited set), and the per-worker step
//! logic that drives a crawl from a seed address to a visit budget.
//!
//! Network transport, task spawning and command-line handling live with
//! the caller; this crate holds the data structures and decisions.

pub mod frontier;
pub mod resolver;
pub mod worker;
