//! Telemetry, navigation and command engine of a terminal process monitor.
//!
//! The library turns point-in-time process-table samples into a stable,
//! navigable model: a parent-linked process forest, per-thread CPU rates,
//! paged and sortable list views with an optional frozen snapshot, and a
//! dispatcher that re-validates a target before acting on it.

pub mod dispatch;
pub mod meminfo;
pub mod order;
pub mod sampler;
pub mod state;
pub mod tree;
pub mod units;
pub mod viewport;
