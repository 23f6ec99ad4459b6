//! Verified core of a repository backup tool: a glob-based matching engine,
//! a filter pipeline over discovered repository records, and the decision
//! and aggregation logic of a bounded-parallelism backup scheduler.
//!
//! All remote discovery, subprocess execution and filesystem access live
//! outside this crate; the functions here compute plans, filters and
//! summaries from plain values and are verified to meet their contracts.

pub mod backup;
pub mod github;
pub mod glob;
pub mod text;
