//! Offline forensic analysis of V8-style heap snapshots.
//!
//! The library decodes a snapshot JSON document into three packed columns
//! (nodes, edges, strings) plus a validated schema, exposes columnar views
//! over the node and edge records, and answers questions about memory
//! composition: constructor summaries, per-object detail, retaining paths,
//! dominator chains and snapshot diffs.

pub mod cancel;
pub mod cli;
pub mod detail;
pub mod diff;
pub mod dominator;
pub mod error;
pub mod lenient;
pub mod offsets;
pub mod parser;
pub mod query;
pub mod retainers;
pub mod snapshot;
pub mod sorting;
pub mod summary;
pub mod text;
