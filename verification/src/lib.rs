//! Discovery-entry reconciliation and fan-out engine.
//!
//! Builds normalized monitoring-target entries from per-project resource
//! lists, detects whether the entry set changed since the previous polling
//! cycle, and recursively partitions the set into a tree of output files
//! according to nested label-filter specifications.

pub mod config;
pub mod cycle;
pub mod entry;
pub mod fanout;
pub mod fingerprint;
pub mod jsonout;
pub mod labels;
pub mod text;
