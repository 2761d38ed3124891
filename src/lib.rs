//! Audit reports of third-party components found in dependency manifests,
//! and the reconciliation of a fresh scan into a persisted report.

pub mod meta;
pub mod soup;
pub mod laws;
pub mod parse;
pub mod order;
