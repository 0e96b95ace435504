//! Keeps plots of long-running remote jobs fresh.
//!
//! The crate holds the rules of the refresh pipeline: splitting fetched text
//! into lines and words, recognising numeric tokens, the per-job parsers, the
//! transfers a refresh needs, the worker step that turns fetched text into a
//! result, and the coordinator that decides which targets are stale, applies
//! results and defers removals. Time, files and processes are supplied by the
//! caller as plain values.

pub mod coordinator;
pub mod fetch;
pub mod number;
pub mod parse;
pub mod project;
pub mod series;
pub mod text;
pub mod worker;
