//! A regression harness core for a chart-hashing engine.
//!
//! For each compressed fixture the harness recovers the raw content, derives
//! its content digest, locates the recorded baseline by that digest, and
//! compares the baseline's chart hashes with the ones an engine computed.
//! All text (names, paths, digests, hashes) is held as UTF-8 bytes.

pub mod text;
pub mod error;
pub mod archive;
pub mod digest;
pub mod baseline;
pub mod chart;
pub mod fixture;
pub mod runner;
pub mod report;
