//! Synchronization engine for mirroring a local directory tree onto a
//! remote destination: cataloging local files, planning which remote
//! directories must be created, deciding per file whether a transfer is
//! needed, and accounting for the work a bounded pool of workers performs.
//!
//! All remote and filesystem effects live outside this crate; the library
//! works on plain values (paths as strings, sizes, probe outcomes) and
//! states its behaviour in contracts.
pub mod catalog;
pub mod cmd;
pub mod paths;
pub mod planner;
pub mod transfer;
