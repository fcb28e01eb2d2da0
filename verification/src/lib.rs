//! Browser resolution, command-synthesis and usage-ranking engine.
//!
//! The crate discovers and deduplicates installed web-browser handlers,
//! classifies free-form user input into a launch target, reconstructs a
//! field-code-free command line from a handler's registered template, and
//! keeps a usage/pin store that ranks handlers by pin status, frequency or
//! recency.  All string and ordering logic is verified; operating-system
//! calls (the application registry, the database file, process spawning)
//! live in the surrounding unverified binary.

pub mod catalog;
pub mod classify;
pub mod launch;
pub mod rank;
pub mod store;
pub mod text;
