//! Editing of line-oriented `Host` configuration files.
//!
//! The library parses a file into an ordered list of host entries, each
//! holding an ordered list of statements; a statement is a recognized
//! directive (`HostName`, `Port`) or any other line kept verbatim. Entries
//! can be looked up by name and their recognized directives rewritten, and
//! the whole structure serializes back to text. Everything the parser does
//! not model round-trips unchanged; `laws` states and proves that.

pub mod config;
pub mod format;
pub mod laws;
pub mod model;
pub mod mutate;
pub mod parser;
