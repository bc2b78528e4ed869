//! Discovery of source-control repositories beneath a set of root
//! directories, with pattern filters, and the ranking that picks the best of
//! several search hits.
//!
//! Everything here works on plain values: directory listings and the
//! outcome of status queries are handed in by the caller, who owns every
//! touch of the file system and of other processes.

pub mod commands;
pub mod find;
