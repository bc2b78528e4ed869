//! The discovery engine and what it is built from.

pub mod config;
pub mod error;
pub mod filter;
pub mod git;
pub mod pattern;
pub mod projects;
pub mod walk;
