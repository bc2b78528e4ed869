//! What consumers do with the repositories that discovery yields.

pub mod find;
pub mod ratio;
