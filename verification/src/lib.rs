//! A verified core for a copy-and-verify tool: it plans the copy of a set of
//! resolved source files to a destination, hashes file contents, and compares
//! the source and destination hash mappings, reporting every mismatch.

pub mod error;
pub mod hashing;
pub mod paths;
pub mod plan;

pub use error::Error;
