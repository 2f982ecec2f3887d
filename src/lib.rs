//! Duplicate-file detection: streaming content digests, an index of scanned
//! files keyed by path, and a report of the files that share a digest.

pub mod digest;
pub mod index;
pub mod order;
pub mod duplicates;
pub mod render;
pub mod laws;
