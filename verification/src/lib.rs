//! Track-list manager core: a playlist document model.
//!
//! The model owns a tree of named lists and track leaves, a registry that
//! maps track identifiers to track records, and a bounded history of
//! recently played tree paths.  The whole document can be written to and
//! read back from a compact text format, optionally gzip-compressed.

pub mod chars;
pub mod codec;
pub mod laws;
pub mod m3u;
pub mod model;
pub mod tree;
pub mod util;
