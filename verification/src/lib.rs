//! A flattened, ordered representation of a directory tree: one pre-order
//! array of entries with per-directory span counters, plus a cursor that
//! navigates the array and inserts new children in sorted position while
//! keeping every counter consistent.

pub mod entry;
pub mod laws;
pub mod lemmas;
pub mod shape;
pub mod tree;
