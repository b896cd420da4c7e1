//! Pieces of the CPC sketch.
pub mod pair_table;
pub mod wrapper;
