//! Raw PGS files: segments with full headers, one after the other.
pub mod count;
pub mod stream;
pub mod write;
