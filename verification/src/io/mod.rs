//! Reading bytes.
pub mod reader;

pub use crate::io::reader::{MemorySource, SeekBufReader, Source};
