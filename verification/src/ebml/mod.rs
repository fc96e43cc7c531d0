//! The element structure of EBML files.
pub mod children;
pub mod ids;
pub mod vint;
pub mod written;

pub use crate::ebml::vint::{read_element_id, read_element_size, read_track_number, Vint};
