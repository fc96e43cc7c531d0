//! What is written in a format is read back as it was meant.
pub mod builds;
pub mod choices;
pub mod clips;
pub mod clusters;
pub mod ends;
pub mod files;
pub mod index;
pub mod lookups;
pub mod merging;
pub mod passes;
pub mod payloads;
pub mod refusals;
pub mod sets;
pub mod spans;
pub mod starts;
pub mod streams;
pub mod tables;
pub mod tracks;
pub mod transport;
pub mod words;
