//! Extraction and encoding of PGS (Blu-ray) subtitles.
//!
//! Every item of the crate is verified: what a function returns or changes is
//! stated over the byte sequences and display sets that it reads and writes.
pub mod bytes;
pub mod collect;
pub mod ebml;
pub mod error;
pub mod extractor;
pub mod filtering;
pub mod io;
pub mod lang;
pub mod listing;
pub mod lists;
pub mod m2ts;
pub mod mkv;
pub mod ndjson;
pub mod pgs;
pub mod range;
pub mod ranged;
pub mod reading;
pub mod restriction;
pub mod sup;
pub mod text;
pub mod track;
pub mod written;

pub use crate::collect::{
    extract_all_display_sets, extract_all_display_sets_with_stats, extract_display_sets,
    extract_display_sets_with_stats,
};
pub use crate::extractor::{list_pgs_tracks, Extractor};
pub use crate::track::{
    ContainerFormat, ExtractionStats, MkvStrategy, PgsTrackInfo, TrackDisplaySet, TrackDisplaySets,
};
