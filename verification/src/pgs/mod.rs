//! The PGS stream: segments, their payloads, bitmaps and display sets.
pub mod display_set;
pub mod payload;
pub mod rle;
pub mod segment;

pub use crate::pgs::display_set::{
    DisplaySet, DisplaySetAssembler, DisplaySetBuilder, ObjectBitmap,
};
pub use crate::pgs::payload::{
    ods_rle_data, CompositionObject, CropInfo, OdsData, PaletteEntry, ParsedPayload, PcsData,
    PdsData, SequenceFlag, WdsData, WindowDefinition,
};
pub use crate::pgs::rle::{decode_rle, encode_rle};
pub use crate::pgs::segment::{CompositionState, PgsSegment, SegmentType};
