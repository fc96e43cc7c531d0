//! PGS tracks in Matroska files.
pub mod assemblers;
pub mod block;
pub mod cluster;
pub mod cues;
pub mod decode;
pub mod header;
pub mod indexed;
pub mod order;
pub mod reading;
pub mod scanning;
pub mod stream;
pub mod tags;
pub mod tracks;

use crate::error::{ErrorView, PgsError};
use crate::io::reader::{counted, SeekBufReader, Source};
use crate::mkv::cues::{cues_at, index_reads, parse_cues_for_tracks, PgsCuePoint};
use crate::mkv::header::{
    default_info, ebml_header_at, ebml_header_reads, info_at, info_reads, parse_ebml_header,
    parse_info, parse_segment, segment_at, segment_reads, FloatBits, SegmentInfo, SegmentLayout,
};
use crate::mkv::tags::{parse_tags_frame_counts, tags_at, tags_reads};
use crate::mkv::tracks::{
    parse_tracks, track_views, tracks_at, tracks_reads, CompressionView, ContentCompAlgo,
    MkvPgsTrack, TrackView,
};
use std::collections::HashMap;
use vstd::prelude::*;

verus! {

/// The fewest index entries for which parallel extraction pays.
pub const PARALLEL_CUE_THRESHOLD: usize = 32;

/// The most workers that extract in parallel.
pub const MAX_PARALLEL_WORKERS: usize = 8;

/// What extraction needs to know about a file.
pub struct MkvMetadata {
    /// Where the main elements are.
    pub layout: SegmentLayout,
    /// The PGS tracks.
    pub pgs_tracks: Vec<MkvPgsTrack>,
    /// The numbers of the PGS tracks.
    pub pgs_track_numbers: Vec<u64>,
    /// The compression of the tracks that have one.
    pub compression_map: HashMap<u64, ContentCompAlgo>,
    /// Nanoseconds per timestamp unit.
    pub timestamp_scale: u64,
    /// The segment's duration in timestamp units.
    pub duration: Option<FloatBits>,
    /// The index entries for the PGS tracks, if there are any.
    pub cue_points: Option<Vec<PgsCuePoint>>,
    /// Frame counts by unique track identifier.
    pub frame_counts: HashMap<u64, u64>,
}

/// Metadata as a mathematical value.
#[verifier::ext_equal]
pub struct MetadataView {
    pub layout: SegmentLayout,
    pub pgs_tracks: Seq<TrackView>,
    pub pgs_track_numbers: Seq<u64>,
    pub compression_map: Map<u64, CompressionView>,
    pub timestamp_scale: u64,
    pub duration: Option<FloatBits>,
    pub cue_points: Option<Seq<PgsCuePoint>>,
    pub frame_counts: Map<u64, u64>,
}

/// The view of a map of compressions.
pub open spec fn compression_map_view(m: Map<u64, ContentCompAlgo>) -> Map<u64, CompressionView> {
    Map::new(|k: u64| m.contains_key(k), |k: u64| m[k]@)
}

impl View for MkvMetadata {
    type V = MetadataView;

    open spec fn view(&self) -> MetadataView {
        MetadataView {
            layout: self.layout,
            pgs_tracks: track_views(self.pgs_tracks@),
            pgs_track_numbers: self.pgs_track_numbers@,
            compression_map: compression_map_view(self.compression_map@),
            timestamp_scale: self.timestamp_scale,
            duration: self.duration,
            cue_points: match self.cue_points {
                Some(cues) => Some(cues@),
                None => None,
            },
            frame_counts: self.frame_counts@,
        }
    }
}

/// The numbers of tracks.
pub open spec fn numbers_of(tracks: Seq<TrackView>) -> Seq<u64> {
    Seq::new(tracks.len(), |i: int| tracks[i].track_number)
}

/// The compressions of the tracks that have one, by track number. Of tracks
/// with one number the last one counts.
pub open spec fn compressions_of(tracks: Seq<TrackView>) -> Map<u64, CompressionView>
    decreases tracks.len(),
{
    if tracks.len() == 0 {
        Map::empty()
    } else {
        let before = compressions_of(tracks.drop_last());
        match tracks.last().compression {
            Some(c) => before.insert(tracks.last().track_number, c),
            None => before,
        }
    }
}

/// The unique identifiers of the tracks that have one.
pub open spec fn uids_of(tracks: Seq<TrackView>) -> Seq<u64>
    decreases tracks.len(),
{
    if tracks.len() == 0 {
        Seq::empty()
    } else {
        let before = uids_of(tracks.drop_last());
        match tracks.last().track_uid {
            Some(uid) => before.push(uid),
            None => before,
        }
    }
}

/// The layout and the PGS tracks of a file.
pub open spec fn tracks_of(s: Seq<u8>) -> Result<(SegmentLayout, Seq<TrackView>), ErrorView> {
    match ebml_header_at(s, 0) {
        Err(e) => Err(e),
        Ok((_, pos)) => match segment_at(s, pos) {
            Err(e) => Err(e),
            Ok(layout) => match layout.tracks_position {
                None => Err(ErrorView::InvalidMkv("Tracks element not found"@)),
                Some(at) => match tracks_at(s, at as int) {
                    Err(e) => Err(e),
                    Ok(tracks) => Ok((layout, tracks)),
                },
            },
        },
    }
}

/// The general information of a file with a given layout.
pub open spec fn info_of(s: Seq<u8>, layout: SegmentLayout) -> Result<SegmentInfo, ErrorView> {
    match layout.info_position {
        Some(at) => info_at(s, at as int),
        None => Ok(default_info()),
    }
}

/// The index entries for the tracks of a file with a given layout.
pub open spec fn cues_of(s: Seq<u8>, layout: SegmentLayout, tracks: Seq<u64>) -> Result<
    Option<Seq<PgsCuePoint>>,
    ErrorView,
> {
    match layout.cues_position {
        Some(at) => match cues_at(s, at as int, layout.segment_data_start, tracks) {
            Err(e) => Err(e),
            Ok(cues) => Ok(
                if cues.len() == 0 {
                    None
                } else {
                    Some(cues)
                },
            ),
        },
        None => Ok(None),
    }
}

/// The frame counts of the tracks of a file with a given layout. Malformed tags
/// count as none.
pub open spec fn frame_counts_of(
    s: Seq<u8>,
    layout: SegmentLayout,
    uids: Seq<u64>,
) -> Map<u64, u64> {
    match layout.tags_position {
        Some(at) => if uids.len() == 0 {
            Map::empty()
        } else {
            match tags_at(s, at as int, uids) {
                Ok(counts) => counts,
                Err(_) => Map::empty(),
            }
        },
        None => Map::empty(),
    }
}

/// What extraction needs to know about a file. A file without PGS tracks is an
/// error.
pub open spec fn metadata_of(s: Seq<u8>) -> Result<MetadataView, ErrorView> {
    match tracks_of(s) {
        Err(e) => Err(e),
        Ok((layout, tracks)) => if tracks.len() == 0 {
            Err(ErrorView::NoPgsTracks)
        } else {
            match info_of(s, layout) {
                Err(e) => Err(e),
                Ok(info) => match cues_of(s, layout, numbers_of(tracks)) {
                    Err(e) => Err(e),
                    Ok(cue_points) => Ok(
                        MetadataView {
                            layout,
                            pgs_tracks: tracks,
                            pgs_track_numbers: numbers_of(tracks),
                            compression_map: compressions_of(tracks),
                            timestamp_scale: info.timestamp_scale,
                            duration: info.duration,
                            cue_points,
                            frame_counts: frame_counts_of(s, layout, uids_of(tracks)),
                        },
                    ),
                },
            }
        },
    }
}

/// The number of bytes that finding the PGS tracks of a file reads.
pub open spec fn tracks_of_reads(s: Seq<u8>) -> int {
    ebml_header_reads(s, 0) + match ebml_header_at(s, 0) {
        Err(_) => 0,
        Ok((_, pos)) => segment_reads(s, pos) + match segment_at(s, pos) {
            Err(_) => 0,
            Ok(layout) => match layout.tracks_position {
                None => 0,
                Some(at) => tracks_reads(s, at as int),
            },
        },
    }
}

/// The number of bytes that reading the frame counts of a file with a given
/// layout reads.
pub open spec fn frame_counts_reads(s: Seq<u8>, layout: SegmentLayout, uids: Seq<u64>) -> int {
    match layout.tags_position {
        Some(at) => if uids.len() == 0 {
            0
        } else {
            tags_reads(s, at as int, uids)
        },
        None => 0,
    }
}

/// The number of bytes that reading what extraction needs to know about a file
/// reads: its headers, tracks, index and tags.
pub open spec fn metadata_reads(s: Seq<u8>) -> int {
    tracks_of_reads(s) + match tracks_of(s) {
        Err(_) => 0,
        Ok((layout, tracks)) => if tracks.len() == 0 {
            0
        } else {
            (match layout.info_position {
                Some(at) => info_reads(s, at as int),
                None => 0,
            }) + match info_of(s, layout) {
                Err(_) => 0,
                Ok(_) => (match layout.cues_position {
                    Some(at) => index_reads(
                        s,
                        at as int,
                        layout.segment_data_start,
                        numbers_of(tracks),
                    ),
                    None => 0,
                }) + match cues_of(s, layout, numbers_of(tracks)) {
                    Err(_) => 0,
                    Ok(_) => frame_counts_reads(s, layout, uids_of(tracks)),
                },
            }
        },
    }
}

/// Reads the layout and the PGS tracks of a file.
fn read_tracks<R: Source>(reader: &mut SeekBufReader<R>) -> (r: Result<
    (SegmentLayout, Vec<MkvPgsTrack>),
    PgsError,
>)
    ensures
        final(reader).bytes() == old(reader).bytes(),
        ({
            let reads = tracks_of_reads(old(reader).bytes());
            &&& final(reader).consumed() == counted(old(reader).consumed(), reads)
            &&& reads >= 0
        }),
        match (r, tracks_of(old(reader).bytes())) {
            (Ok((layout, tracks)), Ok((v, w))) => layout == v && track_views(tracks@) == w,
            (Err(e), Err(v)) => e@ == v,
            _ => false,
        },
{
    let _ = reader.seek_to(0);
    match parse_ebml_header(reader) {
        Ok(_) => {},
        Err(e) => {
            return Err(e);
        },
    }
    let layout = match parse_segment(reader) {
        Ok(layout) => layout,
        Err(e) => {
            return Err(e);
        },
    };
    let tracks_pos = match layout.tracks_position {
        Some(at) => at,
        None => {
            return Err(PgsError::InvalidMkv("Tracks element not found".to_owned()));
        },
    };
    match parse_tracks(reader, tracks_pos) {
        Ok(tracks) => Ok((layout, tracks)),
        Err(e) => Err(e),
    }
}

/// The PGS tracks of a file.
pub fn list_pgs_tracks_mkv<R: Source>(reader: &mut SeekBufReader<R>) -> (r: Result<
    Vec<MkvPgsTrack>,
    PgsError,
>)
    ensures
        final(reader).bytes() == old(reader).bytes(),
        ({
            let reads = tracks_of_reads(old(reader).bytes());
            &&& final(reader).consumed() == counted(old(reader).consumed(), reads)
            &&& reads >= 0
        }),
        match (r, tracks_of(old(reader).bytes())) {
            (Ok(tracks), Ok((_, v))) => track_views(tracks@) == v,
            (Err(e), Err(v)) => e@ == v,
            _ => false,
        },
{
    match read_tracks(reader) {
        Ok((_, tracks)) => Ok(tracks),
        Err(e) => Err(e),
    }
}

fn track_numbers(tracks: &Vec<MkvPgsTrack>) -> (r: Vec<u64>)
    ensures
        r@ == numbers_of(track_views(tracks@)),
{
    let mut numbers: Vec<u64> = Vec::new();
    let mut i: usize = 0;
    while i < tracks.len()
        invariant
            i <= tracks@.len(),
            numbers@ == numbers_of(track_views(tracks@)).take(i as int),
        decreases tracks@.len() - i,
    {
        numbers.push(tracks[i].track_number);
        i += 1;
        assert(numbers@ =~= numbers_of(track_views(tracks@)).take(i as int));
    }
    assert(numbers@ =~= numbers_of(track_views(tracks@)));
    numbers
}

fn track_uids(tracks: &Vec<MkvPgsTrack>) -> (r: Vec<u64>)
    ensures
        r@ == uids_of(track_views(tracks@)),
{
    let mut uids: Vec<u64> = Vec::new();
    let ghost views = track_views(tracks@);
    let mut i: usize = 0;
    while i < tracks.len()
        invariant
            i <= tracks@.len(),
            views == track_views(tracks@),
            uids@ == uids_of(views.take(i as int)),
        decreases tracks@.len() - i,
    {
        if let Some(uid) = tracks[i].track_uid {
            uids.push(uid);
        }
        i += 1;
        proof {
            let some = views.take(i as int);
            assert(some.drop_last() =~= views.take(i - 1));
            assert(some.last() == tracks@[i - 1]@);
        }
    }
    assert(views.take(i as int) =~= views);
    uids
}

pub fn track_compressions(tracks: &Vec<MkvPgsTrack>) -> (r: HashMap<u64, ContentCompAlgo>)
    ensures
        compression_map_view(r@) == compressions_of(track_views(tracks@)),
{
    broadcast use vstd::std_specs::hash::group_hash_axioms;

    let mut map: HashMap<u64, ContentCompAlgo> = HashMap::new();
    let ghost views = track_views(tracks@);
    let mut i: usize = 0;
    assert(compression_map_view(map@) =~= Map::<u64, CompressionView>::empty());
    while i < tracks.len()
        invariant
            i <= tracks@.len(),
            views == track_views(tracks@),
            compression_map_view(map@) == compressions_of(views.take(i as int)),
        decreases tracks@.len() - i,
    {
        let ghost before = map@;
        if let Some(c) = &tracks[i].compression {
            let copy = c.clone();
            map.insert(tracks[i].track_number, copy);
            assert(compression_map_view(map@) =~= compression_map_view(before).insert(
                tracks@[i as int].track_number,
                copy@,
            ));
        }
        i += 1;
        proof {
            let some = views.take(i as int);
            assert(some.drop_last() =~= views.take(i - 1));
            assert(some.last() == tracks@[i - 1]@);
        }
    }
    assert(views.take(i as int) =~= views);
    map
}

/// Reads all that extraction needs to know about a file.
pub fn prepare_mkv_metadata<R: Source>(reader: &mut SeekBufReader<R>) -> (r: Result<
    MkvMetadata,
    PgsError,
>)
    ensures
        final(reader).bytes() == old(reader).bytes(),
        ({
            let reads = metadata_reads(old(reader).bytes());
            &&& final(reader).consumed() == counted(old(reader).consumed(), reads)
            &&& reads >= 0
        }),
        match (r, metadata_of(old(reader).bytes())) {
            (Ok(m), Ok(v)) => m@ == v,
            (Err(e), Err(v)) => e@ == v,
            _ => false,
        },
{
    let (layout, pgs_tracks) = match read_tracks(reader) {
        Ok(t) => t,
        Err(e) => {
            return Err(e);
        },
    };
    if pgs_tracks.len() == 0 {
        return Err(PgsError::NoPgsTracks);
    }
    let pgs_track_numbers = track_numbers(&pgs_tracks);
    let compression_map = track_compressions(&pgs_tracks);
    let info = match layout.info_position {
        Some(at) => match parse_info(reader, at) {
            Ok(info) => info,
            Err(e) => {
                return Err(e);
            },
        },
        None => SegmentInfo { timestamp_scale: 1_000_000, duration: None },
    };
    let cue_points = match layout.cues_position {
        Some(at) => match parse_cues_for_tracks(
            reader,
            at,
            layout.segment_data_start,
            pgs_track_numbers.as_slice(),
        ) {
            Ok(points) => if points.len() == 0 {
                None
            } else {
                Some(points)
            },
            Err(e) => {
                return Err(e);
            },
        },
        None => None,
    };
    let frame_counts = match layout.tags_position {
        Some(at) => {
            let uids = track_uids(&pgs_tracks);
            if uids.len() == 0 {
                HashMap::new()
            } else {
                match parse_tags_frame_counts(reader, at, uids.as_slice()) {
                    Ok(counts) => counts,
                    Err(_) => HashMap::new(),
                }
            }
        },
        None => HashMap::new(),
    };
    let m = MkvMetadata {
        layout,
        pgs_tracks,
        pgs_track_numbers,
        compression_map,
        timestamp_scale: info.timestamp_scale,
        duration: info.duration,
        cue_points,
        frame_counts,
    };
    Ok(m)
}

} // verus!
