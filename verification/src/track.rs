//! Tracks, and display sets with the track that they come from.
use vstd::prelude::*;
use crate::mkv::cues::PgsCuePoint;
use crate::mkv::decode::set_views;
use crate::mkv::tracks::{text_view, MkvPgsTrack, TrackView};
use crate::pgs::display_set::{DisplaySet, DisplaySetView};
use std::collections::HashMap;

verus! {

/// The container format of a file.
#[derive(Debug, Clone, Copy, PartialEq, Eq, Structural)]
pub enum ContainerFormat {
    Matroska,
    M2ts,
    TransportStream,
    Sup,
}

/// How the clusters of a Matroska file are visited.
#[derive(Debug, Clone, Copy, PartialEq, Eq, Structural)]
pub enum MkvStrategy {
    /// Along the index if there is one, otherwise in file order.
    Auto,
    /// In file order, in a single pass.
    Sequential,
}

impl Default for MkvStrategy {
    fn default() -> (r: Self)
        ensures
            r == MkvStrategy::Auto,
    {
        MkvStrategy::Auto
    }
}

/// What is known about a PGS track.
#[derive(Debug)]
pub struct PgsTrackInfo {
    /// The track number in Matroska files, the packet identifier in transport
    /// streams.
    pub track_id: u32,
    /// The language code, if there is one.
    pub language: Option<String>,
    /// The container format.
    pub container: ContainerFormat,
    /// The track's name, if there is one.
    pub name: Option<String>,
    /// Whether the track should be active by default.
    pub flag_default: Option<bool>,
    /// Whether the track holds forced subtitles.
    pub flag_forced: Option<bool>,
    /// The number of display sets, if the container says.
    pub display_set_count: Option<u64>,
    /// Whether the container has index entries for the track.
    pub has_cues: Option<bool>,
}

/// A track's information as a mathematical value.
#[verifier::ext_equal]
pub struct TrackInfoView {
    pub track_id: u32,
    pub language: Option<Seq<char>>,
    pub container: ContainerFormat,
    pub name: Option<Seq<char>>,
    pub flag_default: Option<bool>,
    pub flag_forced: Option<bool>,
    pub display_set_count: Option<u64>,
    pub has_cues: Option<bool>,
}

impl View for PgsTrackInfo {
    type V = TrackInfoView;

    open spec fn view(&self) -> TrackInfoView {
        TrackInfoView {
            track_id: self.track_id,
            language: text_view(self.language),
            container: self.container,
            name: text_view(self.name),
            flag_default: self.flag_default,
            flag_forced: self.flag_forced,
            display_set_count: self.display_set_count,
            has_cues: self.has_cues,
        }
    }
}

/// The views of tracks' information.
pub open spec fn info_views(infos: Seq<PgsTrackInfo>) -> Seq<TrackInfoView> {
    Seq::new(infos.len(), |i: int| infos[i]@)
}

/// A copy of an optional text.
pub fn copy_text(t: &Option<String>) -> (r: Option<String>)
    ensures
        text_view(r) == text_view(*t),
{
    match t {
        Some(text) => Some(text.clone()),
        None => None,
    }
}

impl Clone for PgsTrackInfo {
    fn clone(&self) -> (r: Self)
        ensures
            r@ == self@,
    {
        PgsTrackInfo {
            track_id: self.track_id,
            language: copy_text(&self.language),
            container: self.container,
            name: copy_text(&self.name),
            flag_default: self.flag_default,
            flag_forced: self.flag_forced,
            display_set_count: self.display_set_count,
            has_cues: self.has_cues,
        }
    }
}

/// A display set with the track that it comes from.
#[derive(Debug)]
pub struct TrackDisplaySet {
    /// The track number in Matroska files, the packet identifier in transport
    /// streams.
    pub track_id: u32,
    /// The language code, if there is one.
    pub language: Option<String>,
    /// The container format.
    pub container: ContainerFormat,
    /// The display set.
    pub display_set: DisplaySet,
}

/// A display set with its track as a mathematical value.
#[verifier::ext_equal]
pub struct TrackSetView {
    pub track_id: u32,
    pub language: Option<Seq<char>>,
    pub container: ContainerFormat,
    pub display_set: DisplaySetView,
}

impl View for TrackDisplaySet {
    type V = TrackSetView;

    open spec fn view(&self) -> TrackSetView {
        TrackSetView {
            track_id: self.track_id,
            language: text_view(self.language),
            container: self.container,
            display_set: self.display_set@,
        }
    }
}

/// The views of display sets with their tracks.
pub open spec fn track_set_views(sets: Seq<TrackDisplaySet>) -> Seq<TrackSetView> {
    Seq::new(sets.len(), |i: int| sets[i]@)
}

impl Clone for TrackDisplaySet {
    fn clone(&self) -> (r: Self)
        ensures
            r@ == self@,
    {
        TrackDisplaySet {
            track_id: self.track_id,
            language: copy_text(&self.language),
            container: self.container,
            display_set: self.display_set.clone(),
        }
    }
}

/// The display sets of one track.
#[derive(Debug)]
pub struct TrackDisplaySets {
    /// The track.
    pub track: PgsTrackInfo,
    /// Its display sets, in order.
    pub display_sets: Vec<DisplaySet>,
}

/// The display sets of one track as a mathematical value.
#[verifier::ext_equal]
pub struct TrackSetsView {
    pub track: TrackInfoView,
    pub display_sets: Seq<DisplaySetView>,
}

impl View for TrackDisplaySets {
    type V = TrackSetsView;

    open spec fn view(&self) -> TrackSetsView {
        TrackSetsView { track: self.track@, display_sets: set_views(self.display_sets@) }
    }
}

/// The views of several tracks' display sets.
pub open spec fn track_sets_views(sets: Seq<TrackDisplaySets>) -> Seq<TrackSetsView> {
    Seq::new(sets.len(), |i: int| sets[i]@)
}

/// What an extraction has read.
#[derive(Debug, Clone, Copy, PartialEq, Eq, Structural)]
pub struct ExtractionStats {
    /// The size of the file.
    pub file_size: u64,
    /// The number of bytes that were read.
    pub bytes_read: u64,
}

/// The view of an optional filter of track identifiers.
pub open spec fn filter_view(filter: Option<&[u32]>) -> Option<Seq<u32>> {
    match filter {
        Some(ids) => Some(ids@),
        None => None,
    }
}

/// The identifier of a track with a given number: its low four bytes.
pub open spec fn track_id_of(number: u64) -> u32 {
    (number % 0x1_0000_0000) as u32
}

/// The identifier of a track with a given number.
pub fn id_of_number(number: u64) -> (r: u32)
    ensures
        r == track_id_of(number),
{
    (number % 0x1_0000_0000) as u32
}

/// Whether an index has entries for a track.
pub open spec fn is_indexed(cues: Option<Seq<PgsCuePoint>>, number: u64) -> bool {
    match cues {
        Some(points) => exists|i: int|
            0 <= i < points.len() && (#[trigger] points[i]).track_number == number,
        None => false,
    }
}

/// The number of display sets that the tags give for a track.
pub open spec fn frame_count_for(counts: Map<u64, u64>, uid: Option<u64>) -> Option<u64> {
    match uid {
        Some(u) => if counts.contains_key(u) {
            Some(counts[u])
        } else {
            None
        },
        None => None,
    }
}

/// What is known about a Matroska track.
pub open spec fn mkv_info(
    t: TrackView,
    counts: Map<u64, u64>,
    cues: Option<Seq<PgsCuePoint>>,
) -> TrackInfoView {
    TrackInfoView {
        track_id: track_id_of(t.track_number),
        language: t.language,
        container: ContainerFormat::Matroska,
        name: t.name,
        flag_default: t.flag_default,
        flag_forced: t.flag_forced,
        display_set_count: frame_count_for(counts, t.track_uid),
        has_cues: Some(is_indexed(cues, t.track_number)),
    }
}

/// The view of an optional index.
pub open spec fn cues_view(cues: Option<Vec<PgsCuePoint>>) -> Option<Seq<PgsCuePoint>> {
    match cues {
        Some(points) => Some(points@),
        None => None,
    }
}

/// Gathers what is known about a Matroska track.
pub fn mkv_track_to_info(
    t: &MkvPgsTrack,
    frame_counts: &HashMap<u64, u64>,
    cue_points: &Option<Vec<PgsCuePoint>>,
) -> (r: PgsTrackInfo)
    ensures
        r@ == mkv_info(t@, frame_counts@, cues_view(*cue_points)),
{
    broadcast use vstd::std_specs::hash::group_hash_axioms;

    let mut indexed = false;
    if let Some(points) = cue_points {
        let mut i: usize = 0;
        while i < points.len()
            invariant
                i <= points@.len(),
                indexed <==> exists|j: int|
                    0 <= j < i && (#[trigger] points@[j]).track_number == t.track_number,
            decreases points@.len() - i,
        {
            if points[i].track_number == t.track_number {
                indexed = true;
            }
            i += 1;
        }
    }
    let display_set_count = match t.track_uid {
        Some(uid) => match frame_counts.get(&uid) {
            Some(n) => Some(*n),
            None => None,
        },
        None => None,
    };
    PgsTrackInfo {
        track_id: id_of_number(t.track_number),
        language: copy_text(&t.language),
        container: ContainerFormat::Matroska,
        name: copy_text(&t.name),
        flag_default: t.flag_default,
        flag_forced: t.flag_forced,
        display_set_count,
        has_cues: Some(indexed),
    }
}

/// What is known about the one track of a raw PGS file.
pub open spec fn sup_info() -> TrackInfoView {
    TrackInfoView {
        track_id: 0,
        language: None,
        container: ContainerFormat::Sup,
        name: None,
        flag_default: None,
        flag_forced: None,
        display_set_count: None,
        has_cues: None,
    }
}

/// What is known about the one track of a raw PGS file.
pub fn sup_track_info() -> (r: PgsTrackInfo)
    ensures
        r@ == sup_info(),
{
    PgsTrackInfo {
        track_id: 0,
        language: None,
        container: ContainerFormat::Sup,
        name: None,
        flag_default: None,
        flag_forced: None,
        display_set_count: None,
        has_cues: None,
    }
}

} // verus!
