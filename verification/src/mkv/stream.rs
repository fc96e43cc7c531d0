//! Display sets of a Matroska file, one at a time.
use vstd::prelude::*;
use crate::ebml::children::{element_end, end_of, uint_at};
use crate::ebml::ids;
use crate::ebml::vint::{element_at, element_header_reads, read_element, Element};
use crate::error::{ErrorView, IoError, PgsError};
use crate::io::reader::{counted, SeekBufReader, Source};
use crate::lists::{contains_u32, contains_u64};
use crate::mkv::assemblers::{
    compression_for, fresh_states, processed, result_views, results_of, TrackAssemblers,
};
use crate::mkv::cluster::{
    block_views, cluster_blocks, cluster_reads, passed_reads, scan_cluster_for_pgs_sequential,
    BlockView, PgsBlock,
};
use crate::mkv::cues::PgsCuePoint;
use crate::mkv::decode::{
    block_segments, decoded_data, mkv_timestamp_to_pts, process_pgs_block, pts_of, set_views,
    try_decode_block_data,
};
use crate::mkv::header::{FloatBits, SegmentLayout};
use crate::mkv::indexed::{
    cache_valid, chunk_views, cue_blocks, cue_reads, cues_known, extract_blocks_for_cue_point,
    partition_by_cluster, partitioned,
};
use crate::mkv::order::{blocks_in_order, cues_in_order, sort_blocks, sort_cues};
use crate::mkv::tracks::{text_view, track_views, CompressionView, MkvPgsTrack, TrackView};
use crate::mkv::{MAX_PARALLEL_WORKERS, PARALLEL_CUE_THRESHOLD, MetadataView, MkvMetadata};
use crate::pgs::display_set::{
    fresh_assembler, pushed_all, AssemblerView, DisplaySet, DisplaySetAssembler, DisplaySetView,
};
use crate::track::{
    copy_text, filter_view, id_of_number, info_views, mkv_info, mkv_track_to_info, track_id_of,
    track_set_views, track_sets_views, ContainerFormat, MkvStrategy, PgsTrackInfo, TrackDisplaySet,
    TrackDisplaySets, TrackInfoView, TrackSetView, TrackSetsView,
};
use std::collections::{HashMap, HashSet, VecDeque};

verus! {

/// How close the search for a start position has to come, and how far in front
/// of it reading starts.
pub const SEEK_MARGIN: u64 = 2097152;

/// How far a probe looks for a cluster.
pub const PROBE_SCAN_LIMIT: u64 = 524288;

/// The buffer size for reading in file order.
const SEQ_BUF_SIZE: usize = 2097152;

/// An active track with its assembler.
pub struct TrackSlot {
    pub number: u64,
    pub language: Option<String>,
    pub assembler: DisplaySetAssembler,
}

/// An active track as a mathematical value.
#[verifier::ext_equal]
pub struct SlotView {
    pub number: u64,
    pub language: Option<Seq<char>>,
    pub assembler: AssemblerView,
}

impl View for TrackSlot {
    type V = SlotView;

    open spec fn view(&self) -> SlotView {
        SlotView {
            number: self.number,
            language: text_view(self.language),
            assembler: self.assembler@,
        }
    }
}

/// The views of active tracks.
pub open spec fn slot_views(slots: Seq<TrackSlot>) -> Seq<SlotView> {
    Seq::new(slots.len(), |i: int| slots[i]@)
}

/// The numbers that a filter of track identifiers leaves.
pub open spec fn active_of(numbers: Seq<u64>, filter: Option<Seq<u32>>) -> Seq<u64>
    decreases numbers.len(),
{
    if numbers.len() == 0 {
        Seq::empty()
    } else {
        let before = active_of(numbers.drop_last(), filter);
        match filter {
            Some(ids) => if ids.contains(track_id_of(numbers.last())) {
                before.push(numbers.last())
            } else {
                before
            },
            None => before.push(numbers.last()),
        }
    }
}

/// The track with a number. Of several the last one counts.
pub open spec fn track_with(tracks: Seq<TrackView>, number: u64) -> Option<TrackView>
    decreases tracks.len(),
{
    if tracks.len() == 0 {
        None
    } else if tracks.last().track_number == number {
        Some(tracks.last())
    } else {
        track_with(tracks.drop_last(), number)
    }
}

/// The language of the track with a number.
pub open spec fn language_of(tracks: Seq<TrackView>, number: u64) -> Option<Seq<char>> {
    match track_with(tracks, number) {
        Some(t) => t.language,
        None => None,
    }
}

/// A fresh slot for each of the numbers, in order of their first occurrence.
pub open spec fn fresh_slots(numbers: Seq<u64>, tracks: Seq<TrackView>) -> Seq<SlotView>
    decreases numbers.len(),
{
    if numbers.len() == 0 {
        Seq::empty()
    } else {
        let before = fresh_slots(numbers.drop_last(), tracks);
        let n = numbers.last();
        if numbers.drop_last().contains(n) {
            before
        } else {
            before.push(
                SlotView {
                    number: n,
                    language: language_of(tracks, n),
                    assembler: fresh_assembler(),
                },
            )
        }
    }
}

/// The place of a track's slot, or the number of slots if it has none.
pub open spec fn slot_index(slots: Seq<SlotView>, number: u64) -> int
    decreases slots.len(),
{
    if slots.len() == 0 || slots[0].number == number {
        0
    } else {
        1 + slot_index(slots.skip(1), number)
    }
}

/// Display sets with the track of a slot.
pub open spec fn sets_of_slot(slot: SlotView, sets: Seq<DisplaySetView>) -> Seq<TrackSetView> {
    Seq::new(
        sets.len(),
        |i: int|
            TrackSetView {
                track_id: track_id_of(slot.number),
                language: slot.language,
                container: ContainerFormat::Matroska,
                display_set: sets[i],
            },
    )
}

/// What a block makes of the slots, and the display sets that it completes. A
/// block that cannot be decoded, or whose track is not active, is dropped.
pub open spec fn block_effect(
    slots: Seq<SlotView>,
    compression: Map<u64, CompressionView>,
    scale: u64,
    b: BlockView,
) -> (Seq<SlotView>, Seq<TrackSetView>) {
    match decoded_data(b.data, compression_for(compression, b.track_number)) {
        None => (slots, Seq::empty()),
        Some(data) => decoded_effect(slots, b.track_number, data, pts_of(b.timestamp, scale)),
    }
}

/// What decoded data with a timestamp makes of the slots, and the display sets
/// that it completes.
pub open spec fn decoded_effect(slots: Seq<SlotView>, track: u64, data: Seq<u8>, pts: u64) -> (
    Seq<SlotView>,
    Seq<TrackSetView>,
) {
    let i = slot_index(slots, track);
    if 0 <= i < slots.len() {
        let (assembler, sets) = pushed_all(slots[i].assembler, block_segments(data, pts));
        (slots.update(i, SlotView { assembler, ..slots[i] }), sets_of_slot(slots[i], sets))
    } else {
        (slots, Seq::empty())
    }
}

/// What blocks make of the slots, one after the other, and the display sets
/// that they complete.
pub open spec fn blocks_effect(
    slots: Seq<SlotView>,
    compression: Map<u64, CompressionView>,
    scale: u64,
    blocks: Seq<BlockView>,
) -> (Seq<SlotView>, Seq<TrackSetView>)
    decreases blocks.len(),
{
    if blocks.len() == 0 {
        (slots, Seq::empty())
    } else {
        let (before, sets) = blocks_effect(slots, compression, scale, blocks.drop_last());
        let (after, more) = block_effect(before, compression, scale, blocks.last());
        (after, sets + more)
    }
}

/// Where blocks come from next.
pub enum SourceView {
    /// It has not been decided yet.
    Uninitialized,
    /// From the index, at an entry; some clusters have been read whole.
    Cues { cues: Seq<PgsCuePoint>, index: int, visited: Set<u64> },
    /// From the clusters in file order.
    Scan { pos: int, end: int },
    /// From nowhere.
    Done,
}

/// What stays the same during an extraction.
pub struct MkvConfig {
    pub bytes: Seq<u8>,
    pub layout: SegmentLayout,
    pub cues: Option<Seq<PgsCuePoint>>,
    pub active: Seq<u64>,
    pub compression: Map<u64, CompressionView>,
    pub scale: u64,
    pub strategy: MkvStrategy,
    /// The first and last timestamps that are wanted, in timestamp units.
    pub start: Option<u64>,
    pub end: Option<u64>,
    /// Where the first wanted timestamp is estimated to be.
    pub estimate: Option<u64>,
}

/// Whether an index entry is for an active track and within the wanted time.
pub open spec fn cue_wanted(c: MkvConfig, cue: PgsCuePoint) -> bool {
    &&& c.active.contains(cue.track_number)
    &&& c.start matches Some(t) ==> cue.time >= t
    &&& c.end matches Some(t) ==> cue.time <= t
}

/// The wanted index entries.
pub open spec fn wanted_cues(c: MkvConfig, cues: Seq<PgsCuePoint>) -> Seq<PgsCuePoint>
    decreases cues.len(),
{
    if cues.len() == 0 {
        Seq::empty()
    } else {
        let before = wanted_cues(c, cues.drop_last());
        if cue_wanted(c, cues.last()) {
            before.push(cues.last())
        } else {
            before
        }
    }
}

/// The timestamp in the children of a cluster from `pos` on, if it can be read.
pub open spec fn cluster_time_from(s: Seq<u8>, pos: int, end: int) -> Option<u64>
    decreases
            (if pos < s.len() {
                s.len() - pos
            } else {
                0
            }),
{
    if pos >= end {
        None
    } else {
        match element_at(s, pos) {
            None => None,
            Some(e) => if e.id == ids::TIMESTAMP {
                match uint_at(s, e.data, e.size) {
                    Ok(t) => Some(t),
                    Err(_) => None,
                }
            } else {
                match end_of(e.data, e.size) {
                    Ok(next) => if next > pos {
                        cluster_time_from(s, next, end)
                    } else {
                        None
                    },
                    Err(_) => None,
                }
            },
        }
    }
}

/// The timestamp of the first cluster from `pos` on, if one starts in front of
/// `end` and it can be read.
pub open spec fn probed_time_from(s: Seq<u8>, pos: int, end: int) -> Option<u64>
    decreases
            (if pos < s.len() {
                s.len() - pos
            } else {
                0
            }),
{
    if pos >= end {
        None
    } else {
        match element_at(s, pos) {
            None => None,
            Some(e) => match end_of(e.data, e.size) {
                Err(_) => None,
                Ok(next) => if e.id == ids::CLUSTER {
                    cluster_time_from(s, e.data, next)
                } else if next > pos {
                    probed_time_from(s, next, end)
                } else {
                    None
                },
            },
        }
    }
}

/// The timestamp that a probe at a position finds.
pub open spec fn probed_time(s: Seq<u8>, pos: int, segment_end: int) -> Option<u64> {
    let limit = pos + PROBE_SCAN_LIMIT;
    probed_time_from(
        s,
        pos,
        if limit < segment_end {
            limit
        } else {
            segment_end
        },
    )
}

/// The last position that at most `n` probes between `lo` and `hi` find not to
/// be behind a timestamp, or `best` if they find none. Each probe halves the
/// range; a range below the margin ends the search.
pub open spec fn search(
    s: Seq<u8>,
    n: nat,
    lo: int,
    hi: int,
    best: int,
    start: u64,
    segment_end: int,
) -> int
    decreases n,
{
    if n == 0 || hi - lo < SEEK_MARGIN {
        best
    } else {
        let mid = lo + (hi - lo) / 2;
        match probed_time(s, mid, segment_end) {
            Some(t) => if t > start {
                search(s, (n - 1) as nat, lo, mid, best, start, segment_end)
            } else {
                search(s, (n - 1) as nat, mid, hi, mid, start, segment_end)
            },
            None => search(s, (n - 1) as nat, lo, mid, best, start, segment_end),
        }
    }
}

/// The number of bytes that looking for the timestamp in the children of a
/// cluster from `pos` on reads: headers, and the timestamp.
pub open spec fn cluster_time_reads(s: Seq<u8>, pos: int, end: int) -> int
    decreases
            (if pos < s.len() {
                s.len() - pos
            } else {
                0
            }),
{
    if pos >= end {
        0
    } else {
        element_header_reads(s, pos) + match element_at(s, pos) {
            None => 0,
            Some(e) => if e.id == ids::TIMESTAMP {
                if uint_at(s, e.data, e.size) is Ok {
                    e.size as int
                } else {
                    0
                }
            } else {
                match end_of(e.data, e.size) {
                    Ok(next) => if next > pos {
                        cluster_time_reads(s, next, end)
                    } else {
                        0
                    },
                    Err(_) => 0,
                }
            },
        }
    }
}

/// The number of bytes that looking for the timestamp of the first cluster from
/// `pos` on reads.
pub open spec fn probed_reads_from(s: Seq<u8>, pos: int, end: int) -> int
    decreases
            (if pos < s.len() {
                s.len() - pos
            } else {
                0
            }),
{
    if pos >= end {
        0
    } else {
        element_header_reads(s, pos) + match element_at(s, pos) {
            None => 0,
            Some(e) => match end_of(e.data, e.size) {
                Err(_) => 0,
                Ok(next) => if e.id == ids::CLUSTER {
                    cluster_time_reads(s, e.data, next)
                } else if next > pos {
                    probed_reads_from(s, next, end)
                } else {
                    0
                },
            },
        }
    }
}

/// The number of bytes that a probe at a position reads.
pub open spec fn probed_reads(s: Seq<u8>, pos: int, segment_end: int) -> int {
    let limit = pos + PROBE_SCAN_LIMIT;
    probed_reads_from(
        s,
        pos,
        if limit < segment_end {
            limit
        } else {
            segment_end
        },
    )
}

/// The number of bytes that at most `n` probes between `lo` and `hi` read.
pub open spec fn search_reads(
    s: Seq<u8>,
    n: nat,
    lo: int,
    hi: int,
    start: u64,
    segment_end: int,
) -> int
    decreases n,
{
    if n == 0 || hi - lo < SEEK_MARGIN {
        0
    } else {
        let mid = lo + (hi - lo) / 2;
        probed_reads(s, mid, segment_end) + match probed_time(s, mid, segment_end) {
            Some(t) => if t > start {
                search_reads(s, (n - 1) as nat, lo, mid, start, segment_end)
            } else {
                search_reads(s, (n - 1) as nat, mid, hi, start, segment_end)
            },
            None => search_reads(s, (n - 1) as nat, lo, mid, start, segment_end),
        }
    }
}

/// The number of bytes that finding where reading in file order starts reads.
pub open spec fn scan_start_reads(c: MkvConfig, first: int) -> int {
    let end = c.layout.segment_data_end as int;
    match (c.start, c.estimate) {
        (Some(start), Some(estimate)) => {
            let hi = if estimate < end {
                estimate as int
            } else {
                end
            };
            search_reads(c.bytes, 20, first, hi, start, end)
        },
        _ => 0,
    }
}

/// Where reading in file order starts, given where the first cluster is.
pub open spec fn scan_start(c: MkvConfig, first: int) -> int {
    let end = c.layout.segment_data_end as int;
    match (c.start, c.estimate) {
        (Some(start), Some(estimate)) => {
            let hi = if estimate < end {
                estimate as int
            } else {
                end
            };
            let best = search(c.bytes, 20, first, hi, first, start, end);
            if best - SEEK_MARGIN > first {
                best - SEEK_MARGIN
            } else {
                first
            }
        },
        _ => first,
    }
}

proof fn lemma_search(
    s: Seq<u8>,
    n: nat,
    lo: int,
    hi: int,
    best: int,
    start: u64,
    segment_end: int,
)
    ensures
        ({
            let p = search(s, n, lo, hi, best, start, segment_end);
            p == best || is_probed_before(s, p, start, segment_end)
        }),
    decreases n,
{
    if n > 0 && hi - lo >= SEEK_MARGIN {
        let mid = lo + (hi - lo) / 2;
        if is_probed_before(s, mid, start, segment_end) {
            lemma_search(s, (n - 1) as nat, mid, hi, mid, start, segment_end);
        } else {
            lemma_search(s, (n - 1) as nat, lo, mid, best, start, segment_end);
        }
    }
}

/// Whether a probe at a position finds a timestamp that is not behind another.
pub open spec fn is_probed_before(s: Seq<u8>, pos: int, start: u64, segment_end: int) -> bool {
    probed_time(s, pos, segment_end) matches Some(t) && t <= start
}

/// Reading in file order starts at the first cluster, or a margin in front of a
/// position where the timestamp is not behind the first that is wanted.
pub proof fn scan_starts_in_front(c: MkvConfig, first: int)
    ensures
        scan_start(c, first) == first || (c.start matches Some(start) && is_probed_before(
            c.bytes,
            scan_start(c, first) + SEEK_MARGIN,
            start,
            c.layout.segment_data_end as int,
        ) && scan_start(c, first) > first),
{
    let end = c.layout.segment_data_end as int;
    if let (Some(start), Some(estimate)) = (c.start, c.estimate) {
        let hi = if estimate < end {
            estimate as int
        } else {
            end
        };
        lemma_search(c.bytes, 20, first, hi, first, start, end);
    }
}

/// Where blocks come from first: from the index if it has wanted entries and
/// may be used, otherwise from the clusters in file order.
pub open spec fn first_source(c: MkvConfig) -> Result<SourceView, ErrorView> {
    match c.layout.first_cluster_position {
        None => Err(ErrorView::InvalidMkv("no Clusters found"@)),
        Some(first) => {
            let wanted = match c.cues {
                Some(cues) => wanted_cues(c, cues),
                None => Seq::empty(),
            };
            if c.strategy is Auto && wanted.len() > 0 {
                Ok(SourceView::Cues { cues: wanted, index: 0, visited: Set::empty() })
            } else {
                Ok(
                    SourceView::Scan {
                        pos: scan_start(c, first as int),
                        end: c.layout.segment_data_end as int,
                    },
                )
            }
        },
    }
}

/// The number of bytes that deciding where blocks come from first reads.
pub open spec fn first_source_reads(c: MkvConfig) -> int {
    match (c.layout.first_cluster_position, first_source(c)) {
        (Some(first), Ok(SourceView::Scan { .. })) => scan_start_reads(c, first as int),
        _ => 0,
    }
}

/// The first cluster from `pos` on, reading through everything in front of it.
/// There is none behind the end, behind a malformed header, or behind an
/// element of unknown size.
pub open spec fn next_cluster(s: Seq<u8>, pos: int, end: int) -> Result<Option<Element>, ErrorView>
    decreases
            (if pos < s.len() {
                s.len() - pos
            } else {
                0
            }),
{
    if pos >= end {
        Ok(None)
    } else {
        match element_at(s, pos) {
            None => Ok(None),
            Some(e) => if e.size == u64::MAX {
                Ok(None)
            } else {
                match end_of(e.data, e.size) {
                    Err(error) => Err(error),
                    Ok(next) => if e.id == ids::CLUSTER {
                        Ok(Some(e))
                    } else if e.size != 0 && next > s.len() {
                        Err(ErrorView::Io(IoError::DrainEof))
                    } else if next > pos {
                        next_cluster(s, next, end)
                    } else {
                        Ok(None)
                    },
                }
            },
        }
    }
}

/// The number of bytes that reading on to the first cluster from `pos` on reads:
/// everything in front of its data.
pub open spec fn next_cluster_reads(s: Seq<u8>, pos: int, end: int) -> int
    decreases
            (if pos < s.len() {
                s.len() - pos
            } else {
                0
            }),
{
    if pos >= end {
        0
    } else {
        element_header_reads(s, pos) + match element_at(s, pos) {
            None => 0,
            Some(e) => if e.size == u64::MAX || e.id == ids::CLUSTER {
                0
            } else {
                match end_of(e.data, e.size) {
                    Err(_) => 0,
                    Ok(next) => passed_reads(s, e.data, e.size, true) + if (e.size == 0 || next
                        <= s.len()) && next > pos {
                        next_cluster_reads(s, next, end)
                    } else {
                        0
                    },
                }
            },
        }
    }
}

/// What changes during an extraction.
pub struct MkvProgress {
    pub slots: Seq<SlotView>,
    pub source: SourceView,
    pub pending: Seq<TrackSetView>,
}

/// What taking the next blocks makes of an extraction; nothing if there are
/// none.
pub open spec fn advanced(c: MkvConfig, p: MkvProgress) -> Result<Option<MkvProgress>, ErrorView> {
    match p.source {
        SourceView::Cues { cues, index, visited } => if 0 <= index < cues.len() {
            match cue_blocks(c.bytes, cues[index], c.active, visited) {
                Err(e) => Err(e),
                Ok((blocks, seen)) => Ok(
                    Some(
                        with_blocks(
                            c,
                            p,
                            blocks,
                            SourceView::Cues { cues, index: index + 1, visited: seen },
                        ),
                    ),
                ),
            }
        } else {
            Ok(None)
        },
        SourceView::Scan { pos, end } => match next_cluster(c.bytes, pos, end) {
            Err(e) => Err(e),
            Ok(None) => Ok(None),
            Ok(Some(cluster)) => match cluster_blocks(
                c.bytes,
                cluster.data,
                cluster.size,
                cluster.data,
                c.active,
                true,
            ) {
                Err(e) => Err(e),
                Ok((blocks, _)) => Ok(
                    Some(
                        with_blocks(
                            c,
                            p,
                            blocks,
                            SourceView::Scan { pos: cluster.data + cluster.size, end },
                        ),
                    ),
                ),
            },
        },
        _ => Ok(None),
    }
}

/// The number of bytes that taking the next blocks reads.
pub open spec fn advanced_reads(c: MkvConfig, source: SourceView) -> int {
    match source {
        SourceView::Cues { cues, index, visited } => if 0 <= index < cues.len() {
            cue_reads(
                c.bytes,
                cues[index],
                c.active,
                visited,
                cues_known(c.bytes, cues.take(index)),
            )
        } else {
            0
        },
        SourceView::Scan { pos, end } => next_cluster_reads(c.bytes, pos, end)
            + match next_cluster(c.bytes, pos, end) {
            Ok(Some(cluster)) => cluster_reads(
                c.bytes,
                cluster.data,
                cluster.size,
                cluster.data,
                c.active,
                true,
            ),
            _ => 0,
        },
        _ => 0,
    }
}

/// An extraction that has processed blocks and goes on from a source.
pub open spec fn with_blocks(
    c: MkvConfig,
    p: MkvProgress,
    blocks: Seq<BlockView>,
    source: SourceView,
) -> MkvProgress {
    let (slots, sets) = blocks_effect(p.slots, c.compression, c.scale, blocks);
    MkvProgress { slots, source, pending: p.pending + sets }
}

/// How much a source can still give.
pub open spec fn source_measure(c: MkvConfig, source: SourceView) -> int {
    match source {
        SourceView::Cues { cues, index, .. } => if index < cues.len() {
            cues.len() - index
        } else {
            0
        },
        SourceView::Scan { pos, .. } => if pos < c.bytes.len() {
            c.bytes.len() - pos
        } else {
            0
        },
        _ => 0,
    }
}

/// The next outcome of an extraction, and the extraction after it: a display
/// set, an error, or nothing at the end. An error ends it.
pub open spec fn mkv_next(c: MkvConfig, p: MkvProgress) -> (
    Option<Result<TrackSetView, ErrorView>>,
    MkvProgress,
)
    decreases source_measure(c, p.source),
    via mkv_next_decreases
{
    if p.pending.len() > 0 {
        (Some(Ok(p.pending[0])), MkvProgress { pending: p.pending.skip(1), ..p })
    } else {
        match advanced(c, p) {
            Err(e) => (Some(Err(e)), MkvProgress { source: SourceView::Done, ..p }),
            Ok(None) => (None, MkvProgress { source: SourceView::Done, ..p }),
            Ok(Some(next)) => mkv_next(c, next),
        }
    }
}

#[via_fn]
proof fn mkv_next_decreases(c: MkvConfig, p: MkvProgress) {
    lemma_advanced(c, p);
}

/// The number of bytes that are read for the next outcome of an extraction:
/// those of the blocks that are taken until there is one.
pub open spec fn mkv_next_reads(c: MkvConfig, p: MkvProgress) -> int
    decreases source_measure(c, p.source),
    via mkv_next_reads_decreases
{
    if p.pending.len() > 0 {
        0
    } else {
        advanced_reads(c, p.source) + match advanced(c, p) {
            Ok(Some(next)) => mkv_next_reads(c, next),
            _ => 0,
        }
    }
}

#[via_fn]
proof fn mkv_next_reads_decreases(c: MkvConfig, p: MkvProgress) {
    lemma_advanced(c, p);
}

pub(crate) proof fn lemma_advanced(c: MkvConfig, p: MkvProgress)
    ensures
        advanced(c, p) matches Ok(Some(next)) ==> 0 <= source_measure(c, next.source)
            < source_measure(c, p.source),
{
    match p.source {
        SourceView::Scan { pos, end } => {
            lemma_next_cluster(c.bytes, pos, end);
        },
        _ => {},
    }
}

/// Once it is decided where blocks come from, it stays decided.
proof fn lemma_decided(c: MkvConfig, p: MkvProgress)
    requires
        !(p.source is Uninitialized),
    ensures
        !(mkv_next(c, p).1.source is Uninitialized),
    decreases source_measure(c, p.source),
{
    if p.pending.len() == 0 {
        if let Ok(Some(next)) = advanced(c, p) {
            lemma_advanced(c, p);
            lemma_decided(c, next);
        }
    }
}

proof fn lemma_next_cluster(s: Seq<u8>, pos: int, end: int)
    ensures
        next_cluster(s, pos, end) matches Ok(Some(e)) ==> pos < e.data && pos < s.len() && e.data
            + e.size <= u64::MAX && e.data <= s.len(),
    decreases
            (if pos < s.len() {
                s.len() - pos
            } else {
                0
            }),
{
    if pos < end {
        match element_at(s, pos) {
            None => {},
            Some(e) => {
                if e.size != u64::MAX && e.id != ids::CLUSTER {
                    match end_of(e.data, e.size) {
                        Err(_) => {},
                        Ok(next) => {
                            if next > pos && next <= s.len() {
                                lemma_next_cluster(s, next, end);
                            }
                        },
                    }
                }
            },
        }
    }
}

/// Where blocks come from next.
enum MkvBlockSource {
    Uninitialized,
    Cues {
        cue_points: Vec<PgsCuePoint>,
        index: usize,
        cluster_header_cache: HashMap<u64, u64>,
        visited_clusters: HashSet<u64>,
    },
    SequentialScan { current_position: u64, segment_data_end: u64 },
    Done,
}

impl View for MkvBlockSource {
    type V = SourceView;

    closed spec fn view(&self) -> SourceView {
        match self {
            MkvBlockSource::Uninitialized => SourceView::Uninitialized,
            MkvBlockSource::Cues { cue_points, index, visited_clusters, .. } => SourceView::Cues {
                cues: cue_points@,
                index: *index as int,
                visited: visited_clusters@,
            },
            MkvBlockSource::SequentialScan { current_position, segment_data_end } => {
                SourceView::Scan { pos: *current_position as int, end: *segment_data_end as int }
            },
            MkvBlockSource::Done => SourceView::Done,
        }
    }
}

/// Extracts the display sets of a Matroska file.
pub struct MkvExtractorState<R: Source> {
    reader: SeekBufReader<R>,
    metadata: MkvMetadata,
    source: MkvBlockSource,
    slots: Vec<TrackSlot>,
    active_tracks: Vec<u64>,
    pending: VecDeque<TrackDisplaySet>,
    yielded: bool,
    strategy: MkvStrategy,
    start: Option<u64>,
    end: Option<u64>,
    estimate: Option<u64>,
}

/// What stays the same during an extraction from a file that is known, of the
/// tracks that a filter of identifiers leaves.
pub open spec fn fresh_mkv_config(
    bytes: Seq<u8>,
    m: MetadataView,
    filter: Option<Seq<u32>>,
    strategy: MkvStrategy,
) -> MkvConfig {
    MkvConfig {
        bytes,
        layout: m.layout,
        cues: m.cue_points,
        active: active_of(m.pgs_track_numbers, filter),
        compression: m.compression_map,
        scale: m.timestamp_scale,
        strategy,
        start: None,
        end: None,
        estimate: None,
    }
}

/// An extraction that has not started, of the tracks that a filter of
/// identifiers leaves.
pub open spec fn fresh_mkv_progress(m: MetadataView, filter: Option<Seq<u32>>) -> MkvProgress {
    MkvProgress {
        slots: fresh_slots(active_of(m.pgs_track_numbers, filter), m.pgs_tracks),
        source: SourceView::Uninitialized,
        pending: Seq::empty(),
    }
}

/// What is known about the tracks that a filter of identifiers leaves.
pub open spec fn mkv_infos(
    tracks: Seq<TrackView>,
    counts: Map<u64, u64>,
    cues: Option<Seq<PgsCuePoint>>,
    filter: Option<Seq<u32>>,
) -> Seq<TrackInfoView>
    decreases tracks.len(),
{
    if tracks.len() == 0 {
        Seq::empty()
    } else {
        let before = mkv_infos(tracks.drop_last(), counts, cues, filter);
        let t = tracks.last();
        match filter {
            Some(ids) => if ids.contains(track_id_of(t.track_number)) {
                before.push(mkv_info(t, counts, cues))
            } else {
                before
            },
            None => before.push(mkv_info(t, counts, cues)),
        }
    }
}

fn active_numbers(numbers: &Vec<u64>, filter: Option<&[u32]>) -> (r: Vec<u64>)
    ensures
        r@ == active_of(numbers@, filter_view(filter)),
{
    let mut active: Vec<u64> = Vec::new();
    let mut i: usize = 0;
    while i < numbers.len()
        invariant
            i <= numbers@.len(),
            active@ == active_of(numbers@.take(i as int), filter_view(filter)),
        decreases numbers@.len() - i,
    {
        let n: u64 = numbers[i];
        let wanted = match filter {
            Some(ids) => contains_u32(ids, id_of_number(n)),
            None => true,
        };
        if wanted {
            active.push(n);
        }
        i += 1;
        assert(numbers@.take(i as int).drop_last() =~= numbers@.take(i - 1));
    }
    assert(numbers@.take(i as int) =~= numbers@);
    active
}

/// The place of the last track with a number.
fn find_track(tracks: &Vec<MkvPgsTrack>, number: u64) -> (r: Option<usize>)
    ensures
        match (r, track_with(track_views(tracks@), number)) {
            (Some(i), Some(t)) => i < tracks@.len() && tracks@[i as int]@ == t,
            (None, None) => true,
            _ => false,
        },
{
    let ghost views = track_views(tracks@);
    let mut i: usize = tracks.len();
    assert(views.take(i as int) =~= views);
    while i > 0
        invariant
            i <= tracks@.len(),
            views == track_views(tracks@),
            track_with(views, number) == track_with(views.take(i as int), number),
        decreases i,
    {
        i -= 1;
        assert(views.take(i + 1).drop_last() =~= views.take(i as int));
        assert(views.take(i + 1).last() == tracks@[i as int]@);
        if tracks[i].track_number == number {
            return Some(i);
        }
    }
    None
}

fn make_slots(numbers: &Vec<u64>, tracks: &Vec<MkvPgsTrack>) -> (r: Vec<TrackSlot>)
    ensures
        slot_views(r@) == fresh_slots(numbers@, track_views(tracks@)),
{
    let ghost views = track_views(tracks@);
    let mut slots: Vec<TrackSlot> = Vec::new();
    let mut i: usize = 0;
    assert(slot_views(slots@) =~= fresh_slots(numbers@.take(0), views));
    while i < numbers.len()
        invariant
            i <= numbers@.len(),
            views == track_views(tracks@),
            slot_views(slots@) == fresh_slots(numbers@.take(i as int), views),
        decreases numbers@.len() - i,
    {
        let number: u64 = numbers[i];
        let seen = vstd::slice::slice_subrange(numbers.as_slice(), 0, i);
        let ghost more = numbers@.take(i + 1);
        assert(seen@ =~= more.drop_last());
        assert(more.drop_last() =~= numbers@.take(i as int));
        let ghost before = slot_views(slots@);
        if !contains_u64(seen, number) {
            let language = match find_track(tracks, number) {
                Some(k) => copy_text(&tracks[k].language),
                None => None,
            };
            let slot = TrackSlot { number, language, assembler: DisplaySetAssembler::new() };
            slots.push(slot);
            assert(slot_views(slots@) =~= before.push(slot@));
        }
        i += 1;
    }
    assert(numbers@.take(i as int) =~= numbers@);
    slots
}

pub(crate) proof fn lemma_slot_index(slots: Seq<SlotView>, number: u64, i: int)
    requires
        0 <= i <= slots.len(),
        forall|j: int| 0 <= j < i ==> (#[trigger] slots[j]).number != number,
        i < slots.len() ==> slots[i].number == number,
    ensures
        slot_index(slots, number) == i,
    decreases slots.len(),
{
    if i > 0 {
        assert(slots[0].number != number);
        assert forall|j: int| 0 <= j < i - 1 implies (#[trigger] slots.skip(1)[j]).number
            != number by {
            assert(slots.skip(1)[j] == slots[j + 1]);
        }
        lemma_slot_index(slots.skip(1), number, i - 1);
    }
}

impl<R: Source> MkvExtractorState<R> {
    /// What stays the same during the extraction.
    pub closed spec fn config(&self) -> MkvConfig {
        MkvConfig {
            bytes: self.reader.bytes(),
            layout: self.metadata.layout,
            cues: self.metadata@.cue_points,
            active: self.active_tracks@,
            compression: self.metadata@.compression_map,
            scale: self.metadata.timestamp_scale,
            strategy: self.strategy,
            start: self.start,
            end: self.end,
            estimate: self.estimate,
        }
    }

    /// What changes during the extraction.
    pub closed spec fn progress(&self) -> MkvProgress {
        MkvProgress {
            slots: slot_views(self.slots@),
            source: self.source@,
            pending: track_set_views(self.pending@),
        }
    }

    /// What is known about the file.
    pub closed spec fn meta(&self) -> MetadataView {
        self.metadata@
    }

    /// Whether a display set has been handed out.
    pub closed spec fn has_yielded(&self) -> bool {
        self.yielded
    }

    /// The number of bytes that were read.
    pub closed spec fn consumed(&self) -> u64 {
        self.reader.consumed()
    }

    /// Whether remembered cluster positions are right.
    pub closed spec fn wf(&self) -> bool {
        self.source matches MkvBlockSource::Cues { cue_points, index, cluster_header_cache, .. }
            ==> {
            &&& index <= cue_points@.len()
            &&& cache_valid(self.reader.bytes(), cluster_header_cache@)
            &&& cluster_header_cache@.dom() == cues_known(
                self.reader.bytes(),
                cue_points@.take(index as int),
            )
        }
    }

    /// An extraction of the tracks that a filter of identifiers leaves, or of
    /// all PGS tracks without one.
    pub fn new(
        reader: SeekBufReader<R>,
        metadata: MkvMetadata,
        track_filter: Option<&[u32]>,
        strategy: MkvStrategy,
    ) -> (r: Self)
        ensures
            r.wf(),
            r.config() == fresh_mkv_config(
                reader.bytes(),
                metadata@,
                filter_view(track_filter),
                strategy,
            ),
            r.progress() == fresh_mkv_progress(metadata@, filter_view(track_filter)),
            r.meta() == metadata@,
            !r.has_yielded(),
            r.consumed() == reader.consumed(),
    {
        let active_tracks = active_numbers(&metadata.pgs_track_numbers, track_filter);
        let slots = make_slots(&active_tracks, &metadata.pgs_tracks);
        let pending: VecDeque<TrackDisplaySet> = VecDeque::new();
        assert(track_set_views(pending@) =~= Seq::<TrackSetView>::empty());
        MkvExtractorState {
            reader,
            metadata,
            source: MkvBlockSource::Uninitialized,
            slots,
            active_tracks,
            pending,
            yielded: false,
            strategy,
            start: None,
            end: None,
            estimate: None,
        }
    }

    /// The number of bytes that were read.
    pub fn bytes_read(&self) -> (r: u64)
        ensures
            r == self.consumed(),
    {
        self.reader.bytes_read()
    }

    /// The extraction from its start again, with another filter and strategy.
    /// The bytes that are read are counted from `count` on.
    pub fn restarted(
        self,
        track_filter: Option<&[u32]>,
        strategy: MkvStrategy,
        count: u64,
    ) -> (r: Self)
        requires
            self.wf(),
        ensures
            r.wf(),
            r.meta() == self.meta(),
            r.config() == fresh_mkv_config(
                self.config().bytes,
                self.meta(),
                filter_view(track_filter),
                strategy,
            ),
            r.progress() == fresh_mkv_progress(self.meta(), filter_view(track_filter)),
            !r.has_yielded(),
            r.consumed() == count,
    {
        let mut reader = self.reader;
        reader.recount(count);
        MkvExtractorState::new(reader, self.metadata, track_filter, strategy)
    }

    /// What is known about the tracks that a filter of identifiers leaves.
    pub fn track_infos(&self, track_filter: Option<&[u32]>) -> (r: Vec<PgsTrackInfo>)
        ensures
            info_views(r@) == mkv_infos(
                self.meta().pgs_tracks,
                self.meta().frame_counts,
                self.meta().cue_points,
                filter_view(track_filter),
            ),
    {
        let ghost m = self.metadata@;
        let ghost views = m.pgs_tracks;
        let ghost filter = filter_view(track_filter);
        let mut infos: Vec<PgsTrackInfo> = Vec::new();
        let mut i: usize = 0;
        assert(info_views(infos@) =~= mkv_infos(
            views.take(0),
            m.frame_counts,
            m.cue_points,
            filter,
        ));
        while i < self.metadata.pgs_tracks.len()
            invariant
                i <= self.metadata.pgs_tracks@.len(),
                m == self.metadata@,
                views == m.pgs_tracks,
                filter == filter_view(track_filter),
                info_views(infos@) == mkv_infos(
                    views.take(i as int),
                    m.frame_counts,
                    m.cue_points,
                    filter,
                ),
            decreases self.metadata.pgs_tracks@.len() - i,
        {
            let track = &self.metadata.pgs_tracks[i];
            let wanted = match track_filter {
                Some(ids) => contains_u32(ids, id_of_number(track.track_number)),
                None => true,
            };
            let ghost before = info_views(infos@);
            if wanted {
                let info = mkv_track_to_info(
                    track,
                    &self.metadata.frame_counts,
                    &self.metadata.cue_points,
                );
                infos.push(info);
                assert(info_views(infos@) =~= before.push(info@));
            }
            i += 1;
            proof {
                assert(views.take(i as int).drop_last() =~= views.take(i - 1));
                assert(views.take(i as int).last() == track@);
            }
        }
        assert(views.take(i as int) =~= views);
        infos
    }

    /// Where the first cluster is, where the segment's data ends, and the
    /// duration that the file gives.
    pub fn extent(&self) -> (r: (Option<u64>, u64, Option<FloatBits>))
        ensures
            r == (
                self.meta().layout.first_cluster_position,
                self.meta().layout.segment_data_end,
                self.meta().duration,
            ),
    {
        (
            self.metadata.layout.first_cluster_position,
            self.metadata.layout.segment_data_end,
            self.metadata.duration,
        )
    }

    /// Nanoseconds per timestamp unit.
    pub fn timestamp_scale(&self) -> (r: u64)
        ensures
            r == self.config().scale,
    {
        self.metadata.timestamp_scale
    }

    /// The first and last timestamps that are wanted, in timestamp units, and
    /// where in the file the first one is estimated to be.
    pub fn set_time_range(&mut self, start: Option<u64>, end: Option<u64>, estimate: Option<u64>)
        requires
            old(self).wf(),
        ensures
            final(self).wf(),
            final(self).config() == (MkvConfig { start, end, estimate, ..old(self).config() }),
            final(self).progress() == old(self).progress(),
            final(self).meta() == old(self).meta(),
            final(self).has_yielded() == old(self).has_yielded(),
            final(self).consumed() == old(self).consumed(),
    {
        self.start = start;
        self.end = end;
        self.estimate = estimate;
    }

    /// The timestamp in the cluster whose data is next and ends at `end`.
    fn probe_cluster_children(&mut self, end: u64) -> (r: Option<u64>)
        ensures
            r == cluster_time_from(
                old(self).config().bytes,
                old(self).reader.at() as int,
                end as int,
            ),
            final(self).reader.bytes() == old(self).reader.bytes(),
            ({
                let reads = cluster_time_reads(
                    old(self).reader.bytes(),
                    old(self).reader.at() as int,
                    end as int,
                );
                &&& final(self).reader.consumed() == counted(old(self).reader.consumed(), reads)
                &&& reads >= 0
            }),
            final(self).same_but_reader(old(self)),
    {
        let ghost s = self.reader.bytes();
        let ghost goal = cluster_time_from(s, self.reader.at() as int, end as int);
        let ghost reads = cluster_time_reads(s, self.reader.at() as int, end as int);
        let ghost mut done: int = 0;
        while self.reader.position() < end
            invariant
                self.reader.bytes() == s,
                done >= 0,
                self.reader.consumed() == counted(old(self).reader.consumed(), done),
                reads == cluster_time_reads(s, old(self).reader.at() as int, end as int),
                reads == done + cluster_time_reads(s, self.reader.at() as int, end as int),
                s == old(self).reader.bytes(),
                self.same_but_reader(old(self)),
                goal == cluster_time_from(s, old(self).reader.at() as int, end as int),
                goal == cluster_time_from(s, self.reader.at() as int, end as int),
            decreases
                    (if self.reader.at() < s.len() {
                        s.len() - self.reader.at()
                    } else {
                        0
                    }),
        {
            let ghost pos = self.reader.at() as int;
            let (id, size) = match read_element(&mut self.reader) {
                Ok(e) => e,
                Err(_) => {
                    return None;
                },
            };
            assert(pos < s.len());
            proof {
                done = done + element_header_reads(s, pos);
            }
            if id == ids::TIMESTAMP {
                return match self.reader.read_uint_be(size) {
                    Ok(t) => Some(t),
                    Err(_) => None,
                };
            }
            match self.reader.skip(size) {
                Ok(()) => {},
                Err(_) => {
                    return None;
                },
            }
        }
        None
    }

    /// Whether two extractions differ at most in their readers.
    closed spec fn same_but_reader(&self, other: &Self) -> bool {
        &&& self.metadata == other.metadata
        &&& self.source == other.source
        &&& self.slots == other.slots
        &&& self.active_tracks == other.active_tracks
        &&& self.pending == other.pending
        &&& self.yielded == other.yielded
        &&& self.strategy == other.strategy
        &&& self.start == other.start
        &&& self.end == other.end
        &&& self.estimate == other.estimate
    }

    /// The timestamp of the first cluster at or behind a position.
    fn probe_cluster_timestamp(&mut self, position: u64, segment_end: u64) -> (r: Option<u64>)
        ensures
            r == probed_time(old(self).config().bytes, position as int, segment_end as int),
            final(self).reader.bytes() == old(self).reader.bytes(),
            ({
                let reads = probed_reads(
                    old(self).config().bytes,
                    position as int,
                    segment_end as int,
                );
                &&& final(self).reader.consumed() == counted(old(self).reader.consumed(), reads)
                &&& reads >= 0
            }),
            final(self).same_but_reader(old(self)),
    {
        let ghost s = self.reader.bytes();
        let ghost reads = probed_reads(s, position as int, segment_end as int);
        let ghost mut done: int = 0;
        let _ = self.reader.seek_to(position);
        let limit: u64 = position.saturating_add(PROBE_SCAN_LIMIT);
        let scan_end: u64 = if limit < segment_end { limit } else { segment_end };
        let ghost goal = probed_time(s, position as int, segment_end as int);
        while self.reader.position() < scan_end
            invariant
                self.reader.bytes() == s,
                done >= 0,
                self.reader.consumed() == counted(old(self).reader.consumed(), done),
                reads == probed_reads(s, position as int, segment_end as int),
                reads == done + probed_reads_from(s, self.reader.at() as int, scan_end as int),
                s == old(self).reader.bytes(),
                self.same_but_reader(old(self)),
                goal == probed_time(s, position as int, segment_end as int),
                goal == probed_time_from(s, self.reader.at() as int, scan_end as int),
            decreases
                    (if self.reader.at() < s.len() {
                        s.len() - self.reader.at()
                    } else {
                        0
                    }),
        {
            let ghost pos = self.reader.at() as int;
            let (id, size) = match read_element(&mut self.reader) {
                Ok(e) => e,
                Err(_) => {
                    return None;
                },
            };
            assert(pos < s.len());
            proof {
                done = done + element_header_reads(s, pos);
            }
            let end = match element_end(self.reader.position(), size) {
                Ok(end) => end,
                Err(_) => {
                    return None;
                },
            };
            if id == ids::CLUSTER {
                return self.probe_cluster_children(end);
            }
            let _ = self.reader.seek_to(end);
        }
        None
    }

    /// Finds where reading in file order starts.
    fn find_scan_start(&mut self, first: u64) -> (r: u64)
        ensures
            r == scan_start(old(self).config(), first as int),
            final(self).reader.bytes() == old(self).reader.bytes(),
            ({
                let reads = scan_start_reads(old(self).config(), first as int);
                &&& final(self).reader.consumed() == counted(old(self).reader.consumed(), reads)
                &&& reads >= 0
            }),
            final(self).same_but_reader(old(self)),
    {
        let segment_end: u64 = self.metadata.layout.segment_data_end;
        let ghost s = self.reader.bytes();
        let (start, estimate) = match (self.start, self.estimate) {
            (Some(start), Some(estimate)) => (start, estimate),
            _ => {
                return first;
            },
        };
        let mut lo: u64 = first;
        let mut hi: u64 = if estimate < segment_end { estimate } else { segment_end };
        let mut best: u64 = first;
        let mut n: u8 = 20;
        let ghost goal = search(
            s,
            20,
            first as int,
            hi as int,
            first as int,
            start,
            segment_end as int,
        );
        let ghost reads = search_reads(
            s,
            20,
            first as int,
            hi as int,
            start,
            segment_end as int,
        );
        let ghost mut done: int = 0;
        while n > 0 && hi >= lo && hi - lo >= SEEK_MARGIN
            invariant
                self.reader.bytes() == s,
                done >= 0,
                self.reader.consumed() == counted(old(self).reader.consumed(), done),
                reads == done + search_reads(
                    s,
                    n as nat,
                    lo as int,
                    hi as int,
                    start,
                    segment_end as int,
                ),
                s == old(self).reader.bytes(),
                self.same_but_reader(old(self)),
                goal == search(
                    s,
                    n as nat,
                    lo as int,
                    hi as int,
                    best as int,
                    start,
                    segment_end as int,
                ),
            decreases n,
        {
            let mid: u64 = lo + (hi - lo) / 2;
            n -= 1;
            proof {
                done = done + probed_reads(s, mid as int, segment_end as int);
            }
            match self.probe_cluster_timestamp(mid, segment_end) {
                Some(t) => {
                    if t > start {
                        hi = mid;
                    } else {
                        best = mid;
                        lo = mid;
                    }
                },
                None => {
                    hi = mid;
                },
            }
        }
        if best >= SEEK_MARGIN && best - SEEK_MARGIN > first {
            best - SEEK_MARGIN
        } else {
            first
        }
    }

    /// The wanted index entries.
    fn filter_cues(&self) -> (r: Vec<PgsCuePoint>)
        ensures
            r@ == match self.config().cues {
                Some(cues) => wanted_cues(self.config(), cues),
                None => Seq::empty(),
            },
    {
        let ghost c = self.config();
        let mut wanted: Vec<PgsCuePoint> = Vec::new();
        match &self.metadata.cue_points {
            None => {},
            Some(points) => {
                let mut i: usize = 0;
                while i < points.len()
                    invariant
                        i <= points@.len(),
                        c == self.config(),
                        wanted@ == wanted_cues(c, points@.take(i as int)),
                    decreases points@.len() - i,
                {
                    let cue = points[i];
                    let late_enough = match self.start {
                        Some(t) => cue.time >= t,
                        None => true,
                    };
                    let early_enough = match self.end {
                        Some(t) => cue.time <= t,
                        None => true,
                    };
                    if contains_u64(self.active_tracks.as_slice(), cue.track_number) && late_enough
                        && early_enough {
                        wanted.push(cue);
                    }
                    i += 1;
                    proof {
                        assert(points@.take(i as int).drop_last() =~= points@.take(i - 1));
                        assert(points@.take(i as int).last() == cue);
                    }
                }
                assert(points@.take(i as int) =~= points@);
            },
        }
        wanted
    }

    /// Decides where blocks come from.
    fn init_source(&mut self) -> (r: Result<(), PgsError>)
        requires
            old(self).wf(),
        ensures
            final(self).wf(),
            final(self).config() == old(self).config(),
            final(self).meta() == old(self).meta(),
            final(self).has_yielded() == old(self).has_yielded(),
            match first_source(old(self).config()) {
                Ok(SourceView::Scan { .. }) => final(self).consumed() == counted(
                    0,
                    first_source_reads(old(self).config()),
                ) && first_source_reads(old(self).config()) >= 0,
                _ => final(self).consumed() == old(self).consumed(),
            },
            match (r, first_source(old(self).config())) {
                (Ok(()), Ok(source)) => final(self).progress() == (MkvProgress {
                    source,
                    ..old(self).progress()
                }),
                (Err(e), Err(v)) => e@ == v && final(self).progress() == old(self).progress(),
                _ => false,
            },
    {
        let first = match self.metadata.layout.first_cluster_position {
            Some(at) => at,
            None => {
                return Err(PgsError::InvalidMkv("no Clusters found".to_owned()));
            },
        };
        if self.strategy == MkvStrategy::Auto {
            let wanted = self.filter_cues();
            if wanted.len() > 0 {
                let cluster_header_cache: HashMap<u64, u64> = HashMap::new();
                let visited_clusters: HashSet<u64> = HashSet::new();
                assert(visited_clusters@ =~= Set::<u64>::empty());
                assert(cluster_header_cache@.dom() =~= Set::<u64>::empty());
                self.source = MkvBlockSource::Cues {
                    cue_points: wanted,
                    index: 0,
                    cluster_header_cache,
                    visited_clusters,
                };
                return Ok(());
            }
        }
        self.reader.restart(SEQ_BUF_SIZE);
        let start: u64 = self.find_scan_start(first);
        self.source = MkvBlockSource::SequentialScan {
            current_position: start,
            segment_data_end: self.metadata.layout.segment_data_end,
        };
        Ok(())
    }
}

impl<R: Source> MkvExtractorState<R> {
    /// Gives decoded data with a timestamp to the track that it belongs to. The
    /// display sets that it completes become pending.
    fn feed(&mut self, track: u64, data: &[u8], pts: u64)
        ensures
            final(self).reader == old(self).reader,
            final(self).metadata == old(self).metadata,
            final(self).source == old(self).source,
            final(self).active_tracks == old(self).active_tracks,
            final(self).yielded == old(self).yielded,
            final(self).strategy == old(self).strategy,
            final(self).start == old(self).start,
            final(self).end == old(self).end,
            final(self).estimate == old(self).estimate,
            ({
                let (slots, sets) = decoded_effect(slot_views(old(self).slots@), track, data@, pts);
                &&& slot_views(final(self).slots@) == slots
                &&& track_set_views(final(self).pending@) == track_set_views(old(self).pending@)
                    + sets
            }),
    {
        let ghost before = slot_views(self.slots@);
        let ghost waiting = track_set_views(self.pending@);
        let mut i: usize = 0;
        while i < self.slots.len() && self.slots[i].number != track
            invariant
                *self == *old(self),
                before == slot_views(self.slots@),
                i <= self.slots@.len(),
                forall|j: int| 0 <= j < i ==> (#[trigger] self.slots@[j]).number != track,
            decreases self.slots@.len() - i,
        {
            i += 1;
        }
        proof {
            assert forall|j: int| 0 <= j < i implies (#[trigger] before[j]).number != track by {
                assert(before[j] == self.slots@[j]@);
            }
            if i < before.len() {
                assert(before[i as int] == self.slots@[i as int]@);
            }
            lemma_slot_index(before, track, i as int);
        }
        if i >= self.slots.len() {
            assert(waiting + Seq::<TrackSetView>::empty() =~= waiting);
            return ;
        }
        let ghost slot = before[i as int];
        let mut collected: Vec<DisplaySet> = Vec::new();
        let state = &mut self.slots[i];
        process_pgs_block(data, pts, &mut state.assembler, &mut collected);
        assert(slot_views(self.slots@) =~= decoded_effect(before, track, data@, pts).0);
        let ghost sets = set_views(collected@);
        assert(set_views(Seq::<DisplaySet>::empty()) + sets =~= sets);
        assert(sets == pushed_all(slot.assembler, block_segments(data@, pts)).1);
        let ghost wanted = sets_of_slot(slot, sets);
        let ghost this = *self;
        assert(waiting + wanted.take(0) =~= waiting);
        for ds in it: collected
            invariant
                sets == set_views(it.seq()),
                wanted == sets_of_slot(slot, sets),
                i < self.slots@.len(),
                self.slots@[i as int]@.number == slot.number,
                self.slots@[i as int]@.language == slot.language,
                self.same_but_pending(&this),
                track_set_views(self.pending@) == waiting + wanted.take(it.index() as int),
        {
            let ghost k = it.index() as int;
            let ghost had = track_set_views(self.pending@);
            let tds = TrackDisplaySet {
                track_id: id_of_number(self.slots[i].number),
                language: copy_text(&self.slots[i].language),
                container: ContainerFormat::Matroska,
                display_set: ds,
            };
            self.pending.push_back(tds);
            proof {
                assert(tds@ == wanted[k]);
                assert(track_set_views(self.pending@) =~= had.push(tds@));
                assert(waiting + wanted.take(k + 1) =~= had.push(tds@));
            }
        }
        assert(wanted.take(wanted.len() as int) =~= wanted);
    }

    /// Whether two extractions differ at most in what is pending.
    closed spec fn same_but_pending(&self, other: &Self) -> bool {
        &&& self.reader == other.reader
        &&& self.metadata == other.metadata
        &&& self.source == other.source
        &&& self.slots == other.slots
        &&& self.active_tracks == other.active_tracks
        &&& self.yielded == other.yielded
        &&& self.strategy == other.strategy
        &&& self.start == other.start
        &&& self.end == other.end
        &&& self.estimate == other.estimate
    }

    /// Decodes blocks and gives each to the track that it belongs to.
    fn process_blocks(&mut self, blocks: Vec<PgsBlock>)
        ensures
            final(self).reader == old(self).reader,
            final(self).metadata == old(self).metadata,
            final(self).source == old(self).source,
            final(self).active_tracks == old(self).active_tracks,
            final(self).yielded == old(self).yielded,
            final(self).strategy == old(self).strategy,
            final(self).start == old(self).start,
            final(self).end == old(self).end,
            final(self).estimate == old(self).estimate,
            ({
                let (slots, sets) = blocks_effect(
                    slot_views(old(self).slots@),
                    old(self).config().compression,
                    old(self).config().scale,
                    block_views(blocks@),
                );
                &&& slot_views(final(self).slots@) == slots
                &&& track_set_views(final(self).pending@) == track_set_views(old(self).pending@)
                    + sets
            }),
    {
        broadcast use vstd::std_specs::hash::group_hash_axioms;

        let ghost all = block_views(blocks@);
        let ghost waiting = track_set_views(self.pending@);
        let ghost compression = self.config().compression;
        let ghost scale = self.config().scale;
        let ghost first = slot_views(self.slots@);
        let mut i: usize = 0;
        assert(waiting + Seq::<TrackSetView>::empty() =~= waiting);
        while i < blocks.len()
            invariant
                i <= blocks@.len(),
                all == block_views(blocks@),
                self.reader == old(self).reader,
                self.metadata == old(self).metadata,
                self.source == old(self).source,
                self.active_tracks == old(self).active_tracks,
                self.yielded == old(self).yielded,
                self.strategy == old(self).strategy,
                self.start == old(self).start,
                self.end == old(self).end,
                self.estimate == old(self).estimate,
                compression == self.config().compression,
                scale == self.config().scale,
                slot_views(self.slots@) == blocks_effect(
                    first,
                    compression,
                    scale,
                    all.take(i as int),
                ).0,
                track_set_views(self.pending@) == waiting + blocks_effect(
                    first,
                    compression,
                    scale,
                    all.take(i as int),
                ).1,
            decreases blocks@.len() - i,
        {
            let block = &blocks[i];
            let ghost some = all.take(i + 1);
            let ghost had = track_set_views(self.pending@);
            let ghost slots = slot_views(self.slots@);
            proof {
                assert(some.drop_last() =~= all.take(i as int));
                assert(some.last() == block@);
            }
            let comp = self.metadata.compression_map.get(&block.track_number);
            let decoded = try_decode_block_data(block.data.as_slice(), comp);
            if let Some(data) = decoded {
                let pts: u64 = mkv_timestamp_to_pts(
                    block.timestamp,
                    self.metadata.timestamp_scale,
                );
                self.feed(block.track_number, data.as_slice(), pts);
            }
            i += 1;
            proof {
                let (after, more) = block_effect(slots, compression, scale, block@);
                assert(slot_views(self.slots@) == after);
                assert(had + Seq::<TrackSetView>::empty() =~= had);
                assert(track_set_views(self.pending@) == had + more);
                assert(track_set_views(self.pending@) =~= waiting + blocks_effect(
                    first,
                    compression,
                    scale,
                    some,
                ).1);
            }
        }
        assert(all.take(i as int) =~= all);
    }

    /// Reads on to the next cluster in file order. Returns where its data
    /// starts and how large it is.
    fn read_next_cluster(&mut self, position: u64, end: u64) -> (r: Result<
        Option<(u64, u64)>,
        PgsError,
    >)
        ensures
            final(self).reader.bytes() == old(self).reader.bytes(),
            ({
                let reads = next_cluster_reads(
                    old(self).reader.bytes(),
                    position as int,
                    end as int,
                );
                &&& final(self).reader.consumed() == counted(old(self).reader.consumed(), reads)
                &&& reads >= 0
            }),
            final(self).same_but_reader(old(self)),
            match (r, next_cluster(old(self).reader.bytes(), position as int, end as int)) {
                (Ok(Some((data, size))), Ok(Some(e))) => {
                    &&& data == e.data
                    &&& size == e.size
                    &&& final(self).reader.at() == data
                    &&& data + size <= u64::MAX
                },
                (Ok(None), Ok(None)) => true,
                (Err(e), Err(v)) => e@ == v,
                _ => false,
            },
    {
        let ghost s = self.reader.bytes();
        let ghost goal = next_cluster(s, position as int, end as int);
        let ghost reads = next_cluster_reads(s, position as int, end as int);
        let ghost mut done: int = 0;
        let mut current: u64 = position;
        if self.reader.position() != current {
            let _ = self.reader.seek_to(current);
        }
        while current < end
            invariant
                self.reader.bytes() == s,
                done >= 0,
                self.reader.consumed() == counted(old(self).reader.consumed(), done),
                reads == next_cluster_reads(s, position as int, end as int),
                reads == done + next_cluster_reads(s, current as int, end as int),
                s == old(self).reader.bytes(),
                self.same_but_reader(old(self)),
                self.reader.at() == current,
                goal == next_cluster(s, position as int, end as int),
                goal == next_cluster(s, current as int, end as int),
            decreases
                    (if current < s.len() {
                        s.len() - current
                    } else {
                        0
                    }),
        {
            let (id, size) = match read_element(&mut self.reader) {
                Ok(e) => e,
                Err(_) => {
                    return Ok(None);
                },
            };
            assert(current < s.len());
            if size == u64::MAX {
                return Ok(None);
            }
            let data_start: u64 = self.reader.position();
            let element_end = match element_end(data_start, size) {
                Ok(end) => end,
                Err(e) => {
                    return Err(e);
                },
            };
            if id == ids::CLUSTER {
                return Ok(Some((data_start, size)));
            }
            proof {
                done = done + element_header_reads(s, current as int) + passed_reads(
                    s,
                    data_start as int,
                    size,
                    true,
                );
            }
            match self.reader.drain(size) {
                Ok(()) => {},
                Err(e) => {
                    return Err(e);
                },
            }
            current = element_end;
        }
        Ok(None)
    }

    /// Takes the next blocks. Returns whether there were any to take.
    fn advance_source(&mut self) -> (r: Result<bool, PgsError>)
        requires
            old(self).wf(),
        ensures
            final(self).wf(),
            final(self).config() == old(self).config(),
            final(self).meta() == old(self).meta(),
            final(self).has_yielded() == old(self).has_yielded(),
            ({
                let reads = advanced_reads(old(self).config(), old(self).progress().source);
                &&& final(self).consumed() == counted(old(self).consumed(), reads)
                &&& reads >= 0
            }),
            match (r, advanced(old(self).config(), old(self).progress())) {
                (Ok(true), Ok(Some(next))) => final(self).progress() == next,
                (Ok(false), Ok(None)) => final(self).progress() == (MkvProgress {
                    source: SourceView::Done,
                    ..old(self).progress()
                }),
                (Err(e), Err(v)) => e@ == v && final(self).progress() == (MkvProgress {
                    source: SourceView::Done,
                    ..old(self).progress()
                }),
                _ => false,
            },
    {
        let ghost c = self.config();
        let ghost p = self.progress();
        let mut source = MkvBlockSource::Done;
        std::mem::swap(&mut self.source, &mut source);
        match source {
            MkvBlockSource::Cues {
                cue_points,
                index,
                cluster_header_cache,
                visited_clusters,
            } => {
                if index >= cue_points.len() {
                    return Ok(false);
                }
                let mut cache = cluster_header_cache;
                let mut visited = visited_clusters;
                let cp = cue_points[index];
                let blocks = match extract_blocks_for_cue_point(
                    &mut self.reader,
                    &cp,
                    self.active_tracks.as_slice(),
                    &mut cache,
                    &mut visited,
                ) {
                    Ok(blocks) => blocks,
                    Err(e) => {
                        return Err(e);
                    },
                };
                proof {
                    let some = cue_points@.take(index + 1);
                    assert(some.drop_last() =~= cue_points@.take(index as int));
                    assert(some.last() == cp);
                }
                self.source = MkvBlockSource::Cues {
                    cue_points,
                    index: index + 1,
                    cluster_header_cache: cache,
                    visited_clusters: visited,
                };
                self.process_blocks(blocks);
                Ok(true)
            },
            MkvBlockSource::SequentialScan { current_position, segment_data_end } => {
                let (data_start, size) = match self.read_next_cluster(
                    current_position,
                    segment_data_end,
                ) {
                    Ok(Some(found)) => found,
                    Ok(None) => {
                        return Ok(false);
                    },
                    Err(e) => {
                        return Err(e);
                    },
                };
                let blocks = match scan_cluster_for_pgs_sequential(
                    &mut self.reader,
                    data_start,
                    size,
                    self.active_tracks.as_slice(),
                ) {
                    Ok(blocks) => blocks,
                    Err(e) => {
                        return Err(e);
                    },
                };
                self.source = MkvBlockSource::SequentialScan {
                    current_position: data_start + size,
                    segment_data_end,
                };
                self.process_blocks(blocks);
                Ok(true)
            },
            _ => Ok(false),
        }
    }

    /// Goes on to the next display set. Returns `None` at the end and after an
    /// error.
    ///
    /// Where blocks come from is decided on the first call.
    pub fn next_display_set(&mut self) -> (r: Option<Result<TrackDisplaySet, PgsError>>)
        requires
            old(self).wf(),
        ensures
            final(self).wf(),
            final(self).config() == old(self).config(),
            final(self).meta() == old(self).meta(),
            final(self).has_yielded() == (old(self).has_yielded() || r matches Some(Ok(_))),
            !(final(self).progress().source is Uninitialized),
            final(self).consumed() == counted(
                mkv_step_base(old(self).config(), old(self).progress(), old(self).consumed()),
                mkv_step_reads(old(self).config(), old(self).progress()),
            ),
            mkv_step_reads(old(self).config(), old(self).progress()) >= 0,
            ({
                let (outcome, after) = mkv_step(old(self).config(), old(self).progress());
                &&& final(self).progress() == after
                &&& match (r, outcome) {
                    (None, None) => true,
                    (Some(Ok(tds)), Some(Ok(v))) => tds@ == v,
                    (Some(Err(e)), Some(Err(v))) => e@ == v,
                    _ => false,
                }
            }),
    {
        let ghost c = self.config();
        let ghost start = self.progress();
        let uninitialized = match &self.source {
            MkvBlockSource::Uninitialized => true,
            _ => false,
        };
        if uninitialized {
            match self.init_source() {
                Ok(()) => {},
                Err(e) => {
                    self.source = MkvBlockSource::Done;
                    return Some(Err(e));
                },
            }
        }
        let ghost goal = mkv_next(c, self.progress());
        let ghost base = mkv_step_base(c, start, old(self).consumed());
        let ghost reads = mkv_step_reads(c, start);
        let ghost mut done: int = if start.source is Uninitialized {
            first_source_reads(c)
        } else {
            0
        };
        proof {
            lemma_decided(c, self.progress());
        }
        loop
            invariant
                self.wf(),
                !(goal.1.source is Uninitialized),
                self.config() == c,
                c == old(self).config(),
                start == old(self).progress(),
                self.meta() == old(self).meta(),
                self.has_yielded() == old(self).has_yielded(),
                done >= 0,
                base == mkv_step_base(c, start, old(self).consumed()),
                self.consumed() == counted(base, done),
                reads == mkv_step_reads(c, start),
                reads == done + mkv_next_reads(c, self.progress()),
                goal == mkv_next(c, self.progress()),
                goal == mkv_step(c, start),
            decreases source_measure(c, self.progress().source),
        {
            let ghost p = self.progress();
            let ghost waiting = self.pending@;
            if let Some(tds) = self.pending.pop_front() {
                self.yielded = true;
                proof {
                    assert(waiting.len() > 0);
                    assert(p.pending[0] == tds@);
                    assert(track_set_views(self.pending@) =~= p.pending.skip(1));
                }
                return Some(Ok(tds));
            }
            assert(p.pending.len() == 0);
            proof {
                lemma_advanced(c, p);
                done = done + advanced_reads(c, p.source);
            }
            match self.advance_source() {
                Ok(true) => {},
                Ok(false) => {
                    return None;
                },
                Err(e) => {
                    return Some(Err(e));
                },
            }
        }
    }
}

/// The next outcome of an extraction that may not have decided yet where blocks
/// come from, and the extraction after it.
pub open spec fn mkv_step(c: MkvConfig, p: MkvProgress) -> (
    Option<Result<TrackSetView, ErrorView>>,
    MkvProgress,
) {
    if p.source is Uninitialized {
        match first_source(c) {
            Err(e) => (Some(Err(e)), MkvProgress { source: SourceView::Done, ..p }),
            Ok(source) => mkv_next(c, MkvProgress { source, ..p }),
        }
    } else {
        mkv_next(c, p)
    }
}

/// The number of bytes that are read for the next outcome of an extraction that
/// may not have decided yet where blocks come from.
pub open spec fn mkv_step_reads(c: MkvConfig, p: MkvProgress) -> int {
    if p.source is Uninitialized {
        match first_source(c) {
            Err(_) => 0,
            Ok(source) => first_source_reads(c) + mkv_next_reads(c, MkvProgress { source, ..p }),
        }
    } else {
        mkv_next_reads(c, p)
    }
}

/// What the number of bytes read starts from at the next outcome: an extraction
/// that turns to reading in file order counts anew.
pub open spec fn mkv_step_base(c: MkvConfig, p: MkvProgress, consumed: u64) -> u64 {
    if p.source is Uninitialized && first_source(c) matches Ok(SourceView::Scan { .. }) {
        0
    } else {
        consumed
    }
}

/// The index entries to be extracted in parallel, in file order and shared out
/// among as many workers as are available and allowed. There are none after the
/// first display set, without an index, and where it does not pay.
pub open spec fn parallel_plan(
    cues: Option<Seq<PgsCuePoint>>,
    has_yielded: bool,
    available: nat,
) -> Option<Seq<Seq<PgsCuePoint>>> {
    let workers = if available < MAX_PARALLEL_WORKERS {
        available
    } else {
        MAX_PARALLEL_WORKERS as nat
    };
    match cues {
        Some(points) => if !has_yielded && workers > 1 && points.len() >= PARALLEL_CUE_THRESHOLD {
            Some(partitioned(cues_in_order(points), workers))
        } else {
            None
        },
        None => None,
    }
}

/// The display sets that tracks have come to, with what is known about each
/// track. Numbers without a track are left out.
pub open spec fn with_infos(
    results: Seq<(u64, Seq<DisplaySetView>)>,
    tracks: Seq<TrackView>,
    counts: Map<u64, u64>,
    cues: Option<Seq<PgsCuePoint>>,
) -> Seq<TrackSetsView>
    decreases results.len(),
{
    if results.len() == 0 {
        Seq::empty()
    } else {
        let before = with_infos(results.drop_last(), tracks, counts, cues);
        match track_with(tracks, results.last().0) {
            Some(t) => before.push(
                TrackSetsView { track: mkv_info(t, counts, cues), display_sets: results.last().1 },
            ),
            None => before,
        }
    }
}

impl<R: Source> MkvExtractorState<R> {
    /// The index entries to be extracted in parallel, shared out among workers,
    /// if that is possible and pays.
    pub fn parallel_chunks(&self, available: usize) -> (r: Option<Vec<Vec<PgsCuePoint>>>)
        ensures
            match (
                r,
                parallel_plan(self.config().cues, self.has_yielded(), available as nat),
            ) {
                (Some(chunks), Some(v)) => chunk_views(chunks@) == v,
                (None, None) => true,
                _ => false,
            },
    {
        if self.yielded {
            return None;
        }
        let workers: usize = if available < MAX_PARALLEL_WORKERS {
            available
        } else {
            MAX_PARALLEL_WORKERS
        };
        match &self.metadata.cue_points {
            Some(points) => {
                if points.len() < PARALLEL_CUE_THRESHOLD || workers <= 1 {
                    return None;
                }
                let sorted = sort_cues(points.as_slice());
                Some(partition_by_cluster(sorted.as_slice(), workers))
            },
            None => None,
        }
    }

    /// The numbers of the tracks that are extracted.
    pub fn active_tracks(&self) -> (r: &[u64])
        ensures
            r@ == self.config().active,
    {
        self.active_tracks.as_slice()
    }

    /// Assembles blocks that were read in any order, by track.
    pub fn collect_merged(&self, blocks: Vec<PgsBlock>) -> (r: Vec<TrackDisplaySets>)
        requires
            self.wf(),
        ensures
            track_sets_views(r@) == with_infos(
                results_of(
                    processed(
                        fresh_states(self.config().active),
                        self.config().compression,
                        self.config().scale,
                        blocks_in_order(block_views(blocks@)),
                    ),
                ),
                self.meta().pgs_tracks,
                self.meta().frame_counts,
                self.config().cues,
            ),
    {
        let merged = sort_blocks(blocks);
        let mut assemblers = TrackAssemblers::new(
            self.active_tracks.as_slice(),
            &self.metadata.compression_map,
            self.metadata.timestamp_scale,
        );
        assemblers.process_pgs_blocks(merged);
        let results = assemblers.into_results();
        let ghost all = result_views(results@);
        let ghost tracks = self.meta().pgs_tracks;
        let ghost counts = self.meta().frame_counts;
        let ghost cues = self.config().cues;
        let mut out: Vec<TrackDisplaySets> = Vec::new();
        assert(track_sets_views(out@) =~= with_infos(all.take(0), tracks, counts, cues));
        for result in it: results
            invariant
                all == result_views(it.seq()),
                tracks == self.meta().pgs_tracks,
                counts == self.meta().frame_counts,
                cues == self.config().cues,
                track_sets_views(out@) == with_infos(
                    all.take(it.index() as int),
                    tracks,
                    counts,
                    cues,
                ),
        {
            let ghost k = it.index() as int;
            let ghost before = track_sets_views(out@);
            let ghost view = set_views(result.1@);
            proof {
                assert(all.take(k + 1).drop_last() =~= all.take(k));
                assert(all.take(k + 1).last() == (result.0, view));
            }
            if let Some(i) = find_track(&self.metadata.pgs_tracks, result.0) {
                let track = mkv_track_to_info(
                    &self.metadata.pgs_tracks[i],
                    &self.metadata.frame_counts,
                    &self.metadata.cue_points,
                );
                let ghost info = track@;
                out.push(TrackDisplaySets { track, display_sets: result.1 });
                assert(track_sets_views(out@) =~= before.push(
                    TrackSetsView { track: info, display_sets: view },
                ));
            }
        }
        assert(all.take(all.len() as int) =~= all);
        out
    }
}

} // verus!
