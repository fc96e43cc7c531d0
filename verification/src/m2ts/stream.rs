//! Display sets of a transport stream, one at a time.
use vstd::prelude::*;
use crate::error::{ErrorView, IoError, PgsError};
use crate::io::reader::{counted, SeekBufReader, Source};
use crate::lists::{contains_u16, contains_u32};
use crate::m2ts::pes::{pes_emitted, pes_pushed, PesReassembler};
use crate::m2ts::seeking::{
    find_time_start, is_packet_before, seek_target, time_start, time_start_reads, SEEK_PROBES,
    SEEK_WINDOW,
};
use crate::m2ts::ts_packet::{
    extract_payload, find_sync_start, first_pair_is_first, packet_from, payload_of, pid_from,
    pid_of, resync, resync_from, resync_reads, search_end, sync_start, SCAN_CHUNK, SYNC_BYTE,
    PacketFormat,
};
use crate::m2ts::{
    m2ts_info, m2ts_track_to_info, m2ts_track_views, M2tsMetadata, M2tsMetadataView, M2tsPgsTrack,
    M2tsTrackView,
};
use crate::mkv::decode::{push_segments, set_views};
use crate::mkv::tracks::text_view;
use crate::pgs::display_set::{
    fresh_assembler, pushed_all, AssemblerView, DisplaySet, DisplaySetAssembler, DisplaySetView,
};
use crate::pgs::segment::{segment_views, PgsSegment};
use crate::track::{
    copy_text, filter_view, info_views, track_set_views, ContainerFormat, PgsTrackInfo,
    TrackDisplaySet, TrackInfoView, TrackSetView,
};
use std::collections::VecDeque;

verus! {

/// The number of bytes that are read at a time.
pub const SCAN_BLOCK_SIZE: u64 = 2097152;

/// How far packets are looked for after the sync was lost.
pub const MAX_RESYNC_SCAN: u64 = 262144;

/// An active track with its reassembler and assembler.
pub struct PidSlot {
    pub pid: u16,
    pub language: Option<String>,
    pub pes: PesReassembler,
    pub assembler: DisplaySetAssembler,
}

/// An active track as a mathematical value.
#[verifier::ext_equal]
pub struct PidSlotView {
    pub pid: u16,
    pub language: Option<Seq<char>>,
    pub pes: Option<Seq<u8>>,
    pub assembler: AssemblerView,
}

impl View for PidSlot {
    type V = PidSlotView;

    open spec fn view(&self) -> PidSlotView {
        PidSlotView {
            pid: self.pid,
            language: text_view(self.language),
            pes: self.pes@,
            assembler: self.assembler@,
        }
    }
}

/// The views of active tracks.
pub open spec fn pid_slot_views(slots: Seq<PidSlot>) -> Seq<PidSlotView> {
    Seq::new(slots.len(), |i: int| slots[i]@)
}

/// The packet identifiers that a filter of track identifiers leaves.
pub open spec fn active_pids(pids: Seq<u16>, filter: Option<Seq<u32>>) -> Seq<u16>
    decreases pids.len(),
{
    if pids.len() == 0 {
        Seq::empty()
    } else {
        let before = active_pids(pids.drop_last(), filter);
        match filter {
            Some(ids) => if ids.contains(pids.last() as u32) {
                before.push(pids.last())
            } else {
                before
            },
            None => before.push(pids.last()),
        }
    }
}

/// The language of the track with a packet identifier. Of several tracks the
/// last one counts.
pub open spec fn pid_language(tracks: Seq<M2tsTrackView>, pid: u16) -> Option<Seq<char>>
    decreases tracks.len(),
{
    if tracks.len() == 0 {
        None
    } else if tracks.last().pid == pid {
        tracks.last().language
    } else {
        pid_language(tracks.drop_last(), pid)
    }
}

/// A fresh slot for each of the identifiers, in order of their first
/// occurrence.
pub open spec fn fresh_pid_slots(pids: Seq<u16>, tracks: Seq<M2tsTrackView>) -> Seq<PidSlotView>
    decreases pids.len(),
{
    if pids.len() == 0 {
        Seq::empty()
    } else {
        let before = fresh_pid_slots(pids.drop_last(), tracks);
        let pid = pids.last();
        if pids.drop_last().contains(pid) {
            before
        } else {
            before.push(
                PidSlotView {
                    pid,
                    language: pid_language(tracks, pid),
                    pes: None,
                    assembler: fresh_assembler(),
                },
            )
        }
    }
}

/// The place of an identifier's slot, or the number of slots if it has none.
pub open spec fn pid_slot_index(slots: Seq<PidSlotView>, pid: u16) -> int
    decreases slots.len(),
{
    if slots.len() == 0 || slots[0].pid == pid {
        0
    } else {
        1 + pid_slot_index(slots.skip(1), pid)
    }
}

/// Display sets with the track of a slot.
pub open spec fn sets_of_pid(
    slot: PidSlotView,
    container: ContainerFormat,
    sets: Seq<DisplaySetView>,
) -> Seq<TrackSetView> {
    Seq::new(
        sets.len(),
        |i: int|
            TrackSetView {
                track_id: slot.pid as u32,
                language: slot.language,
                container,
                display_set: sets[i],
            },
    )
}

/// What a packet of 188 bytes makes of the slots, and the display sets that it
/// completes. Packets of other identifiers, malformed ones and those without a
/// payload change nothing.
pub open spec fn packet_effect(
    slots: Seq<PidSlotView>,
    container: ContainerFormat,
    packet: Seq<u8>,
) -> (Seq<PidSlotView>, Seq<TrackSetView>) {
    let i = pid_slot_index(slots, pid_of(packet[1], packet[2]));
    if 0 <= i < slots.len() {
        match payload_of(packet) {
            Err(_) => (slots, Seq::empty()),
            Ok((header, payload)) => if header.carries_payload() && payload.len() > 0 {
                let slot = slots[i];
                let segments = if header.pusi {
                    pes_emitted(slot.pes)
                } else {
                    Seq::empty()
                };
                let (assembler, sets) = pushed_all(slot.assembler, segments);
                let pes = pes_pushed(slot.pes, header.pusi, payload);
                (
                    slots.update(i, PidSlotView { pes, assembler, ..slot }),
                    sets_of_pid(slot, container, sets),
                )
            } else {
                (slots, Seq::empty())
            },
        }
    } else {
        (slots, Seq::empty())
    }
}

/// What taking the rest of the first `n` slots' packets makes of the slots, and
/// the display sets that it completes.
pub open spec fn flush_effect(slots: Seq<PidSlotView>, container: ContainerFormat, n: nat) -> (
    Seq<PidSlotView>,
    Seq<TrackSetView>,
)
    decreases n,
{
    if n == 0 || n > slots.len() {
        (slots, Seq::empty())
    } else {
        let (before, sets) = flush_effect(slots, container, (n - 1) as nat);
        let slot = slots[n - 1];
        let (assembler, more) = pushed_all(slot.assembler, pes_emitted(slot.pes));
        (
            before.update(n - 1, PidSlotView { pes: None, assembler, ..slot }),
            sets + sets_of_pid(slot, container, more),
        )
    }
}

/// What stays the same during an extraction.
pub struct M2tsConfig {
    pub bytes: Seq<u8>,
    pub format: PacketFormat,
    pub container: ContainerFormat,
    /// Where the scan ends.
    pub end: int,
}

/// What changes during an extraction.
pub struct M2tsProgress {
    pub pos: int,
    pub slots: Seq<PidSlotView>,
    pub pending: Seq<TrackSetView>,
    /// Whether the scan has ended.
    pub flushed: bool,
}

/// Where packets go on after the sync was lost in front of `pos`: where they
/// are found again nearby, otherwise at the end.
pub open spec fn resumed(c: M2tsConfig, pos: int) -> int {
    let limit = if c.end - pos < MAX_RESYNC_SCAN {
        c.end - pos
    } else {
        MAX_RESYNC_SCAN as int
    };
    match resync_from(c.bytes, pos, search_end(c.bytes, pos, limit), c.format) {
        Some(p) => p,
        None => c.end,
    }
}

/// The number of bytes that are read to find packets again after the sync was
/// lost in front of `pos`.
pub open spec fn resumed_reads(c: M2tsConfig, pos: int) -> int {
    let limit = if c.end - pos < MAX_RESYNC_SCAN {
        c.end - pos
    } else {
        MAX_RESYNC_SCAN as int
    };
    resync_reads(c.bytes, pos, search_end(c.bytes, pos, limit), c.format)
}

/// What the packets from `offset` on, in a block of `n` bytes at `start`, make
/// of the slots and the pending display sets, and where scanning goes on.
///
/// Where the sync is lost, packets are looked for again in the block, and then
/// behind the place where it was lost.
pub open spec fn block_scanned(
    c: M2tsConfig,
    start: int,
    n: int,
    offset: int,
    slots: Seq<PidSlotView>,
    pending: Seq<TrackSetView>,
) -> (Seq<PidSlotView>, Seq<TrackSetView>, int)
    decreases n - offset,
    via block_scanned_decreases
{
    let s = c.bytes;
    if offset < 0 || offset + c.format.size() > n || start < 0 || start + n > s.len() {
        (slots, pending, start + offset)
    } else {
        let at = start + offset + c.format.sync();
        if s[at] != SYNC_BYTE {
            match sync_start(s.subrange(start + offset + 1, start + n), c.format) {
                Some(i) => block_scanned(c, start, n, offset + 1 + i, slots, pending),
                None => (slots, pending, resumed(c, start + offset + 1)),
            }
        } else {
            let (after, sets) = packet_effect(slots, c.container, s.subrange(at, at + 188));
            block_scanned(c, start, n, offset + c.format.size(), after, pending + sets)
        }
    }
}

#[via_fn]
proof fn block_scanned_decreases(
    c: M2tsConfig,
    start: int,
    n: int,
    offset: int,
    slots: Seq<PidSlotView>,
    pending: Seq<TrackSetView>,
) {
    if 0 <= offset < n && 0 <= start && start + n <= c.bytes.len() {
        lemma_sync_start(c.bytes.subrange(start + offset + 1, start + n), c.format);
    }
}

/// The number of bytes behind a block of `n` bytes at `start`, or of it once
/// more, that are read where the packets from `offset` on lose the sync.
pub open spec fn block_rereads(c: M2tsConfig, start: int, n: int, offset: int) -> int
    decreases n - offset,
    via block_rereads_decreases
{
    let s = c.bytes;
    if offset < 0 || offset + c.format.size() > n || start < 0 || start + n > s.len() {
        0
    } else if s[start + offset + c.format.sync()] != SYNC_BYTE {
        match sync_start(s.subrange(start + offset + 1, start + n), c.format) {
            Some(i) => block_rereads(c, start, n, offset + 1 + i),
            None => resumed_reads(c, start + offset + 1),
        }
    } else {
        block_rereads(c, start, n, offset + c.format.size())
    }
}

#[via_fn]
proof fn block_rereads_decreases(c: M2tsConfig, start: int, n: int, offset: int) {
    if 0 <= offset < n && 0 <= start && start + n <= c.bytes.len() {
        lemma_sync_start(c.bytes.subrange(start + offset + 1, start + n), c.format);
    }
}

pub(crate) proof fn lemma_sync_start(data: Seq<u8>, format: PacketFormat)
    ensures
        sync_start(data, format) matches Some(p) ==> 0 <= p && p + format.sync() + format.size()
            < data.len(),
{
    let last = data.len() - format.sync() - format.size();
    let hi = if last < format.size() {
        last
    } else {
        format.size()
    };
    first_pair_is_first(data, 0, hi, format);
}

proof fn lemma_resumed(c: M2tsConfig, pos: int)
    requires
        pos <= c.end,
    ensures
        pos <= resumed(c, pos) <= c.end,
{
    let limit = if c.end - pos < MAX_RESYNC_SCAN {
        c.end - pos
    } else {
        MAX_RESYNC_SCAN as int
    };
    let last = search_end(c.bytes, pos, limit) - c.format.sync() - c.format.size();
    first_pair_is_first(c.bytes, pos, last, c.format);
}

proof fn lemma_block_scanned(
    c: M2tsConfig,
    start: int,
    n: int,
    offset: int,
    slots: Seq<PidSlotView>,
    pending: Seq<TrackSetView>,
)
    requires
        0 <= start,
        0 <= offset <= n,
        start + n <= c.end,
        start + n <= c.bytes.len(),
    ensures
        start + offset <= block_scanned(c, start, n, offset, slots, pending).2 <= c.end,
        offset + c.format.size() <= n ==> start + offset < block_scanned(
            c,
            start,
            n,
            offset,
            slots,
            pending,
        ).2,
    decreases n - offset,
{
    let s = c.bytes;
    if offset + c.format.size() <= n {
        let at = start + offset + c.format.sync();
        if s[at] != SYNC_BYTE {
            let rest = s.subrange(start + offset + 1, start + n);
            lemma_sync_start(rest, c.format);
            match sync_start(rest, c.format) {
                Some(i) => {
                    lemma_block_scanned(c, start, n, offset + 1 + i, slots, pending);
                },
                None => {
                    lemma_resumed(c, start + offset + 1);
                },
            }
        } else {
            let (after, sets) = packet_effect(slots, c.container, s.subrange(at, at + 188));
            lemma_block_scanned(c, start, n, offset + c.format.size(), after, pending + sets);
        }
    }
}

/// What scanning the next block makes of an extraction. Less than a packet at
/// the end is dropped.
pub open spec fn scanned(c: M2tsConfig, p: M2tsProgress) -> Result<M2tsProgress, ErrorView> {
    let left = c.end - p.pos;
    let n = if left < SCAN_BLOCK_SIZE {
        left
    } else {
        SCAN_BLOCK_SIZE as int
    };
    if n < c.format.size() {
        Ok(M2tsProgress { pos: c.end, ..p })
    } else if p.pos + n > c.bytes.len() {
        Err(ErrorView::Io(IoError::UnexpectedEof))
    } else {
        let first = if c.bytes[p.pos + c.format.sync()] == SYNC_BYTE {
            Some(0int)
        } else {
            sync_start(c.bytes.subrange(p.pos, p.pos + n), c.format)
        };
        match first {
            None => Ok(M2tsProgress { pos: resumed(c, p.pos + n), ..p }),
            Some(offset) => {
                let (slots, pending, pos) = block_scanned(
                    c,
                    p.pos,
                    n,
                    offset,
                    p.slots,
                    p.pending,
                );
                Ok(M2tsProgress { pos, slots, pending, ..p })
            },
        }
    }
}

/// The number of bytes that scanning the next block reads: the block, and what
/// is searched where the sync is lost.
pub open spec fn scanned_reads(c: M2tsConfig, p: M2tsProgress) -> int {
    let left = c.end - p.pos;
    let n = if left < SCAN_BLOCK_SIZE {
        left
    } else {
        SCAN_BLOCK_SIZE as int
    };
    if n < c.format.size() || p.pos + n > c.bytes.len() {
        0
    } else {
        let first = if c.bytes[p.pos + c.format.sync()] == SYNC_BYTE {
            Some(0int)
        } else {
            sync_start(c.bytes.subrange(p.pos, p.pos + n), c.format)
        };
        match first {
            None => n + resumed_reads(c, p.pos + n),
            Some(offset) => n + block_rereads(c, p.pos, n, offset),
        }
    }
}

pub(crate) proof fn lemma_scanned(c: M2tsConfig, p: M2tsProgress)
    requires
        0 <= p.pos < c.end,
    ensures
        scanned(c, p) matches Ok(next) ==> p.pos < next.pos <= c.end && next.flushed == p.flushed,
{
    let left = c.end - p.pos;
    let n = if left < SCAN_BLOCK_SIZE {
        left
    } else {
        SCAN_BLOCK_SIZE as int
    };
    if n >= c.format.size() && p.pos + n <= c.bytes.len() {
        if c.bytes[p.pos + c.format.sync()] == SYNC_BYTE {
            lemma_block_scanned(c, p.pos, n, 0, p.slots, p.pending);
        } else {
            let block = c.bytes.subrange(p.pos, p.pos + n);
            lemma_sync_start(block, c.format);
            match sync_start(block, c.format) {
                Some(i) => {
                    lemma_block_scanned(c, p.pos, n, i, p.slots, p.pending);
                },
                None => {
                    lemma_resumed(c, p.pos + n);
                },
            }
        }
    }
}

proof fn lemma_resync_reads(s: Seq<u8>, pos: int, end: int, format: PacketFormat)
    ensures
        resync_reads(s, pos, end, format) >= 0,
    decreases end - pos,
{
    let overlap = format.sync() + format.size();
    if pos + overlap < end && end - pos > SCAN_CHUNK {
        lemma_resync_reads(s, pos + SCAN_CHUNK - overlap, end, format);
    }
}

proof fn lemma_resumed_reads(c: M2tsConfig, pos: int)
    ensures
        resumed_reads(c, pos) >= 0,
{
    let limit = if c.end - pos < MAX_RESYNC_SCAN {
        c.end - pos
    } else {
        MAX_RESYNC_SCAN as int
    };
    lemma_resync_reads(c.bytes, pos, search_end(c.bytes, pos, limit), c.format);
}

proof fn lemma_block_rereads(c: M2tsConfig, start: int, n: int, offset: int)
    ensures
        block_rereads(c, start, n, offset) >= 0,
    decreases n - offset,
{
    let s = c.bytes;
    if offset < 0 || offset + c.format.size() > n || start < 0 || start + n > s.len() {
    } else if s[start + offset + c.format.sync()] != SYNC_BYTE {
        let rest = s.subrange(start + offset + 1, start + n);
        lemma_sync_start(rest, c.format);
        match sync_start(rest, c.format) {
            Some(i) => {
                lemma_block_rereads(c, start, n, offset + 1 + i);
            },
            None => {
                lemma_resumed_reads(c, start + offset + 1);
            },
        }
    } else {
        lemma_block_rereads(c, start, n, offset + c.format.size());
    }
}

proof fn lemma_scanned_reads(c: M2tsConfig, p: M2tsProgress)
    ensures
        scanned_reads(c, p) >= 0,
{
    let left = c.end - p.pos;
    let n = if left < SCAN_BLOCK_SIZE {
        left
    } else {
        SCAN_BLOCK_SIZE as int
    };
    lemma_resumed_reads(c, p.pos + n);
    lemma_block_rereads(c, p.pos, n, 0);
    let block = c.bytes.subrange(p.pos, p.pos + n);
    if let Some(i) = sync_start(block, c.format) {
        lemma_block_rereads(c, p.pos, n, i);
    }
}

/// An extraction whose scan has ended, with the rest of every packet taken.
pub open spec fn finished(c: M2tsConfig, p: M2tsProgress) -> M2tsProgress {
    let (slots, sets) = flush_effect(p.slots, c.container, p.slots.len());
    M2tsProgress { slots, pending: p.pending + sets, flushed: true, ..p }
}

/// The next outcome of an extraction, and the extraction after it: a display
/// set, an error, or nothing at the end. An error ends it.
pub open spec fn m2ts_next(c: M2tsConfig, p: M2tsProgress) -> (
    Option<Result<TrackSetView, ErrorView>>,
    M2tsProgress,
)
    decreases
            (if p.flushed {
                0
            } else if p.pos < c.end {
                c.end - p.pos + 1
            } else {
                1
            }),
    via m2ts_next_decreases
{
    if p.pending.len() > 0 {
        (Some(Ok(p.pending[0])), M2tsProgress { pending: p.pending.skip(1), ..p })
    } else if p.flushed {
        (None, p)
    } else if p.pos < 0 || p.pos >= c.end {
        m2ts_next(c, finished(c, p))
    } else {
        match scanned(c, p) {
            Err(e) => (Some(Err(e)), M2tsProgress { flushed: true, ..p }),
            Ok(next) => m2ts_next(c, next),
        }
    }
}

#[via_fn]
proof fn m2ts_next_decreases(c: M2tsConfig, p: M2tsProgress) {
    if 0 <= p.pos < c.end {
        lemma_scanned(c, p);
    }
}

/// The number of bytes that are read for the next outcome of an extraction:
/// those of the blocks that are scanned until there is one.
pub open spec fn m2ts_next_reads(c: M2tsConfig, p: M2tsProgress) -> int
    decreases
            (if p.flushed {
                0
            } else if p.pos < c.end {
                c.end - p.pos + 1
            } else {
                1
            }),
    via m2ts_next_reads_decreases
{
    if p.pending.len() > 0 || p.flushed || p.pos < 0 || p.pos >= c.end {
        0
    } else {
        match scanned(c, p) {
            Err(_) => scanned_reads(c, p),
            Ok(next) => scanned_reads(c, p) + m2ts_next_reads(c, next),
        }
    }
}

#[via_fn]
proof fn m2ts_next_reads_decreases(c: M2tsConfig, p: M2tsProgress) {
    if 0 <= p.pos < c.end {
        lemma_scanned(c, p);
    }
}

fn wanted_pids(pids: &Vec<u16>, filter: Option<&[u32]>) -> (r: Vec<u16>)
    ensures
        r@ == active_pids(pids@, filter_view(filter)),
{
    let mut active: Vec<u16> = Vec::new();
    let mut i: usize = 0;
    while i < pids.len()
        invariant
            i <= pids@.len(),
            active@ == active_pids(pids@.take(i as int), filter_view(filter)),
        decreases pids@.len() - i,
    {
        let pid: u16 = pids[i];
        let wanted = match filter {
            Some(ids) => contains_u32(ids, pid as u32),
            None => true,
        };
        if wanted {
            active.push(pid);
        }
        i += 1;
        assert(pids@.take(i as int).drop_last() =~= pids@.take(i - 1));
    }
    assert(pids@.take(i as int) =~= pids@);
    active
}

fn language_for(tracks: &Vec<M2tsPgsTrack>, pid: u16) -> (r: Option<String>)
    ensures
        text_view(r) == pid_language(m2ts_track_views(tracks@), pid),
{
    let ghost views = m2ts_track_views(tracks@);
    let mut i: usize = tracks.len();
    assert(views.take(i as int) =~= views);
    while i > 0
        invariant
            i <= tracks@.len(),
            views == m2ts_track_views(tracks@),
            pid_language(views, pid) == pid_language(views.take(i as int), pid),
        decreases i,
    {
        i -= 1;
        assert(views.take(i + 1).drop_last() =~= views.take(i as int));
        assert(views.take(i + 1).last() == tracks@[i as int]@);
        if tracks[i].pid == pid {
            return copy_text(&tracks[i].language);
        }
    }
    None
}

fn make_pid_slots(pids: &Vec<u16>, tracks: &Vec<M2tsPgsTrack>) -> (r: Vec<PidSlot>)
    ensures
        pid_slot_views(r@) == fresh_pid_slots(pids@, m2ts_track_views(tracks@)),
{
    let ghost views = m2ts_track_views(tracks@);
    let mut slots: Vec<PidSlot> = Vec::new();
    let mut i: usize = 0;
    assert(pid_slot_views(slots@) =~= fresh_pid_slots(pids@.take(0), views));
    while i < pids.len()
        invariant
            i <= pids@.len(),
            views == m2ts_track_views(tracks@),
            pid_slot_views(slots@) == fresh_pid_slots(pids@.take(i as int), views),
        decreases pids@.len() - i,
    {
        let pid: u16 = pids[i];
        let seen = vstd::slice::slice_subrange(pids.as_slice(), 0, i);
        let ghost more = pids@.take(i + 1);
        assert(seen@ =~= more.drop_last());
        assert(more.drop_last() =~= pids@.take(i as int));
        let ghost before = pid_slot_views(slots@);
        if !contains_u16(seen, pid) {
            let slot = PidSlot {
                pid,
                language: language_for(tracks, pid),
                pes: PesReassembler::new(),
                assembler: DisplaySetAssembler::new(),
            };
            slots.push(slot);
            assert(pid_slot_views(slots@) =~= before.push(slot@));
        }
        i += 1;
    }
    assert(pids@.take(i as int) =~= pids@);
    slots
}

pub(crate) proof fn lemma_pid_slot_index(slots: Seq<PidSlotView>, pid: u16, i: int)
    requires
        0 <= i <= slots.len(),
        forall|j: int| 0 <= j < i ==> (#[trigger] slots[j]).pid != pid,
        i < slots.len() ==> slots[i].pid == pid,
    ensures
        pid_slot_index(slots, pid) == i,
    decreases slots.len(),
{
    if i > 0 {
        assert(slots[0].pid != pid);
        assert forall|j: int| 0 <= j < i - 1 implies (#[trigger] slots.skip(1)[j]).pid != pid by {
            assert(slots.skip(1)[j] == slots[j + 1]);
        }
        lemma_pid_slot_index(slots.skip(1), pid, i - 1);
    }
}

/// Gives segments to a slot's assembler. The display sets that they complete
/// become pending.
fn feed_slot(
    slot: &mut PidSlot,
    segments: Vec<PgsSegment>,
    container: ContainerFormat,
    pending: &mut VecDeque<TrackDisplaySet>,
)
    ensures
        final(slot)@ == (PidSlotView {
            assembler: pushed_all(old(slot)@.assembler, segment_views(segments@)).0,
            ..old(slot)@
        }),
        track_set_views(final(pending)@) == track_set_views(old(pending)@) + sets_of_pid(
            old(slot)@,
            container,
            pushed_all(old(slot)@.assembler, segment_views(segments@)).1,
        ),
{
    let ghost view = slot@;
    let ghost waiting = track_set_views(pending@);
    let mut collected: Vec<DisplaySet> = Vec::new();
    push_segments(&mut slot.assembler, segments, &mut collected);
    let ghost sets = set_views(collected@);
    assert(set_views(Seq::<DisplaySet>::empty()) + sets =~= sets);
    assert(sets == pushed_all(view.assembler, segment_views(segments@)).1);
    let ghost wanted = sets_of_pid(view, container, sets);
    assert(waiting + wanted.take(0) =~= waiting);
    for ds in it: collected
        invariant
            sets == set_views(it.seq()),
            wanted == sets_of_pid(view, container, sets),
            slot.pid == view.pid,
            text_view(slot.language) == view.language,
            track_set_views(pending@) == waiting + wanted.take(it.index() as int),
    {
        let ghost k = it.index() as int;
        let ghost had = track_set_views(pending@);
        let tds = TrackDisplaySet {
            track_id: slot.pid as u32,
            language: copy_text(&slot.language),
            container,
            display_set: ds,
        };
        pending.push_back(tds);
        proof {
            assert(tds@ == wanted[k]);
            assert(track_set_views(pending@) =~= had.push(tds@));
            assert(waiting + wanted.take(k + 1) =~= had.push(tds@));
        }
    }
    assert(wanted.take(wanted.len() as int) =~= wanted);
}

/// What is known about the tracks that a filter of identifiers leaves.
pub open spec fn m2ts_infos(
    tracks: Seq<M2tsTrackView>,
    container: ContainerFormat,
    filter: Option<Seq<u32>>,
) -> Seq<TrackInfoView>
    decreases tracks.len(),
{
    if tracks.len() == 0 {
        Seq::empty()
    } else {
        let before = m2ts_infos(tracks.drop_last(), container, filter);
        let t = tracks.last();
        match filter {
            Some(ids) => if ids.contains(t.pid as u32) {
                before.push(m2ts_info(t, container))
            } else {
                before
            },
            None => before.push(m2ts_info(t, container)),
        }
    }
}

/// Extracts the display sets of a transport stream.
pub struct M2tsExtractorState<R: Source> {
    reader: SeekBufReader<R>,
    metadata: M2tsMetadata,
    format: PacketFormat,
    container: ContainerFormat,
    scan_start: u64,
    scan_end: u64,
    slots: Vec<PidSlot>,
    pending: VecDeque<TrackDisplaySet>,
    flushed: bool,
}

impl<R: Source> M2tsExtractorState<R> {
    /// What stays the same during the extraction.
    pub closed spec fn config(&self) -> M2tsConfig {
        M2tsConfig {
            bytes: self.reader.bytes(),
            format: self.format,
            container: self.container,
            end: self.scan_end as int,
        }
    }

    /// What changes during the extraction.
    pub closed spec fn progress(&self) -> M2tsProgress {
        M2tsProgress {
            pos: self.reader.at() as int,
            slots: pid_slot_views(self.slots@),
            pending: track_set_views(self.pending@),
            flushed: self.flushed,
        }
    }

    /// What the extraction was made from, and where it started.
    pub closed spec fn origin(&self) -> (M2tsMetadataView, u64) {
        (self.metadata@, self.scan_start)
    }

    /// The number of bytes that were read.
    pub closed spec fn consumed(&self) -> u64 {
        self.reader.consumed()
    }

    /// An extraction, from the reader's position on, of the tracks that a filter
    /// of identifiers leaves, or of all PGS tracks without one.
    pub fn new(
        reader: SeekBufReader<R>,
        metadata: M2tsMetadata,
        container: ContainerFormat,
        track_filter: Option<&[u32]>,
    ) -> (r: Self)
        ensures
            r.config() == (M2tsConfig {
                bytes: reader.bytes(),
                format: metadata.format,
                container,
                end: metadata.file_size as int,
            }),
            r.progress() == (M2tsProgress {
                pos: reader.at() as int,
                slots: fresh_pid_slots(
                    active_pids(metadata@.pgs_pids, filter_view(track_filter)),
                    metadata@.tracks,
                ),
                pending: Seq::empty(),
                flushed: false,
            }),
            r.origin() == (metadata@, reader.at()),
            r.consumed() == reader.consumed(),
    {
        let active = wanted_pids(&metadata.pgs_pids, track_filter);
        let slots = make_pid_slots(&active, &metadata.tracks);
        let pending: VecDeque<TrackDisplaySet> = VecDeque::new();
        assert(track_set_views(pending@) =~= Seq::<TrackSetView>::empty());
        let format = metadata.format;
        let scan_start: u64 = reader.position();
        let scan_end: u64 = metadata.file_size;
        M2tsExtractorState {
            reader,
            metadata,
            format,
            container,
            scan_start,
            scan_end,
            slots,
            pending,
            flushed: false,
        }
    }

    /// The number of bytes that were read.
    pub fn bytes_read(&self) -> (r: u64)
        ensures
            r == self.consumed(),
    {
        self.reader.bytes_read()
    }

    /// The extraction from its start again, with another filter. The bytes that
    /// are read are counted from `count` on.
    pub fn restarted(self, track_filter: Option<&[u32]>, count: u64) -> (r: Self)
        ensures
            r.origin() == self.origin(),
            r.consumed() == count,
            r.config() == (M2tsConfig {
                bytes: self.config().bytes,
                format: self.origin().0.format,
                container: self.config().container,
                end: self.origin().0.file_size as int,
            }),
            r.progress() == (M2tsProgress {
                pos: self.origin().1 as int,
                slots: fresh_pid_slots(
                    active_pids(self.origin().0.pgs_pids, filter_view(track_filter)),
                    self.origin().0.tracks,
                ),
                pending: Seq::empty(),
                flushed: false,
            }),
    {
        let mut reader = self.reader;
        let _ = reader.seek_to(self.scan_start);
        reader.recount(count);
        M2tsExtractorState::new(reader, self.metadata, self.container, track_filter)
    }

    /// Moves an extraction that has not started close in front of a time in ticks,
    /// by probing the times of the stream. What is in front of it is not read,
    /// other than by the probes.
    pub fn seek_to_time(&mut self, start: u64)
        ensures
            final(self).config() == old(self).config(),
            final(self).origin() == old(self).origin(),
            final(self).progress() == (M2tsProgress {
                pos: time_start(
                    old(self).config().bytes,
                    old(self).progress().pos,
                    old(self).config().end,
                    start,
                    old(self).config().format,
                ),
                ..old(self).progress()
            }),
            ({
                let c = old(self).config();
                let p = final(self).progress().pos;
                &&& old(self).progress().pos <= p
                &&& p == old(self).progress().pos || is_packet_before(
                    c.bytes,
                    p,
                    c.end,
                    seek_target(start),
                    c.format,
                )
            }),
            ({
                let reads = time_start_reads(
                    old(self).config().bytes,
                    old(self).progress().pos,
                    old(self).config().end,
                    start,
                    old(self).config().format,
                );
                &&& final(self).consumed() == counted(old(self).consumed(), reads)
                &&& 0 <= reads <= SEEK_PROBES * SEEK_WINDOW
            }),
    {
        let pos: u64 = self.reader.position();
        let found: u64 = find_time_start(&mut self.reader, pos, self.scan_end, start, self.format);
        let _ = self.reader.seek_to(found);
    }

    /// What is known about the tracks that a filter of identifiers leaves.
    pub fn track_infos(&self, track_filter: Option<&[u32]>) -> (r: Vec<PgsTrackInfo>)
        ensures
            info_views(r@) == m2ts_infos(
                self.origin().0.tracks,
                self.config().container,
                filter_view(track_filter),
            ),
    {
        let ghost views = self.metadata@.tracks;
        let container = self.container;
        let mut infos: Vec<PgsTrackInfo> = Vec::new();
        let mut i: usize = 0;
        assert(info_views(infos@) =~= m2ts_infos(
            views.take(0),
            container,
            filter_view(track_filter),
        ));
        while i < self.metadata.tracks.len()
            invariant
                i <= self.metadata.tracks@.len(),
                views == self.metadata@.tracks,
                container == self.container,
                info_views(infos@) == m2ts_infos(
                    views.take(i as int),
                    container,
                    filter_view(track_filter),
                ),
            decreases self.metadata.tracks@.len() - i,
        {
            let track = &self.metadata.tracks[i];
            let wanted = match track_filter {
                Some(ids) => contains_u32(ids, track.pid as u32),
                None => true,
            };
            let ghost before = info_views(infos@);
            if wanted {
                let info = m2ts_track_to_info(track, container);
                infos.push(info);
                assert(info_views(infos@) =~= before.push(info@));
            }
            i += 1;
            proof {
                assert(views.take(i as int).drop_last() =~= views.take(i - 1));
                assert(views.take(i as int).last() == track@);
            }
        }
        assert(views.take(i as int) =~= views);
        infos
    }

    /// Gives a packet to the track that it belongs to.
    fn process_packet(&mut self, packet: &[u8; 188])
        ensures
            final(self).reader == old(self).reader,
            final(self).origin() == old(self).origin(),
            final(self).format == old(self).format,
            final(self).container == old(self).container,
            final(self).scan_end == old(self).scan_end,
            final(self).flushed == old(self).flushed,
            ({
                let (slots, sets) = packet_effect(
                    pid_slot_views(old(self).slots@),
                    old(self).container,
                    packet@,
                );
                &&& pid_slot_views(final(self).slots@) == slots
                &&& track_set_views(final(self).pending@) == track_set_views(old(self).pending@)
                    + sets
            }),
    {
        let pid: u16 = pid_from(packet[1], packet[2]);
        let ghost before = pid_slot_views(self.slots@);
        let ghost waiting = track_set_views(self.pending@);
        assert(waiting + Seq::<TrackSetView>::empty() =~= waiting);
        let mut i: usize = 0;
        while i < self.slots.len() && self.slots[i].pid != pid
            invariant
                *self == *old(self),
                before == pid_slot_views(self.slots@),
                i <= self.slots@.len(),
                forall|j: int| 0 <= j < i ==> (#[trigger] self.slots@[j]).pid != pid,
            decreases self.slots@.len() - i,
        {
            i += 1;
        }
        proof {
            assert forall|j: int| 0 <= j < i implies (#[trigger] before[j]).pid != pid by {
                assert(before[j] == self.slots@[j]@);
            }
            if i < before.len() {
                assert(before[i as int] == self.slots@[i as int]@);
            }
            lemma_pid_slot_index(before, pid, i as int);
        }
        if i >= self.slots.len() {
            return ;
        }
        let (header, payload) = match extract_payload(packet) {
            Ok(p) => p,
            Err(_) => {
                return ;
            },
        };
        if !header.has_payload() || payload.len() == 0 {
            return ;
        }
        let container = self.container;
        let slot = &mut self.slots[i];
        let segments = slot.pes.push(header.pusi, payload);
        feed_slot(slot, segments, container, &mut self.pending);
        assert(pid_slot_views(self.slots@) =~= packet_effect(before, container, packet@).0);
    }

    /// Goes on after the sync was lost in front of the reader's position.
    fn resume(&mut self)
        requires
            old(self).reader.at() <= old(self).scan_end,
        ensures
            final(self).reader.bytes() == old(self).reader.bytes(),
            final(self).reader.consumed() == counted(
                old(self).reader.consumed(),
                resumed_reads(old(self).config(), old(self).reader.at() as int),
            ),
            final(self).reader.at() == resumed(old(self).config(), old(self).reader.at() as int),
            final(self).origin() == old(self).origin(),
            final(self).format == old(self).format,
            final(self).container == old(self).container,
            final(self).scan_end == old(self).scan_end,
            final(self).slots == old(self).slots,
            final(self).pending == old(self).pending,
            final(self).flushed == old(self).flushed,
    {
        let left: u64 = self.scan_end - self.reader.position();
        let limit: u64 = if left < MAX_RESYNC_SCAN { left } else { MAX_RESYNC_SCAN };
        match resync(&mut self.reader, self.format, limit) {
            Ok(Some(_)) => {},
            _ => {
                let _ = self.reader.seek_to(self.scan_end);
            },
        }
    }

    /// Scans the packets of the next block.
    fn scan_next_block(&mut self) -> (r: Result<(), PgsError>)
        requires
            old(self).reader.at() < old(self).scan_end,
        ensures
            final(self).config() == old(self).config(),
            final(self).origin() == old(self).origin(),
            final(self).consumed() == counted(
                old(self).consumed(),
                scanned_reads(old(self).config(), old(self).progress()),
            ),
            match (r, scanned(old(self).config(), old(self).progress())) {
                (Ok(()), Ok(next)) => final(self).progress() == next,
                (Err(e), Err(v)) => e@ == v && final(self).progress() == old(self).progress(),
                _ => false,
            },
    {
        let ghost c = self.config();
        let ghost p = self.progress();
        let packet_size: usize = self.format.packet_size();
        let sync: usize = self.format.sync_offset();
        let block_start: u64 = self.reader.position();
        let left: u64 = self.scan_end - block_start;
        let n: u64 = if left < SCAN_BLOCK_SIZE { left } else { SCAN_BLOCK_SIZE };
        if n < packet_size as u64 {
            let _ = self.reader.seek_to(self.scan_end);
            return Ok(());
        }
        let block = match self.reader.read_bytes(n) {
            Ok(block) => block,
            Err(e) => {
                return Err(e);
            },
        };
        let mut offset: usize = 0;
        if block[sync] != SYNC_BYTE {
            match find_sync_start(block.as_slice(), self.format) {
                Some(i) => {
                    offset = i;
                },
                None => {
                    proof {
                        lemma_resumed_reads(c, block_start + n);
                    }
                    self.resume();
                    return Ok(());
                },
            }
        }
        let ghost goal = block_scanned(
            c,
            block_start as int,
            n as int,
            offset as int,
            p.slots,
            p.pending,
        );
        let ghost rereads = block_rereads(c, block_start as int, n as int, offset as int);
        let mut lost = false;
        while !lost && block.len() - offset >= packet_size
            invariant
                self.config() == c,
                self.consumed() == counted(old(self).consumed(), n as int),
                self.origin() == old(self).origin(),
                self.flushed == p.flushed,
                packet_size == c.format.size(),
                sync == c.format.sync(),
                n == block@.len(),
                block@ == c.bytes.subrange(block_start as int, block_start + n),
                block_start + n <= c.bytes.len(),
                block_start + n <= c.end,
                offset <= n,
                !lost ==> goal == block_scanned(
                    c,
                    block_start as int,
                    n as int,
                    offset as int,
                    pid_slot_views(self.slots@),
                    track_set_views(self.pending@),
                ),
                lost ==> goal == (
                    pid_slot_views(self.slots@),
                    track_set_views(self.pending@),
                    resumed(c, block_start + offset),
                ),
                rereads == if lost {
                    resumed_reads(c, block_start + offset)
                } else {
                    block_rereads(c, block_start as int, n as int, offset as int)
                },
            decreases n - offset,
        {
            let at: usize = offset + sync;
            if block[at] != SYNC_BYTE {
                let rest = vstd::slice::slice_subrange(
                    block.as_slice(),
                    offset + 1,
                    block.len(),
                );
                assert(rest@ =~= c.bytes.subrange(block_start + offset + 1, block_start + n));
                match find_sync_start(rest, self.format) {
                    Some(i) => {
                        offset = offset + 1 + i;
                    },
                    None => {
                        offset = offset + 1;
                        lost = true;
                    },
                }
            } else {
                let packet = packet_from(block.as_slice(), at);
                assert(packet@ =~= c.bytes.subrange(
                    block_start + offset + sync,
                    block_start + offset + sync + 188,
                ));
                self.process_packet(&packet);
                offset += packet_size;
            }
        }
        let _ = self.reader.seek_to(block_start + offset as u64);
        if lost {
            proof {
                lemma_resumed_reads(c, block_start + offset);
            }
            self.resume();
        }
        Ok(())
    }

    /// Takes the rest of every packet.
    fn flush_all(&mut self)
        ensures
            final(self).reader == old(self).reader,
            final(self).origin() == old(self).origin(),
            final(self).format == old(self).format,
            final(self).container == old(self).container,
            final(self).scan_end == old(self).scan_end,
            final(self).flushed == old(self).flushed,
            ({
                let (slots, sets) = flush_effect(
                    pid_slot_views(old(self).slots@),
                    old(self).container,
                    old(self).slots@.len(),
                );
                &&& pid_slot_views(final(self).slots@) == slots
                &&& track_set_views(final(self).pending@) == track_set_views(old(self).pending@)
                    + sets
            }),
    {
        let ghost first = pid_slot_views(self.slots@);
        let ghost waiting = track_set_views(self.pending@);
        let container = self.container;
        let mut i: usize = 0;
        assert(waiting + Seq::<TrackSetView>::empty() =~= waiting);
        while i < self.slots.len()
            invariant
                i <= self.slots@.len() == first.len(),
                self.reader == old(self).reader,
                self.origin() == old(self).origin(),
                self.format == old(self).format,
                self.container == old(self).container,
                self.scan_end == old(self).scan_end,
                self.flushed == old(self).flushed,
                container == self.container,
                pid_slot_views(self.slots@) == flush_effect(first, container, i as nat).0,
                forall|j: int| i <= j < first.len() ==> (#[trigger] self.slots@[j])@ == first[j],
                track_set_views(self.pending@) == waiting + flush_effect(
                    first,
                    container,
                    i as nat,
                ).1,
            decreases self.slots@.len() - i,
        {
            let ghost before = pid_slot_views(self.slots@);
            let ghost had = track_set_views(self.pending@);
            assert(self.slots@[i as int]@ == first[i as int]);
            let slot = &mut self.slots[i];
            let segments = slot.pes.flush();
            feed_slot(slot, segments, container, &mut self.pending);
            i += 1;
            proof {
                assert(pid_slot_views(self.slots@) =~= flush_effect(
                    first,
                    container,
                    i as nat,
                ).0);
                assert(track_set_views(self.pending@) =~= waiting + flush_effect(
                    first,
                    container,
                    i as nat,
                ).1);
            }
        }
    }

    /// Goes on to the next display set. Returns `None` at the end and after an
    /// error.
    pub fn next_display_set(&mut self) -> (r: Option<Result<TrackDisplaySet, PgsError>>)
        ensures
            final(self).config() == old(self).config(),
            final(self).origin() == old(self).origin(),
            final(self).consumed() == counted(
                old(self).consumed(),
                m2ts_next_reads(old(self).config(), old(self).progress()),
            ),
            m2ts_next_reads(old(self).config(), old(self).progress()) >= 0,
            ({
                let (outcome, after) = m2ts_next(old(self).config(), old(self).progress());
                &&& final(self).progress() == after
                &&& match (r, outcome) {
                    (None, None) => true,
                    (Some(Ok(tds)), Some(Ok(v))) => tds@ == v,
                    (Some(Err(e)), Some(Err(v))) => e@ == v,
                    _ => false,
                }
            }),
    {
        let ghost c = self.config();
        let ghost goal = m2ts_next(c, self.progress());
        let ghost reads = m2ts_next_reads(c, self.progress());
        let ghost mut done: int = 0;
        loop
            invariant
                self.config() == c,
                self.consumed() == counted(old(self).consumed(), done),
                done >= 0,
                reads == m2ts_next_reads(c, old(self).progress()),
                reads == done + m2ts_next_reads(c, self.progress()),
                c == old(self).config(),
                self.origin() == old(self).origin(),
                goal == m2ts_next(c, old(self).progress()),
                goal == m2ts_next(c, self.progress()),
            decreases
                    (if self.flushed {
                        0
                    } else if self.progress().pos < c.end {
                        c.end - self.progress().pos + 1
                    } else {
                        1
                    }),
        {
            let ghost p = self.progress();
            let ghost waiting = self.pending@;
            if let Some(tds) = self.pending.pop_front() {
                proof {
                    assert(waiting.len() > 0);
                    assert(p.pending[0] == tds@);
                    assert(track_set_views(self.pending@) =~= p.pending.skip(1));
                }
                return Some(Ok(tds));
            }
            assert(p.pending.len() == 0);
            if self.flushed {
                return None;
            }
            if self.reader.position() >= self.scan_end {
                self.flush_all();
                self.flushed = true;
            } else {
                proof {
                    lemma_scanned(c, p);
                    lemma_scanned_reads(c, p);
                    done = done + scanned_reads(c, p);
                }
                match self.scan_next_block() {
                    Ok(()) => {},
                    Err(e) => {
                        self.flushed = true;
                        return Some(Err(e));
                    },
                }
            }
        }
    }
}

} // verus!
