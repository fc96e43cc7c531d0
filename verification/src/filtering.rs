//! A filtered extraction keeps to its filter.
use vstd::prelude::*;
use crate::collect::{drained, lemma_next_shrinks, m2ts_unread, undecided, unread, waiting};
use crate::extractor::{extraction_next, fresh_extraction, ExtractionView, FileView};
use crate::m2ts::stream::{
    active_pids, block_scanned, finished, flush_effect, fresh_pid_slots, lemma_scanned,
    lemma_sync_start, m2ts_next, packet_effect, pid_slot_index, scanned, SCAN_BLOCK_SIZE,
    M2tsConfig, M2tsProgress, PidSlotView,
};
use crate::m2ts::ts_packet::{pid_of, sync_start, SYNC_BYTE};
use crate::m2ts::M2tsTrackView;
use crate::mkv::cluster::BlockView;
use crate::mkv::stream::{
    active_of, advanced, block_effect, blocks_effect, first_source, fresh_slots, lemma_advanced,
    mkv_next, slot_index, source_measure, with_blocks, MkvConfig, MkvProgress, SlotView,
};
use crate::mkv::tracks::{CompressionView, TrackView};
use crate::track::{track_id_of, ContainerFormat, MkvStrategy, TrackSetView};

verus! {

/// Whether all display sets are of the given tracks.
pub open spec fn sets_within(sets: Seq<TrackSetView>, ids: Seq<u32>) -> bool {
    forall|i: int| 0 <= i < sets.len() ==> ids.contains((#[trigger] sets[i]).track_id)
}

/// Whether all slots are of the given tracks.
pub open spec fn slots_within(slots: Seq<SlotView>, ids: Seq<u32>) -> bool {
    forall|i: int| 0 <= i < slots.len() ==> ids.contains(track_id_of((#[trigger] slots[i]).number))
}

/// Whether all slots are of the given tracks.
pub open spec fn pids_within(slots: Seq<PidSlotView>, ids: Seq<u32>) -> bool {
    forall|i: int| 0 <= i < slots.len() ==> ids.contains((#[trigger] slots[i]).pid as u32)
}

/// Whether an extraction is of the given tracks only.
pub open spec fn extraction_within(x: ExtractionView, ids: Seq<u32>) -> bool {
    match x {
        ExtractionView::Mkv(_, p) => slots_within(p.slots, ids) && sets_within(p.pending, ids),
        ExtractionView::M2ts(_, p) => pids_within(p.slots, ids) && sets_within(p.pending, ids),
        ExtractionView::Sup { .. } => ids.contains(0),
    }
}

proof fn lemma_sets_append(a: Seq<TrackSetView>, b: Seq<TrackSetView>, ids: Seq<u32>)
    requires
        sets_within(a, ids),
        sets_within(b, ids),
    ensures
        sets_within(a + b, ids),
{
    assert forall|i: int| 0 <= i < (a + b).len() implies ids.contains((#[trigger] (a
        + b)[i]).track_id) by {
        if i < a.len() {
            assert((a + b)[i] == a[i]);
        } else {
            assert((a + b)[i] == b[i - a.len()]);
        }
    }
}

proof fn lemma_block(
    slots: Seq<SlotView>,
    compression: Map<u64, CompressionView>,
    scale: u64,
    b: BlockView,
    ids: Seq<u32>,
)
    requires
        slots_within(slots, ids),
    ensures
        slots_within(block_effect(slots, compression, scale, b).0, ids),
        sets_within(block_effect(slots, compression, scale, b).1, ids),
{
    let (after, sets) = block_effect(slots, compression, scale, b);
    assert forall|i: int| 0 <= i < after.len() implies ids.contains(
        track_id_of((#[trigger] after[i]).number),
    ) by {
        assert(ids.contains(track_id_of(slots[i].number)));
    }
    let k = slot_index(slots, b.track_number);
    if 0 <= k < slots.len() {
        assert(ids.contains(track_id_of(slots[k].number)));
    }
}

proof fn lemma_blocks(
    slots: Seq<SlotView>,
    compression: Map<u64, CompressionView>,
    scale: u64,
    blocks: Seq<BlockView>,
    ids: Seq<u32>,
)
    requires
        slots_within(slots, ids),
    ensures
        slots_within(blocks_effect(slots, compression, scale, blocks).0, ids),
        sets_within(blocks_effect(slots, compression, scale, blocks).1, ids),
    decreases blocks.len(),
{
    if blocks.len() > 0 {
        lemma_blocks(slots, compression, scale, blocks.drop_last(), ids);
        let (before, sets) = blocks_effect(slots, compression, scale, blocks.drop_last());
        lemma_block(before, compression, scale, blocks.last(), ids);
        lemma_sets_append(sets, block_effect(before, compression, scale, blocks.last()).1, ids);
    }
}

proof fn lemma_mkv_next(c: MkvConfig, p: MkvProgress, ids: Seq<u32>)
    requires
        slots_within(p.slots, ids),
        sets_within(p.pending, ids),
    ensures
        slots_within(mkv_next(c, p).1.slots, ids),
        sets_within(mkv_next(c, p).1.pending, ids),
        mkv_next(c, p).0 matches Some(Ok(set)) ==> ids.contains(set.track_id),
    decreases source_measure(c, p.source),
{
    if p.pending.len() > 0 {
        assert(ids.contains(p.pending[0].track_id));
        assert forall|i: int| 0 <= i < p.pending.skip(1).len() implies ids.contains(
            (#[trigger] p.pending.skip(1)[i]).track_id,
        ) by {
            assert(p.pending.skip(1)[i] == p.pending[i + 1]);
        }
    } else {
        lemma_advanced(c, p);
        match advanced(c, p) {
            Ok(Some(next)) => {
                lemma_mkv_advanced(c, p, ids);
                lemma_mkv_next(c, next, ids);
            },
            _ => {},
        }
    }
}

proof fn lemma_mkv_advanced(c: MkvConfig, p: MkvProgress, ids: Seq<u32>)
    requires
        slots_within(p.slots, ids),
        sets_within(p.pending, ids),
    ensures
        advanced(c, p) matches Ok(Some(next)) ==> slots_within(next.slots, ids) && sets_within(
            next.pending,
            ids,
        ),
{
    assert forall|blocks: Seq<BlockView>, source|
        slots_within((#[trigger] with_blocks(c, p, blocks, source)).slots, ids) && sets_within(
            with_blocks(c, p, blocks, source).pending,
            ids,
        ) by {
        lemma_blocks(p.slots, c.compression, c.scale, blocks, ids);
        lemma_sets_append(
            p.pending,
            blocks_effect(p.slots, c.compression, c.scale, blocks).1,
            ids,
        );
    }
}

proof fn lemma_packet(
    slots: Seq<PidSlotView>,
    container: ContainerFormat,
    packet: Seq<u8>,
    ids: Seq<u32>,
)
    requires
        pids_within(slots, ids),
    ensures
        pids_within(packet_effect(slots, container, packet).0, ids),
        sets_within(packet_effect(slots, container, packet).1, ids),
{
    let (after, sets) = packet_effect(slots, container, packet);
    assert forall|i: int| 0 <= i < after.len() implies ids.contains(
        (#[trigger] after[i]).pid as u32,
    ) by {
        assert(ids.contains(slots[i].pid as u32));
    }
    let k = pid_slot_index(
        slots,
        pid_of(packet[1], packet[2]),
    );
    if 0 <= k < slots.len() {
        assert(ids.contains(slots[k].pid as u32));
    }
}

proof fn lemma_flush(slots: Seq<PidSlotView>, container: ContainerFormat, n: nat, ids: Seq<u32>)
    requires
        pids_within(slots, ids),
    ensures
        flush_effect(slots, container, n).0.len() == slots.len(),
        pids_within(flush_effect(slots, container, n).0, ids),
        sets_within(flush_effect(slots, container, n).1, ids),
    decreases n,
{
    if 0 < n <= slots.len() {
        lemma_flush(slots, container, (n - 1) as nat, ids);
        let (before, sets) = flush_effect(slots, container, (n - 1) as nat);
        let (after, all) = flush_effect(slots, container, n);
        let slot = slots[n - 1];
        assert(ids.contains(slot.pid as u32));
        assert forall|i: int| 0 <= i < after.len() implies ids.contains(
            (#[trigger] after[i]).pid as u32,
        ) by {
            assert(ids.contains(before[i].pid as u32));
        }
        assert forall|i: int| 0 <= i < all.len() implies ids.contains(
            (#[trigger] all[i]).track_id,
        ) by {
            if i < sets.len() {
                assert(all[i] == sets[i]);
            }
        }
    }
}

proof fn lemma_block_scanned(
    c: M2tsConfig,
    start: int,
    n: int,
    offset: int,
    slots: Seq<PidSlotView>,
    pending: Seq<TrackSetView>,
    ids: Seq<u32>,
)
    requires
        pids_within(slots, ids),
        sets_within(pending, ids),
    ensures
        pids_within(block_scanned(c, start, n, offset, slots, pending).0, ids),
        sets_within(block_scanned(c, start, n, offset, slots, pending).1, ids),
    decreases n - offset,
{
    let s = c.bytes;
    if !(offset < 0 || offset + c.format.size() > n || start < 0 || start + n > s.len()) {
        let at = start + offset + c.format.sync();
        if s[at] != SYNC_BYTE {
            let rest = s.subrange(start + offset + 1, start + n);
            lemma_sync_start(rest, c.format);
            if let Some(i) = sync_start(rest, c.format) {
                lemma_block_scanned(c, start, n, offset + 1 + i, slots, pending, ids);
            }
        } else {
            let packet = s.subrange(at, at + 188);
            lemma_packet(slots, c.container, packet, ids);
            let (after, sets) = packet_effect(slots, c.container, packet);
            lemma_sets_append(pending, sets, ids);
            lemma_block_scanned(
                c,
                start,
                n,
                offset + c.format.size(),
                after,
                pending + sets,
                ids,
            );
        }
    }
}

proof fn lemma_scanned_within(c: M2tsConfig, p: M2tsProgress, ids: Seq<u32>)
    requires
        pids_within(p.slots, ids),
        sets_within(p.pending, ids),
    ensures
        scanned(c, p) matches Ok(next) ==> pids_within(next.slots, ids) && sets_within(
            next.pending,
            ids,
        ),
{
    let left = c.end - p.pos;
    let n = if left < SCAN_BLOCK_SIZE {
        left
    } else {
        SCAN_BLOCK_SIZE as int
    };
    let first = if c.bytes[p.pos + c.format.sync()] == SYNC_BYTE {
        Some(0int)
    } else {
        sync_start(c.bytes.subrange(p.pos, p.pos + n), c.format)
    };
    if let Some(offset) = first {
        lemma_block_scanned(c, p.pos, n, offset, p.slots, p.pending, ids);
    }
}

proof fn lemma_m2ts_next(c: M2tsConfig, p: M2tsProgress, ids: Seq<u32>)
    requires
        pids_within(p.slots, ids),
        sets_within(p.pending, ids),
    ensures
        pids_within(m2ts_next(c, p).1.slots, ids),
        sets_within(m2ts_next(c, p).1.pending, ids),
        m2ts_next(c, p).0 matches Some(Ok(set)) ==> ids.contains(set.track_id),
    decreases m2ts_unread(c, p),
{
    if p.pending.len() > 0 {
        assert(ids.contains(p.pending[0].track_id));
        assert forall|i: int| 0 <= i < p.pending.skip(1).len() implies ids.contains(
            (#[trigger] p.pending.skip(1)[i]).track_id,
        ) by {
            assert(p.pending.skip(1)[i] == p.pending[i + 1]);
        }
    } else if !p.flushed {
        if p.pos < 0 || p.pos >= c.end {
            lemma_flush(p.slots, c.container, p.slots.len(), ids);
            lemma_sets_append(
                p.pending,
                flush_effect(p.slots, c.container, p.slots.len()).1,
                ids,
            );
            lemma_m2ts_next(c, finished(c, p), ids);
        } else {
            lemma_scanned(c, p);
            lemma_scanned_within(c, p, ids);
            if let Ok(next) = scanned(c, p) {
                lemma_m2ts_next(c, next, ids);
            }
        }
    }
}

proof fn lemma_next_within(x: ExtractionView, ids: Seq<u32>)
    requires
        extraction_within(x, ids),
    ensures
        extraction_next(x).0 matches Some(Ok(set)) ==> ids.contains(set.track_id),
        extraction_within(extraction_next(x).1, ids),
{
    match x {
        ExtractionView::Mkv(c, p) => {
            if p.source is Uninitialized {
                if let Ok(source) = first_source(c) {
                    lemma_mkv_next(c, MkvProgress { source, ..p }, ids);
                }
            } else {
                lemma_mkv_next(c, p, ids);
            }
        },
        ExtractionView::M2ts(c, p) => {
            lemma_m2ts_next(c, p, ids);
        },
        ExtractionView::Sup { .. } => {},
    }
}

/// An extraction of given tracks gives display sets of those tracks only.
pub proof fn extraction_keeps_to_tracks(x: ExtractionView, ids: Seq<u32>)
    requires
        extraction_within(x, ids),
    ensures
        drained(x) matches Ok(sets) ==> sets_within(sets, ids),
    decreases undecided(x), unread(x), waiting(x),
{
    lemma_next_within(x, ids);
    lemma_next_shrinks(x);
    if let (Some(Ok(set)), after) = extraction_next(x) {
        extraction_keeps_to_tracks(after, ids);
        if let Ok(rest) = drained(after) {
            let all = seq![set] + rest;
            assert forall|i: int| 0 <= i < all.len() implies ids.contains(
                (#[trigger] all[i]).track_id,
            ) by {
                if i > 0 {
                    assert(all[i] == rest[i - 1]);
                }
            }
        }
    }
}

proof fn lemma_active(numbers: Seq<u64>, ids: Seq<u32>)
    ensures
        forall|i: int|
            0 <= i < active_of(numbers, Some(ids)).len() ==> ids.contains(
                track_id_of(#[trigger] active_of(numbers, Some(ids))[i]),
            ),
    decreases numbers.len(),
{
    if numbers.len() > 0 {
        lemma_active(numbers.drop_last(), ids);
        let before = active_of(numbers.drop_last(), Some(ids));
        let all = active_of(numbers, Some(ids));
        assert forall|i: int| 0 <= i < all.len() implies ids.contains(
            track_id_of(#[trigger] all[i]),
        ) by {
            if i < before.len() {
                assert(all[i] == before[i]);
            }
        }
    }
}

proof fn lemma_fresh_slots(numbers: Seq<u64>, tracks: Seq<TrackView>, ids: Seq<u32>)
    requires
        forall|i: int| 0 <= i < numbers.len() ==> ids.contains(track_id_of(#[trigger] numbers[i])),
    ensures
        slots_within(fresh_slots(numbers, tracks), ids),
    decreases numbers.len(),
{
    if numbers.len() > 0 {
        assert(numbers.last() == numbers[numbers.len() - 1]);
        lemma_fresh_slots(numbers.drop_last(), tracks, ids);
    }
}

proof fn lemma_active_pids(pids: Seq<u16>, ids: Seq<u32>)
    ensures
        forall|i: int|
            0 <= i < active_pids(pids, Some(ids)).len() ==> ids.contains(
                #[trigger] active_pids(pids, Some(ids))[i] as u32,
            ),
    decreases pids.len(),
{
    if pids.len() > 0 {
        lemma_active_pids(pids.drop_last(), ids);
        let before = active_pids(pids.drop_last(), Some(ids));
        let all = active_pids(pids, Some(ids));
        assert forall|i: int| 0 <= i < all.len() implies ids.contains(#[trigger] all[i] as u32) by {
            if i < before.len() {
                assert(all[i] == before[i]);
            }
        }
    }
}

proof fn lemma_fresh_pids(pids: Seq<u16>, tracks: Seq<M2tsTrackView>, ids: Seq<u32>)
    requires
        forall|i: int| 0 <= i < pids.len() ==> ids.contains(#[trigger] pids[i] as u32),
    ensures
        pids_within(fresh_pid_slots(pids, tracks), ids),
    decreases pids.len(),
{
    if pids.len() > 0 {
        assert(pids.last() == pids[pids.len() - 1]);
        lemma_fresh_pids(pids.drop_last(), tracks, ids);
    }
}

/// A filtered extraction gives display sets of the filter's tracks only. That
/// of a raw PGS file, whose one track has the identifier 0, is made only if the
/// filter names it.
pub proof fn filtered_extraction_keeps_to_filter(
    s: Seq<u8>,
    file: FileView,
    ids: Seq<u32>,
    strategy: MkvStrategy,
)
    requires
        file is Sup ==> ids.contains(0),
    ensures
        drained(fresh_extraction(s, file, Some(ids), strategy)) matches Ok(sets) ==> sets_within(
            sets,
            ids,
        ),
{
    match file {
        FileView::Mkv(m) => {
            lemma_active(m.pgs_track_numbers, ids);
            lemma_fresh_slots(active_of(m.pgs_track_numbers, Some(ids)), m.pgs_tracks, ids);
        },
        FileView::M2ts(m, _, _) => {
            lemma_active_pids(m.pgs_pids, ids);
            lemma_fresh_pids(active_pids(m.pgs_pids, Some(ids)), m.tracks, ids);
        },
        FileView::Sup => {},
    }
    extraction_keeps_to_tracks(fresh_extraction(s, file, Some(ids), strategy), ids);
}

} // verus!
