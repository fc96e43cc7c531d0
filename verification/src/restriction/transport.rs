//! Filters on extractions from transport streams.
use vstd::prelude::*;
use crate::collect::{after_sets, drained, m2ts_unread};
use crate::error::ErrorView;
use crate::extractor::{extraction_next, ExtractionView};
use crate::m2ts::pes::pes_emitted;
use crate::m2ts::stream::{
    active_pids, block_scanned, finished, flush_effect, fresh_pid_slots, lemma_scanned,
    lemma_sync_start, m2ts_next, packet_effect, pid_slot_index, scanned, sets_of_pid, M2tsConfig,
    M2tsProgress, PidSlotView, SCAN_BLOCK_SIZE,
};
use crate::m2ts::ts_packet::{pid_of, sync_start, SYNC_BYTE};
use crate::m2ts::M2tsTrackView;
use crate::pgs::display_set::pushed_all;
use crate::restriction::{
    lemma_after_none, lemma_after_twice, lemma_of_tracks_append, lemma_one_track, of_tracks,
    restricted,
};
use crate::track::{ContainerFormat, TrackSetView};

verus! {

/// The slots of the given tracks.
pub open spec fn kept_pids(slots: Seq<PidSlotView>, ids: Seq<u32>) -> Seq<PidSlotView>
    decreases slots.len(),
{
    if slots.len() == 0 {
        Seq::empty()
    } else if ids.contains(slots[0].pid as u32) {
        seq![slots[0]] + kept_pids(slots.skip(1), ids)
    } else {
        kept_pids(slots.skip(1), ids)
    }
}

proof fn lemma_pid_index(slots: Seq<PidSlotView>, pid: u16)
    ensures
        0 <= pid_slot_index(slots, pid) <= slots.len(),
        pid_slot_index(slots, pid) < slots.len() ==> slots[pid_slot_index(slots, pid)].pid == pid,
    decreases slots.len(),
{
    if slots.len() > 0 && slots[0].pid != pid {
        lemma_pid_index(slots.skip(1), pid);
    }
}

/// A slot is among the kept ones exactly if its track is wanted, and changing it
/// there is changing it before.
proof fn lemma_kept_slot(slots: Seq<PidSlotView>, pid: u16, new: PidSlotView, ids: Seq<u32>)
    requires
        new.pid == pid,
    ensures
        ({
            let i = pid_slot_index(slots, pid);
            let kept = kept_pids(slots, ids);
            let k = pid_slot_index(kept, pid);
            &&& 0 <= i <= slots.len()
            &&& 0 <= k <= kept.len()
            &&& k < kept.len() <==> i < slots.len() && ids.contains(pid as u32)
            &&& k < kept.len() ==> kept[k] == slots[i] && kept_pids(slots.update(i, new), ids)
                == kept.update(k, new)
            &&& k == kept.len() && i < slots.len() ==> kept_pids(slots.update(i, new), ids) == kept
        }),
    decreases slots.len(),
{
    let kept = kept_pids(slots, ids);
    if slots.len() > 0 {
        let first = slots[0];
        let rest = slots.skip(1);
        let tail = kept_pids(rest, ids);
        lemma_kept_slot(rest, pid, new, ids);
        let i = pid_slot_index(slots, pid);
        if first.pid == pid {
            assert(slots.update(0, new).skip(1) =~= rest);
            if ids.contains(pid as u32) {
                assert(kept.update(0, new) =~= seq![new] + tail);
            }
        } else {
            let j = pid_slot_index(rest, pid);
            assert(i == 1 + j);
            if i < slots.len() {
                assert(slots.update(i, new).skip(1) =~= rest.update(j, new));
                assert(slots.update(i, new)[0] == first);
            }
            if ids.contains(first.pid as u32) {
                assert(kept.skip(1) =~= tail);
                let k = pid_slot_index(tail, pid);
                if k < tail.len() {
                    assert(kept.update(1 + k, new) =~= seq![first] + tail.update(k, new));
                }
            }
        }
    }
}

proof fn lemma_packet(
    slots: Seq<PidSlotView>,
    container: ContainerFormat,
    packet: Seq<u8>,
    ids: Seq<u32>,
)
    ensures
        ({
            let (after, sets) = packet_effect(slots, container, packet);
            let (kept, wanted) = packet_effect(kept_pids(slots, ids), container, packet);
            kept == kept_pids(after, ids) && wanted == of_tracks(sets, ids)
        }),
{
    let pid = pid_of(packet[1], packet[2]);
    let i = pid_slot_index(slots, pid);
    lemma_pid_index(slots, pid);
    let (after, sets) = packet_effect(slots, container, packet);
    let none = Seq::<TrackSetView>::empty();
    assert(of_tracks(none, ids) =~= none);
    if 0 <= i < slots.len() {
        let new = after[i];
        assert(new.pid == pid);
        lemma_kept_slot(slots, pid, new, ids);
        assert(after =~= slots.update(i, new));
        lemma_one_track(sets, pid as u32, ids);
    } else {
        lemma_kept_slot(slots, pid, PidSlotView { pid, ..slots[0] }, ids);
    }
}

/// A slot whose rest has been taken.
pub open spec fn flushed_slot(slot: PidSlotView) -> PidSlotView {
    PidSlotView {
        pes: None,
        assembler: pushed_all(slot.assembler, pes_emitted(slot.pes)).0,
        ..slot
    }
}

/// The display sets that taking the rest of slots completes.
pub open spec fn flushed_sets(slots: Seq<PidSlotView>, container: ContainerFormat) -> Seq<
    TrackSetView,
>
    decreases slots.len(),
{
    if slots.len() == 0 {
        Seq::empty()
    } else {
        flushed_sets(slots.drop_last(), container) + sets_of_pid(
            slots.last(),
            container,
            pushed_all(slots.last().assembler, pes_emitted(slots.last().pes)).1,
        )
    }
}

proof fn lemma_flush(slots: Seq<PidSlotView>, container: ContainerFormat, n: nat)
    requires
        n <= slots.len(),
    ensures
        flush_effect(slots, container, n).0 == Seq::new(
            slots.len(),
            |i: int|
                if i < n {
                    flushed_slot(slots[i])
                } else {
                    slots[i]
                },
        ),
        flush_effect(slots, container, n).1 == flushed_sets(slots.take(n as int), container),
    decreases n,
{
    let all = Seq::new(
        slots.len(),
        |i: int|
            if i < n {
                flushed_slot(slots[i])
            } else {
                slots[i]
            },
    );
    if n == 0 {
        assert(all =~= slots);
    } else {
        lemma_flush(slots, container, (n - 1) as nat);
        assert(slots.take(n as int).drop_last() =~= slots.take(n - 1));
        assert(slots.take(n as int).last() == slots[n - 1]);
        assert(flush_effect(slots, container, n).0 =~= all);
    }
}

/// All slots with their rests taken.
pub open spec fn flushed_slots(slots: Seq<PidSlotView>) -> Seq<PidSlotView> {
    Seq::new(slots.len(), |i: int| flushed_slot(slots[i]))
}

proof fn lemma_flush_all(slots: Seq<PidSlotView>, container: ContainerFormat)
    ensures
        flush_effect(slots, container, slots.len()).0 == flushed_slots(slots),
        flush_effect(slots, container, slots.len()).1 == flushed_sets(slots, container),
{
    lemma_flush(slots, container, slots.len());
    assert(slots.take(slots.len() as int) =~= slots);
    assert(flush_effect(slots, container, slots.len()).0 =~= flushed_slots(slots));
}

proof fn lemma_kept_flushed(slots: Seq<PidSlotView>, ids: Seq<u32>)
    ensures
        kept_pids(flushed_slots(slots), ids) == flushed_slots(kept_pids(slots, ids)),
    decreases slots.len(),
{
    let all = flushed_slots(slots);
    let kept = kept_pids(slots, ids);
    if slots.len() > 0 {
        lemma_kept_flushed(slots.skip(1), ids);
        assert(all.skip(1) =~= flushed_slots(slots.skip(1)));
        assert(all[0].pid == slots[0].pid);
        assert(kept_pids(all, ids) =~= flushed_slots(kept));
    } else {
        assert(kept_pids(all, ids) =~= flushed_slots(kept));
    }
}

proof fn lemma_kept_last(slots: Seq<PidSlotView>, ids: Seq<u32>)
    requires
        slots.len() > 0,
    ensures
        kept_pids(slots, ids) == if ids.contains(slots.last().pid as u32) {
            kept_pids(slots.drop_last(), ids).push(slots.last())
        } else {
            kept_pids(slots.drop_last(), ids)
        },
    decreases slots.len(),
{
    let rest = slots.skip(1);
    if rest.len() > 0 {
        lemma_kept_last(rest, ids);
        assert(slots.drop_last().skip(1) =~= rest.drop_last());
        assert(rest.last() == slots.last());
        assert(slots.drop_last()[0] == slots[0]);
        if ids.contains(slots.last().pid as u32) {
            assert(kept_pids(slots, ids) =~= kept_pids(slots.drop_last(), ids).push(slots.last()));
        }
    } else {
        assert(kept_pids(rest, ids) =~= Seq::empty());
        assert(kept_pids(slots.drop_last(), ids) =~= Seq::empty());
        assert(slots.last() == slots[0]);
        if ids.contains(slots.last().pid as u32) {
            assert(kept_pids(slots, ids) =~= kept_pids(slots.drop_last(), ids).push(slots.last()));
        }
    }
}

proof fn lemma_kept_sets(slots: Seq<PidSlotView>, container: ContainerFormat, ids: Seq<u32>)
    ensures
        of_tracks(flushed_sets(slots, container), ids) == flushed_sets(
            kept_pids(slots, ids),
            container,
        ),
    decreases slots.len(),
{
    if slots.len() > 0 {
        let slot = slots.last();
        let before = flushed_sets(slots.drop_last(), container);
        let more = sets_of_pid(
            slot,
            container,
            pushed_all(slot.assembler, pes_emitted(slot.pes)).1,
        );
        lemma_kept_sets(slots.drop_last(), container, ids);
        lemma_kept_last(slots, ids);
        lemma_of_tracks_append(before, more, ids);
        lemma_one_track(more, slot.pid as u32, ids);
        let kept = kept_pids(slots.drop_last(), ids);
        if ids.contains(slot.pid as u32) {
            assert(kept.push(slot).drop_last() =~= kept);
        } else {
            assert(of_tracks(before, ids) + of_tracks(more, ids) =~= of_tracks(before, ids));
        }
    }
}

/// An extraction, restricted to the given tracks.
pub open spec fn kept_progress(p: M2tsProgress, ids: Seq<u32>) -> M2tsProgress {
    M2tsProgress {
        slots: kept_pids(p.slots, ids),
        pending: of_tracks(p.pending, ids),
        ..p
    }
}

proof fn lemma_block_scanned(
    c: M2tsConfig,
    start: int,
    n: int,
    offset: int,
    slots: Seq<PidSlotView>,
    pending: Seq<TrackSetView>,
    ids: Seq<u32>,
)
    ensures
        ({
            let (after, sets, pos) = block_scanned(c, start, n, offset, slots, pending);
            block_scanned(c, start, n, offset, kept_pids(slots, ids), of_tracks(pending, ids)) == (
                kept_pids(after, ids),
                of_tracks(sets, ids),
                pos,
            )
        }),
    decreases n - offset,
{
    let s = c.bytes;
    if !(offset < 0 || offset + c.format.size() > n || start < 0 || start + n > s.len()) {
        let at = start + offset + c.format.sync();
        if s[at] != SYNC_BYTE {
            let rest = s.subrange(start + offset + 1, start + n);
            lemma_sync_start(rest, c.format);
            if let Some(i) = sync_start(rest, c.format) {
                lemma_block_scanned(c, start, n, offset + 1 + i, slots, pending, ids);
            }
        } else {
            let packet = s.subrange(at, at + 188);
            lemma_packet(slots, c.container, packet, ids);
            let (after, sets) = packet_effect(slots, c.container, packet);
            lemma_of_tracks_append(pending, sets, ids);
            lemma_block_scanned(
                c,
                start,
                n,
                offset + c.format.size(),
                after,
                pending + sets,
                ids,
            );
        }
    }
}

proof fn lemma_scanned_kept(c: M2tsConfig, p: M2tsProgress, ids: Seq<u32>)
    ensures
        match (scanned(c, p), scanned(c, kept_progress(p, ids))) {
            (Ok(next), Ok(kept)) => kept == kept_progress(next, ids),
            (Err(e), Err(f)) => e == f,
            _ => false,
        },
{
    let left = c.end - p.pos;
    let n = if left < SCAN_BLOCK_SIZE {
        left
    } else {
        SCAN_BLOCK_SIZE as int
    };
    let first = if c.bytes[p.pos + c.format.sync()] == SYNC_BYTE {
        Some(0int)
    } else {
        sync_start(c.bytes.subrange(p.pos, p.pos + n), c.format)
    };
    if let Some(offset) = first {
        lemma_block_scanned(c, p.pos, n, offset, p.slots, p.pending, ids);
    }
}

proof fn lemma_finished_kept(c: M2tsConfig, p: M2tsProgress, ids: Seq<u32>)
    ensures
        finished(c, kept_progress(p, ids)) == kept_progress(finished(c, p), ids),
{
    lemma_flush_all(p.slots, c.container);
    lemma_flush_all(kept_pids(p.slots, ids), c.container);
    lemma_kept_flushed(p.slots, ids);
    lemma_kept_sets(p.slots, c.container, ids);
    lemma_of_tracks_append(p.pending, flushed_sets(p.slots, c.container), ids);
}

/// What an extraction gives once nothing is pending.
pub open spec fn stepped(c: M2tsConfig, p: M2tsProgress) -> Result<Seq<TrackSetView>, ErrorView> {
    if p.flushed {
        Ok(Seq::empty())
    } else if p.pos < 0 || p.pos >= c.end {
        drained(ExtractionView::M2ts(c, finished(c, p)))
    } else {
        match scanned(c, p) {
            Err(e) => Err(e),
            Ok(next) => drained(ExtractionView::M2ts(c, next)),
        }
    }
}

/// The first pending display set comes first.
proof fn lemma_popped(c: M2tsConfig, p: M2tsProgress)
    requires
        p.pending.len() > 0,
    ensures
        drained(ExtractionView::M2ts(c, p)) == after_sets(
            seq![p.pending[0]],
            drained(ExtractionView::M2ts(c, M2tsProgress { pending: p.pending.skip(1), ..p })),
        ),
{
    let x = ExtractionView::M2ts(c, p);
    let fewer = M2tsProgress { pending: p.pending.skip(1), ..p };
    assert(m2ts_next(c, p) == (Some(Ok::<TrackSetView, ErrorView>(p.pending[0])), fewer));
    assert(extraction_next(x) == (
        Some(Ok::<TrackSetView, ErrorView>(p.pending[0])),
        ExtractionView::M2ts(c, fewer),
    ));
}

/// Pending display sets come first.
pub(crate) proof fn lemma_pending_first(c: M2tsConfig, p: M2tsProgress)
    ensures
        drained(ExtractionView::M2ts(c, p)) == after_sets(
            p.pending,
            stepped(c, M2tsProgress { pending: Seq::empty(), ..p }),
        ),
    decreases p.pending.len(),
{
    let q = M2tsProgress { pending: Seq::empty(), ..p };
    if p.pending.len() > 0 {
        let fewer = M2tsProgress { pending: p.pending.skip(1), ..p };
        lemma_popped(c, p);
        lemma_pending_first(c, fewer);
        lemma_after_twice(seq![p.pending[0]], fewer.pending, stepped(c, q));
        assert(seq![p.pending[0]] + fewer.pending =~= p.pending);
    } else {
        assert(p.pending =~= Seq::empty());
        assert(q == p);
        lemma_next_of_stepped(c, p);
        lemma_after_none(stepped(c, p));
    }
}

/// With nothing pending, an extraction gives what its next step gives.
proof fn lemma_next_of_stepped(c: M2tsConfig, p: M2tsProgress)
    requires
        p.pending.len() == 0,
    ensures
        drained(ExtractionView::M2ts(c, p)) == stepped(c, p),
{
    let x = ExtractionView::M2ts(c, p);
    if !p.flushed {
        if p.pos < 0 || p.pos >= c.end {
            assert(m2ts_next(c, p) == m2ts_next(c, finished(c, p)));
            assert(extraction_next(x) == extraction_next(ExtractionView::M2ts(c, finished(c, p))));
        } else if let Ok(next) = scanned(c, p) {
            assert(m2ts_next(c, p) == m2ts_next(c, next));
            assert(extraction_next(x) == extraction_next(ExtractionView::M2ts(c, next)));
        }
    }
}

/// Restricting an extraction from a transport stream to tracks restricts what
/// it gives to them.
proof fn lemma_m2ts_restricted(c: M2tsConfig, p: M2tsProgress, ids: Seq<u32>)
    ensures
        drained(ExtractionView::M2ts(c, kept_progress(p, ids))) == restricted(
            drained(ExtractionView::M2ts(c, p)),
            ids,
        ),
    decreases m2ts_unread(c, p),
{
    let q = M2tsProgress { pending: Seq::empty(), ..p };
    let kept = kept_progress(p, ids);
    lemma_pending_first(c, p);
    lemma_pending_first(c, kept);
    assert(of_tracks(q.pending, ids) =~= Seq::empty());
    assert(M2tsProgress { pending: Seq::empty(), ..kept } == kept_progress(q, ids));
    if !p.flushed {
        if p.pos < 0 || p.pos >= c.end {
            lemma_finished_kept(c, q, ids);
            lemma_m2ts_restricted(c, finished(c, q), ids);
        } else {
            lemma_scanned(c, q);
            lemma_scanned_kept(c, q, ids);
            if let Ok(next) = scanned(c, q) {
                lemma_m2ts_restricted(c, next, ids);
            }
        }
    } else {
        assert(of_tracks(Seq::empty(), ids) =~= Seq::empty());
    }
    if let Ok(rest) = stepped(c, q) {
        lemma_of_tracks_append(p.pending, rest, ids);
    }
}

proof fn lemma_active_pids(pids: Seq<u16>, ids: Seq<u32>, pid: u16)
    ensures
        active_pids(pids, None) == pids,
        active_pids(pids, Some(ids)).contains(pid) <==> pids.contains(pid) && ids.contains(
            pid as u32,
        ),
    decreases pids.len(),
{
    let all = active_pids(pids, None);
    let some = active_pids(pids, Some(ids));
    if pids.len() == 0 {
        assert(all =~= pids);
    } else {
        let fewer = pids.drop_last();
        lemma_active_pids(fewer, ids, pid);
        assert(fewer.push(pids.last()) =~= pids);
        assert(pids.contains(pid) <==> fewer.contains(pid) || pids.last() == pid) by {
            if pids.contains(pid) {
                let i = choose|i: int| 0 <= i < pids.len() && pids[i] == pid;
                if i < fewer.len() {
                    assert(fewer[i] == pid);
                }
            }
            if fewer.contains(pid) {
                let i = choose|i: int| 0 <= i < fewer.len() && fewer[i] == pid;
                assert(pids[i] == pid);
            }
            if pids.last() == pid {
                assert(pids[pids.len() - 1] == pid);
            }
        }
        let before = active_pids(fewer, Some(ids));
        if ids.contains(pids.last() as u32) {
            assert(some == before.push(pids.last()));
            assert(some.contains(pid) <==> before.contains(pid) || pids.last() == pid) by {
                if some.contains(pid) {
                    let i = choose|i: int| 0 <= i < some.len() && some[i] == pid;
                    if i < before.len() {
                        assert(before[i] == pid);
                    }
                }
                if before.contains(pid) {
                    let i = choose|i: int| 0 <= i < before.len() && before[i] == pid;
                    assert(some[i] == pid);
                }
                if pids.last() == pid {
                    assert(some[some.len() - 1] == pid);
                }
            }
        }
    }
}

proof fn lemma_fresh_pids(pids: Seq<u16>, tracks: Seq<M2tsTrackView>, ids: Seq<u32>)
    ensures
        fresh_pid_slots(active_pids(pids, Some(ids)), tracks) == kept_pids(
            fresh_pid_slots(pids, tracks),
            ids,
        ),
    decreases pids.len(),
{
    let none = Seq::<PidSlotView>::empty();
    if pids.len() == 0 {
        assert(kept_pids(none, ids) =~= none);
    } else {
        let pid = pids.last();
        let fewer = pids.drop_last();
        let some = active_pids(fewer, Some(ids));
        lemma_fresh_pids(fewer, tracks, ids);
        lemma_active_pids(fewer, ids, pid);
        let before = fresh_pid_slots(fewer, tracks);
        let all = fresh_pid_slots(pids, tracks);
        if ids.contains(pid as u32) {
            assert(some.push(pid).drop_last() =~= some);
        }
        if !fewer.contains(pid) {
            assert(all.drop_last() =~= before);
            lemma_kept_last(all, ids);
        }
    }
}

/// Filtering an extraction from a transport stream leaves out the display sets
/// of other tracks and nothing else.
pub proof fn filter_loses_nothing_of_transport_streams(
    c: M2tsConfig,
    pos: int,
    pids: Seq<u16>,
    tracks: Seq<M2tsTrackView>,
    ids: Seq<u32>,
)
    ensures
        drained(
            ExtractionView::M2ts(
                c,
                M2tsProgress {
                    pos,
                    slots: fresh_pid_slots(active_pids(pids, Some(ids)), tracks),
                    pending: Seq::empty(),
                    flushed: false,
                },
            ),
        ) == restricted(
            drained(
                ExtractionView::M2ts(
                    c,
                    M2tsProgress {
                        pos,
                        slots: fresh_pid_slots(active_pids(pids, None), tracks),
                        pending: Seq::empty(),
                        flushed: false,
                    },
                ),
            ),
            ids,
        ),
{
    lemma_active_pids(pids, ids, 0);
    lemma_fresh_pids(pids, tracks, ids);
    let p = M2tsProgress {
        pos,
        slots: fresh_pid_slots(pids, tracks),
        pending: Seq::empty(),
        flushed: false,
    };
    assert(of_tracks(p.pending, ids) =~= Seq::empty());
    lemma_m2ts_restricted(c, p, ids);
}

} // verus!
