//! Filters on extractions from Matroska files that are read in file order.
use vstd::prelude::*;
use crate::collect::{after_sets, drained};
use crate::ebml::children::end_of;
use crate::ebml::ids;
use crate::ebml::vint::element_at;
use crate::error::ErrorView;
use crate::extractor::{extraction_next, ExtractionView};
use crate::mkv::block::block_header_at;
use crate::mkv::cluster::{
    block_at, cluster_blocks, group_from, group_step, scan_from, scan_step, with_block, BlockView,
};
use crate::mkv::stream::{
    active_of, advanced, block_effect, blocks_effect, first_source, fresh_mkv_config,
    fresh_mkv_progress, fresh_slots, lemma_advanced, mkv_next, next_cluster, slot_index,
    source_measure, MkvConfig, MkvProgress, SlotView, SourceView,
};
use crate::mkv::tracks::{CompressionView, TrackView};
use crate::mkv::MetadataView;
use crate::restriction::{
    lemma_after_none, lemma_after_twice, lemma_of_tracks_append, lemma_one_track, of_tracks,
    sets_alike,
};
use crate::track::{track_id_of, MkvStrategy, TrackSetView};

verus! {

/// Whether the track with a number is one of the given ones.
pub open spec fn is_wanted(number: u64, ids: Seq<u32>) -> bool {
    ids.contains(track_id_of(number))
}

/// The slots of the given tracks.
pub open spec fn kept_slots(slots: Seq<SlotView>, ids: Seq<u32>) -> Seq<SlotView>
    decreases slots.len(),
{
    if slots.len() == 0 {
        Seq::empty()
    } else if is_wanted(slots[0].number, ids) {
        seq![slots[0]] + kept_slots(slots.skip(1), ids)
    } else {
        kept_slots(slots.skip(1), ids)
    }
}

/// The blocks of the given tracks.
pub open spec fn kept_blocks(blocks: Seq<BlockView>, ids: Seq<u32>) -> Seq<BlockView>
    decreases blocks.len(),
{
    if blocks.len() == 0 {
        Seq::empty()
    } else if is_wanted(blocks.last().track_number, ids) {
        kept_blocks(blocks.drop_last(), ids).push(blocks.last())
    } else {
        kept_blocks(blocks.drop_last(), ids)
    }
}

proof fn lemma_slot_index(slots: Seq<SlotView>, number: u64)
    ensures
        0 <= slot_index(slots, number) <= slots.len(),
        slot_index(slots, number) < slots.len() ==> slots[slot_index(slots, number)].number
            == number,
    decreases slots.len(),
{
    if slots.len() > 0 && slots[0].number != number {
        lemma_slot_index(slots.skip(1), number);
    }
}

/// A slot is among the kept ones exactly if its track is wanted, and changing it
/// there is changing it before.
proof fn lemma_kept_slot(slots: Seq<SlotView>, number: u64, new: SlotView, ids: Seq<u32>)
    requires
        new.number == number,
    ensures
        ({
            let i = slot_index(slots, number);
            let kept = kept_slots(slots, ids);
            let k = slot_index(kept, number);
            &&& 0 <= i <= slots.len()
            &&& 0 <= k <= kept.len()
            &&& k < kept.len() <==> i < slots.len() && is_wanted(number, ids)
            &&& k < kept.len() ==> kept[k] == slots[i] && kept_slots(slots.update(i, new), ids)
                == kept.update(k, new)
            &&& k == kept.len() && i < slots.len() ==> kept_slots(slots.update(i, new), ids) == kept
        }),
    decreases slots.len(),
{
    let kept = kept_slots(slots, ids);
    if slots.len() > 0 {
        let first = slots[0];
        let rest = slots.skip(1);
        let tail = kept_slots(rest, ids);
        lemma_kept_slot(rest, number, new, ids);
        let i = slot_index(slots, number);
        if first.number == number {
            assert(slots.update(0, new).skip(1) =~= rest);
            if is_wanted(number, ids) {
                assert(kept.update(0, new) =~= seq![new] + tail);
            }
        } else {
            let j = slot_index(rest, number);
            assert(i == 1 + j);
            if i < slots.len() {
                assert(slots.update(i, new).skip(1) =~= rest.update(j, new));
                assert(slots.update(i, new)[0] == first);
            }
            if is_wanted(first.number, ids) {
                assert(kept.skip(1) =~= tail);
                let k = slot_index(tail, number);
                if k < tail.len() {
                    assert(kept.update(1 + k, new) =~= seq![first] + tail.update(k, new));
                }
            }
        }
    }
}

proof fn lemma_block_effect(
    slots: Seq<SlotView>,
    compression: Map<u64, CompressionView>,
    scale: u64,
    b: BlockView,
    ids: Seq<u32>,
)
    ensures
        ({
            let (after, sets) = block_effect(slots, compression, scale, b);
            let (kept, wanted) = block_effect(kept_slots(slots, ids), compression, scale, b);
            &&& kept == kept_slots(after, ids)
            &&& wanted == of_tracks(sets, ids)
            &&& !is_wanted(b.track_number, ids) ==> kept == kept_slots(slots, ids) && wanted
                == Seq::<TrackSetView>::empty()
        }),
{
    let number = b.track_number;
    let i = slot_index(slots, number);
    lemma_slot_index(slots, number);
    let (after, sets) = block_effect(slots, compression, scale, b);
    let none = Seq::<TrackSetView>::empty();
    assert(of_tracks(none, ids) =~= none);
    if 0 <= i < slots.len() {
        let new = after[i];
        assert(new.number == number);
        lemma_kept_slot(slots, number, new, ids);
        assert(after =~= slots.update(i, new));
        lemma_one_track(sets, track_id_of(number), ids);
    } else {
        lemma_kept_slot(slots, number, SlotView { number, ..slots[0] }, ids);
    }
}

pub(crate) proof fn lemma_blocks_effect(
    slots: Seq<SlotView>,
    compression: Map<u64, CompressionView>,
    scale: u64,
    blocks: Seq<BlockView>,
    ids: Seq<u32>,
)
    ensures
        ({
            let (after, sets) = blocks_effect(slots, compression, scale, blocks);
            blocks_effect(kept_slots(slots, ids), compression, scale, kept_blocks(blocks, ids)) == (
                kept_slots(after, ids),
                of_tracks(sets, ids),
            )
        }),
    decreases blocks.len(),
{
    let none = Seq::<TrackSetView>::empty();
    assert(of_tracks(none, ids) =~= none);
    if blocks.len() > 0 {
        let b = blocks.last();
        lemma_blocks_effect(slots, compression, scale, blocks.drop_last(), ids);
        let (before, sets) = blocks_effect(slots, compression, scale, blocks.drop_last());
        let (after, more) = block_effect(before, compression, scale, b);
        lemma_block_effect(before, compression, scale, b, ids);
        lemma_of_tracks_append(sets, more, ids);
        let kept = kept_blocks(blocks.drop_last(), ids);
        if is_wanted(b.track_number, ids) {
            assert(kept.push(b).drop_last() =~= kept);
        } else {
            assert(of_tracks(sets, ids) + none =~= of_tracks(sets, ids));
        }
    }
}

/// Whether one list of tracks has exactly the wanted ones of another.
pub open spec fn wanted_of(some: Seq<u64>, all: Seq<u64>, ids: Seq<u32>) -> bool {
    forall|n: u64| #[trigger] some.contains(n) <==> all.contains(n) && is_wanted(n, ids)
}

/// Whether two readings are alike: both fail, or both go as far and one finds
/// the wanted blocks of what the other finds.
pub open spec fn blocks_alike(
    all: Result<(Seq<BlockView>, int), ErrorView>,
    some: Result<(Seq<BlockView>, int), ErrorView>,
    ids: Seq<u32>,
) -> bool {
    match (all, some) {
        (Ok((v, next)), Ok((w, end))) => w == kept_blocks(v, ids) && next == end,
        (Err(_), Err(_)) => true,
        _ => false,
    }
}

/// Whether what two readings of one block find is alike.
pub open spec fn block_alike(
    all: Result<(Option<BlockView>, int), ErrorView>,
    some: Result<(Option<BlockView>, int), ErrorView>,
    ids: Seq<u32>,
) -> bool {
    match (all, some) {
        (Ok((b, next)), Ok((c, end))) => {
            &&& next == end
            &&& match b {
                Some(found) => c == if is_wanted(found.track_number, ids) {
                    b
                } else {
                    None
                },
                None => c is None,
            }
        },
        (Err(_), Err(_)) => true,
        _ => false,
    }
}

proof fn lemma_block(
    s: Seq<u8>,
    pos: int,
    size: u64,
    t: i64,
    all: Seq<u64>,
    some: Seq<u64>,
    ids: Seq<u32>,
)
    requires
        wanted_of(some, all, ids),
    ensures
        block_alike(
            block_at(s, pos, size, t, all, true),
            block_at(s, pos, size, t, some, true),
            ids,
        ),
{
    if let Ok(end) = end_of(pos, size) {
        if let Ok((header, at)) = block_header_at(s, pos) {
            assert(some.contains(header.track_number) <==> all.contains(header.track_number)
                && is_wanted(header.track_number, ids));
        }
    }
}

proof fn lemma_with_block(blocks: Seq<BlockView>, b: Option<BlockView>, ids: Seq<u32>)
    ensures
        kept_blocks(with_block(blocks, b), ids) == with_block(
            kept_blocks(blocks, ids),
            match b {
                Some(found) => if is_wanted(found.track_number, ids) {
                    b
                } else {
                    None
                },
                None => None,
            },
        ),
{
    if let Some(found) = b {
        assert(blocks.push(found).drop_last() =~= blocks);
    }
}

proof fn lemma_group(
    s: Seq<u8>,
    pos: int,
    end: int,
    t: i64,
    all: Seq<u64>,
    some: Seq<u64>,
    blocks: Seq<BlockView>,
    ids: Seq<u32>,
)
    requires
        wanted_of(some, all, ids),
    ensures
        blocks_alike(
            group_from(s, pos, end, t, all, true, blocks),
            group_from(s, pos, end, t, some, true, kept_blocks(blocks, ids)),
            ids,
        ),
    decreases
            (if pos < s.len() {
                s.len() - pos
            } else {
                0
            }),
{
    if pos < end {
        if let Some(e) = element_at(s, pos) {
            if e.id == ids::BLOCK {
                lemma_block(s, e.data, e.size, t, all, some, ids);
            }
            if let Ok((block, next)) = group_step(s, e, t, all, true) {
                lemma_with_block(blocks, block, ids);
                if next > pos {
                    lemma_group(s, next, end, t, all, some, with_block(blocks, block), ids);
                }
            }
        }
    }
}

proof fn lemma_scan(
    s: Seq<u8>,
    pos: int,
    end: int,
    t: i64,
    all: Seq<u64>,
    some: Seq<u64>,
    blocks: Seq<BlockView>,
    ids: Seq<u32>,
)
    requires
        wanted_of(some, all, ids),
    ensures
        blocks_alike(
            scan_from(s, pos, end, t, all, true, blocks),
            scan_from(s, pos, end, t, some, true, kept_blocks(blocks, ids)),
            ids,
        ),
    decreases
            (if pos < s.len() {
                s.len() - pos
            } else {
                0
            }),
{
    if pos < end {
        if let Some(e) = element_at(s, pos) {
            if e.id == ids::SIMPLE_BLOCK {
                lemma_block(s, e.data, e.size, t, all, some, ids);
                if let Ok((block, _)) = block_at(s, e.data, e.size, t, all, true) {
                    lemma_with_block(blocks, block, ids);
                }
            } else if e.id == ids::BLOCK_GROUP {
                if let Ok(group_end) = end_of(e.data, e.size) {
                    lemma_group(s, e.data, group_end, t, all, some, blocks, ids);
                }
            }
            if let Ok((time, more, next)) = scan_step(s, e, t, all, true, blocks) {
                if next > pos {
                    lemma_scan(s, next, end, time, all, some, more, ids);
                }
            }
        }
    }
}

/// The extraction of some tracks.
pub open spec fn kept_config(c: MkvConfig, some: Seq<u64>) -> MkvConfig {
    MkvConfig { active: some, ..c }
}

/// An extraction, restricted to the given tracks.
pub open spec fn kept_progress(p: MkvProgress, ids: Seq<u32>) -> MkvProgress {
    MkvProgress {
        slots: kept_slots(p.slots, ids),
        pending: of_tracks(p.pending, ids),
        ..p
    }
}

proof fn lemma_advanced_kept(c: MkvConfig, p: MkvProgress, some: Seq<u64>, ids: Seq<u32>)
    requires
        p.source is Scan,
        wanted_of(some, c.active, ids),
    ensures
        match (advanced(c, p), advanced(kept_config(c, some), kept_progress(p, ids))) {
            (Ok(Some(next)), Ok(Some(kept))) => kept == kept_progress(next, ids)
                && next.source is Scan,
            (Ok(None), Ok(None)) => true,
            (Err(_), Err(_)) => true,
            _ => false,
        },
{
    if let SourceView::Scan { pos, end } = p.source {
        if let Ok(Some(cluster)) = next_cluster(c.bytes, pos, end) {
            let none = Seq::<BlockView>::empty();
            assert(kept_blocks(none, ids) =~= none);
            if let Ok(last) = end_of(cluster.data, cluster.size) {
                lemma_scan(c.bytes, cluster.data, last, 0, c.active, some, none, ids);
            }
            if let Ok((blocks, _)) = cluster_blocks(
                c.bytes,
                cluster.data,
                cluster.size,
                cluster.data,
                c.active,
                true,
            ) {
                lemma_blocks_effect(p.slots, c.compression, c.scale, blocks, ids);
                lemma_of_tracks_append(
                    p.pending,
                    blocks_effect(p.slots, c.compression, c.scale, blocks).1,
                    ids,
                );
            }
        }
    }
}

/// What an extraction gives once nothing is pending.
pub open spec fn stepped(c: MkvConfig, p: MkvProgress) -> Result<Seq<TrackSetView>, ErrorView> {
    match advanced(c, p) {
        Err(e) => Err(e),
        Ok(None) => Ok(Seq::empty()),
        Ok(Some(next)) => drained(ExtractionView::Mkv(c, next)),
    }
}

proof fn lemma_popped(c: MkvConfig, p: MkvProgress)
    requires
        p.pending.len() > 0,
        !(p.source is Uninitialized),
    ensures
        drained(ExtractionView::Mkv(c, p)) == after_sets(
            seq![p.pending[0]],
            drained(ExtractionView::Mkv(c, MkvProgress { pending: p.pending.skip(1), ..p })),
        ),
{
    let x = ExtractionView::Mkv(c, p);
    let fewer = MkvProgress { pending: p.pending.skip(1), ..p };
    assert(mkv_next(c, p) == (Some(Ok::<TrackSetView, ErrorView>(p.pending[0])), fewer));
    assert(extraction_next(x) == (
        Some(Ok::<TrackSetView, ErrorView>(p.pending[0])),
        ExtractionView::Mkv(c, fewer),
    ));
}

proof fn lemma_next_of_stepped(c: MkvConfig, p: MkvProgress)
    requires
        p.pending.len() == 0,
        p.source is Scan || p.source is Cues,
    ensures
        drained(ExtractionView::Mkv(c, p)) == stepped(c, p),
{
    let x = ExtractionView::Mkv(c, p);
    match advanced(c, p) {
        Ok(Some(next)) => {
            assert(next.source is Scan || next.source is Cues);
            assert(mkv_next(c, p) == mkv_next(c, next));
            assert(extraction_next(x) == extraction_next(ExtractionView::Mkv(c, next)));
        },
        _ => {},
    }
}

/// Pending display sets come first.
pub(crate) proof fn lemma_pending_first(c: MkvConfig, p: MkvProgress)
    requires
        p.source is Scan || p.source is Cues,
    ensures
        drained(ExtractionView::Mkv(c, p)) == after_sets(
            p.pending,
            stepped(c, MkvProgress { pending: Seq::empty(), ..p }),
        ),
    decreases p.pending.len(),
{
    let q = MkvProgress { pending: Seq::empty(), ..p };
    if p.pending.len() > 0 {
        let fewer = MkvProgress { pending: p.pending.skip(1), ..p };
        lemma_popped(c, p);
        lemma_pending_first(c, fewer);
        lemma_after_twice(seq![p.pending[0]], fewer.pending, stepped(c, q));
        assert(seq![p.pending[0]] + fewer.pending =~= p.pending);
    } else {
        assert(p.pending =~= Seq::empty());
        assert(q == p);
        lemma_next_of_stepped(c, p);
        lemma_after_none(stepped(c, p));
    }
}

proof fn lemma_scan_restricted(c: MkvConfig, p: MkvProgress, some: Seq<u64>, ids: Seq<u32>)
    requires
        p.source is Scan,
        wanted_of(some, c.active, ids),
    ensures
        sets_alike(
            drained(ExtractionView::Mkv(c, p)),
            drained(ExtractionView::Mkv(kept_config(c, some), kept_progress(p, ids))),
            ids,
        ),
    decreases source_measure(c, p.source),
{
    let q = MkvProgress { pending: Seq::empty(), ..p };
    let few = kept_config(c, some);
    let kept = kept_progress(p, ids);
    let none = Seq::<TrackSetView>::empty();
    lemma_pending_first(c, p);
    lemma_pending_first(few, kept);
    assert(of_tracks(none, ids) =~= none);
    assert(MkvProgress { pending: Seq::empty(), ..kept } == kept_progress(q, ids));
    lemma_advanced_kept(c, q, some, ids);
    if let Ok(Some(next)) = advanced(c, q) {
        lemma_advanced(c, q);
        lemma_scan_restricted(c, next, some, ids);
    }
    if let Ok(rest) = stepped(c, q) {
        lemma_of_tracks_append(p.pending, rest, ids);
    }
}

pub(crate) proof fn lemma_active(numbers: Seq<u64>, ids: Seq<u32>, n: u64)
    ensures
        active_of(numbers, None) == numbers,
        active_of(numbers, Some(ids)).contains(n) <==> numbers.contains(n) && is_wanted(n, ids),
    decreases numbers.len(),
{
    let all = active_of(numbers, None);
    let some = active_of(numbers, Some(ids));
    if numbers.len() == 0 {
        assert(all =~= numbers);
    } else {
        let fewer = numbers.drop_last();
        let last = numbers.last();
        lemma_active(fewer, ids, n);
        assert(fewer.push(last) =~= numbers);
        lemma_contains_push(fewer, last, n);
        lemma_contains_push(active_of(fewer, Some(ids)), last, n);
    }
}

proof fn lemma_contains_push(numbers: Seq<u64>, last: u64, n: u64)
    ensures
        numbers.push(last).contains(n) <==> numbers.contains(n) || last == n,
{
    let all = numbers.push(last);
    if numbers.contains(n) {
        let i = choose|i: int| 0 <= i < numbers.len() && numbers[i] == n;
        assert(all[i] == n);
    }
    assert(all[all.len() - 1] == last);
}

proof fn lemma_kept_last(slots: Seq<SlotView>, ids: Seq<u32>)
    requires
        slots.len() > 0,
    ensures
        kept_slots(slots, ids) == if is_wanted(slots.last().number, ids) {
            kept_slots(slots.drop_last(), ids).push(slots.last())
        } else {
            kept_slots(slots.drop_last(), ids)
        },
    decreases slots.len(),
{
    let rest = slots.skip(1);
    let before = kept_slots(slots.drop_last(), ids);
    if rest.len() > 0 {
        lemma_kept_last(rest, ids);
        assert(slots.drop_last().skip(1) =~= rest.drop_last());
        assert(rest.last() == slots.last());
        assert(slots.drop_last()[0] == slots[0]);
    } else {
        assert(kept_slots(rest, ids) =~= Seq::empty());
        assert(before =~= Seq::empty());
        assert(slots.last() == slots[0]);
    }
    if is_wanted(slots.last().number, ids) {
        assert(kept_slots(slots, ids) =~= before.push(slots.last()));
    }
}

pub(crate) proof fn lemma_fresh_slots(numbers: Seq<u64>, tracks: Seq<TrackView>, ids: Seq<u32>)
    ensures
        fresh_slots(active_of(numbers, Some(ids)), tracks) == kept_slots(
            fresh_slots(numbers, tracks),
            ids,
        ),
    decreases numbers.len(),
{
    let none = Seq::<SlotView>::empty();
    if numbers.len() == 0 {
        assert(kept_slots(none, ids) =~= none);
    } else {
        let n = numbers.last();
        let fewer = numbers.drop_last();
        let some = active_of(fewer, Some(ids));
        lemma_fresh_slots(fewer, tracks, ids);
        lemma_active(fewer, ids, n);
        let before = fresh_slots(fewer, tracks);
        let all = fresh_slots(numbers, tracks);
        if is_wanted(n, ids) {
            assert(some.push(n).drop_last() =~= some);
        }
        if !fewer.contains(n) {
            assert(all.drop_last() =~= before);
            lemma_kept_last(all, ids);
        }
    }
}

/// Filtering an extraction from a Matroska file that is read in file order
/// leaves out the display sets of other tracks and nothing else. It fails where
/// the extraction of all tracks fails.
pub proof fn filter_loses_nothing_in_file_order(
    bytes: Seq<u8>,
    m: MetadataView,
    ids: Seq<u32>,
    strategy: MkvStrategy,
)
    requires
        strategy is Sequential || m.cue_points is None,
    ensures
        sets_alike(
            drained(
                ExtractionView::Mkv(
                    fresh_mkv_config(bytes, m, None, strategy),
                    fresh_mkv_progress(m, None),
                ),
            ),
            drained(
                ExtractionView::Mkv(
                    fresh_mkv_config(bytes, m, Some(ids), strategy),
                    fresh_mkv_progress(m, Some(ids)),
                ),
            ),
            ids,
        ),
{
    let c = fresh_mkv_config(bytes, m, None, strategy);
    let p = fresh_mkv_progress(m, None);
    let few = fresh_mkv_config(bytes, m, Some(ids), strategy);
    let kept = fresh_mkv_progress(m, Some(ids));
    let some = few.active;
    lemma_active(m.pgs_track_numbers, ids, 0);
    assert forall|n: u64| #[trigger] some.contains(n) <==> c.active.contains(n) && is_wanted(
        n,
        ids,
    ) by {
        lemma_active(m.pgs_track_numbers, ids, n);
    }
    lemma_fresh_slots(m.pgs_track_numbers, m.pgs_tracks, ids);
    let none = Seq::<TrackSetView>::empty();
    assert(of_tracks(none, ids) =~= none);
    assert(kept == kept_progress(p, ids));
    assert(few == kept_config(c, some));
    match first_source(c) {
        Ok(source) => {
            assert(source is Scan);
            assert(first_source(few) == Ok::<SourceView, ErrorView>(source));
            let q = MkvProgress { source, ..p };
            let r = MkvProgress { source, ..kept };
            assert(extraction_next(ExtractionView::Mkv(c, p)) == extraction_next(
                ExtractionView::Mkv(c, q),
            ));
            assert(extraction_next(ExtractionView::Mkv(few, kept)) == extraction_next(
                ExtractionView::Mkv(few, r),
            ));
            assert(r == kept_progress(q, ids));
            lemma_scan_restricted(c, q, some, ids);
        },
        Err(_) => {
            assert(first_source(few) is Err);
        },
    }
}

} // verus!
