//! Filters on extractions from Matroska files that are read along their index.
use vstd::prelude::*;
use crate::collect::{after_sets, drained};
use crate::ebml::children::end_of;
use crate::ebml::ids;
use crate::ebml::vint::element_at;
use crate::error::ErrorView;
use crate::extractor::{extraction_next, ExtractionView};
use crate::mkv::block::block_header_at;
use crate::mkv::cluster::{first_block_from, indexed_block, lone_block_at, BlockView};
use crate::mkv::cues::PgsCuePoint;
use crate::mkv::indexed::{cluster_at, cue_blocks};
use crate::mkv::stream::{
    advanced, blocks_effect, cue_wanted, first_source, fresh_mkv_config, fresh_mkv_progress,
    mkv_next, wanted_cues, with_blocks, MkvConfig, MkvProgress, SlotView, SourceView,
};
use crate::mkv::MetadataView;
use crate::restriction::matroska::{
    is_wanted, kept_blocks, kept_config, kept_progress, kept_slots, lemma_active,
    lemma_blocks_effect, lemma_fresh_slots, wanted_of,
};
use crate::restriction::{
    lemma_after_none, lemma_after_twice, lemma_of_tracks_append, of_tracks,
};
use crate::track::{MkvStrategy, TrackSetView};

verus! {

/// The blocks that an entry with a relative position leads to.
pub open spec fn entry_blocks(s: Seq<u8>, cue: PgsCuePoint, tracks: Seq<u64>) -> Result<
    Seq<BlockView>,
    ErrorView,
> {
    match cue_blocks(s, cue, tracks, Set::empty()) {
        Ok((blocks, _)) => Ok(blocks),
        Err(e) => Err(e),
    }
}

/// The display sets that entries lead to, one entry after the other.
pub open spec fn index_run(c: MkvConfig, slots: Seq<SlotView>, cues: Seq<PgsCuePoint>) -> Result<
    Seq<TrackSetView>,
    ErrorView,
>
    decreases cues.len(),
{
    if cues.len() == 0 {
        Ok(Seq::empty())
    } else {
        match entry_blocks(c.bytes, cues[0], c.active) {
            Err(e) => Err(e),
            Ok(blocks) => {
                let (after, sets) = blocks_effect(slots, c.compression, c.scale, blocks);
                after_sets(sets, index_run(c, after, cues.skip(1)))
            },
        }
    }
}

/// Whether all entries have relative positions.
pub open spec fn all_relative(cues: Seq<PgsCuePoint>) -> bool {
    forall|i: int| 0 <= i < cues.len() ==> (#[trigger] cues[i]).relative_position is Some
}

/// What an extraction gives.
#[verifier::opaque]
spec fn given(c: MkvConfig, p: MkvProgress) -> Result<Seq<TrackSetView>, ErrorView> {
    drained(ExtractionView::Mkv(c, p))
}

proof fn lemma_popped(c: MkvConfig, p: MkvProgress)
    requires
        p.pending.len() > 0,
        !(p.source is Uninitialized),
    ensures
        given(c, p) == after_sets(
            seq![p.pending[0]],
            given(c, MkvProgress { pending: p.pending.skip(1), ..p }),
        ),
{
    reveal(given);
    let x = ExtractionView::Mkv(c, p);
    let fewer = MkvProgress { pending: p.pending.skip(1), ..p };
    assert(mkv_next(c, p) == (Some(Ok::<TrackSetView, ErrorView>(p.pending[0])), fewer));
    assert(extraction_next(x) == (
        Some(Ok::<TrackSetView, ErrorView>(p.pending[0])),
        ExtractionView::Mkv(c, fewer),
    ));
}

/// What an entry with a relative position makes of an extraction.
proof fn lemma_entry_taken(
    c: MkvConfig,
    p: MkvProgress,
    cues: Seq<PgsCuePoint>,
    index: int,
    visited: Set<u64>,
)
    requires
        p.source == (SourceView::Cues { cues, index, visited }),
        0 <= index < cues.len(),
        cues[index].relative_position is Some,
    ensures
        match entry_blocks(c.bytes, cues[index], c.active) {
            Err(e) => advanced(c, p) == Err::<Option<MkvProgress>, ErrorView>(e),
            Ok(blocks) => advanced(c, p) == Ok::<Option<MkvProgress>, ErrorView>(
                Some(
                    with_blocks(
                        c,
                        p,
                        blocks,
                        SourceView::Cues { cues, index: index + 1, visited },
                    ),
                ),
            ),
        },
{
}

/// With nothing pending, an extraction gives what its next step gives.
proof fn lemma_step(c: MkvConfig, p: MkvProgress)
    requires
        p.pending.len() == 0,
        !(p.source is Uninitialized),
    ensures
        match advanced(c, p) {
            Err(e) => drained(ExtractionView::Mkv(c, p)) == Err::<Seq<TrackSetView>, ErrorView>(e),
            Ok(None) => drained(ExtractionView::Mkv(c, p)) == Ok::<Seq<TrackSetView>, ErrorView>(
                Seq::empty(),
            ),
            Ok(Some(next)) => !(next.source is Uninitialized) ==> drained(
                ExtractionView::Mkv(c, p),
            ) == drained(ExtractionView::Mkv(c, next)),
        },
{
    let x = ExtractionView::Mkv(c, p);
    if let Ok(Some(next)) = advanced(c, p) {
        if !(next.source is Uninitialized) {
            assert(mkv_next(c, p) == mkv_next(c, next));
            assert(extraction_next(x) == extraction_next(ExtractionView::Mkv(c, next)));
        }
    }
}

/// With nothing pending, an extraction along the index gives what it gives
/// after the next entry, and nothing at the end.
proof fn lemma_entry_given(
    c: MkvConfig,
    p: MkvProgress,
    cues: Seq<PgsCuePoint>,
    index: int,
    visited: Set<u64>,
)
    requires
        p.source == (SourceView::Cues { cues, index, visited }),
        0 <= index <= cues.len(),
        index < cues.len() ==> cues[index].relative_position is Some,
        p.pending.len() == 0,
    ensures
        index == cues.len() ==> given(c, p) == Ok::<Seq<TrackSetView>, ErrorView>(Seq::empty()),
        index < cues.len() ==> given(c, p) == match entry_blocks(
            c.bytes,
            cues[index],
            c.active,
        ) {
            Err(e) => Err(e),
            Ok(blocks) => given(
                c,
                with_blocks(c, p, blocks, SourceView::Cues { cues, index: index + 1, visited }),
            ),
        },
{
    reveal(given);
    lemma_step(c, p);
    if index < cues.len() {
        lemma_entry_taken(c, p, cues, index, visited);
    }
}

proof fn lemma_first_entry(c: MkvConfig, slots: Seq<SlotView>, cues: Seq<PgsCuePoint>, index: int)
    requires
        0 <= index < cues.len(),
    ensures
        index_run(c, slots, cues.skip(index)) == match entry_blocks(
            c.bytes,
            cues[index],
            c.active,
        ) {
            Err(e) => Err(e),
            Ok(blocks) => after_sets(
                blocks_effect(slots, c.compression, c.scale, blocks).1,
                index_run(
                    c,
                    blocks_effect(slots, c.compression, c.scale, blocks).0,
                    cues.skip(index + 1),
                ),
            ),
        },
{
    assert(cues.skip(index)[0] == cues[index]);
    assert(cues.skip(index).skip(1) =~= cues.skip(index + 1));
}

/// An extraction along the index, at an entry, gives what is pending and then
/// what the entries lead to.
proof fn lemma_index_run(
    c: MkvConfig,
    p: MkvProgress,
    cues: Seq<PgsCuePoint>,
    index: int,
    visited: Set<u64>,
)
    requires
        p.source == (SourceView::Cues { cues, index, visited }),
        0 <= index <= cues.len(),
        all_relative(cues),
    ensures
        given(c, p) == after_sets(p.pending, index_run(c, p.slots, cues.skip(index))),
    decreases cues.len() - index, p.pending.len(),
{
    let rest = cues.skip(index);
    if p.pending.len() > 0 {
        let fewer = MkvProgress { pending: p.pending.skip(1), ..p };
        lemma_popped(c, p);
        lemma_index_run(c, fewer, cues, index, visited);
        lemma_after_twice(seq![p.pending[0]], fewer.pending, index_run(c, p.slots, rest));
        assert(seq![p.pending[0]] + fewer.pending =~= p.pending);
    } else {
        assert(p.pending =~= Seq::empty());
        lemma_after_none(index_run(c, p.slots, rest));
        if index < cues.len() {
            assert(cues[index].relative_position is Some);
            lemma_entry_given(c, p, cues, index, visited);
            lemma_first_entry(c, p.slots, cues, index);
            if let Ok(blocks) = entry_blocks(c.bytes, cues[index], c.active) {
                let next = with_blocks(
                    c,
                    p,
                    blocks,
                    SourceView::Cues { cues, index: index + 1, visited },
                );
                lemma_index_run(c, next, cues, index + 1, visited);
                let sets = blocks_effect(p.slots, c.compression, c.scale, blocks).1;
                assert(next.pending =~= sets);
            }
        } else {
            lemma_entry_given(c, p, cues, index, visited);
        }
    }
}

/// What is found with fewer tracks: the same if its track is among them, and
/// nothing otherwise.
pub open spec fn found_alike(
    all: Option<BlockView>,
    some: Result<Option<BlockView>, ErrorView>,
    ids: Seq<u32>,
) -> bool {
    some == Ok::<Option<BlockView>, ErrorView>(
        match all {
            Some(b) => if is_wanted(b.track_number, ids) {
                all
            } else {
                None
            },
            None => None,
        },
    )
}

proof fn lemma_lone(
    s: Seq<u8>,
    pos: int,
    size: u64,
    t: i64,
    all: Seq<u64>,
    some: Seq<u64>,
    ids: Seq<u32>,
)
    requires
        wanted_of(some, all, ids),
    ensures
        lone_block_at(s, pos, size, t, all) matches Ok(found) ==> found_alike(
            found,
            lone_block_at(s, pos, size, t, some),
            ids,
        ),
{
    if let Ok((header, _)) = block_header_at(s, pos) {
        assert(some.contains(header.track_number) <==> all.contains(header.track_number)
            && is_wanted(header.track_number, ids));
    }
}

proof fn lemma_first(
    s: Seq<u8>,
    pos: int,
    end: int,
    t: i64,
    all: Seq<u64>,
    some: Seq<u64>,
    ids: Seq<u32>,
)
    requires
        wanted_of(some, all, ids),
    ensures
        first_block_from(s, pos, end, t, all) matches Ok(found) ==> found_alike(
            found,
            first_block_from(s, pos, end, t, some),
            ids,
        ),
    decreases
            (if pos < s.len() {
                s.len() - pos
            } else {
                0
            }),
{
    if pos < end {
        if let Some(e) = element_at(s, pos) {
            if e.id == ids::BLOCK {
                lemma_lone(s, e.data, e.size, t, all, some, ids);
            } else if let Ok(next) = end_of(e.data, e.size) {
                if next > pos {
                    lemma_first(s, next, end, t, all, some, ids);
                }
            }
        }
    }
}

proof fn lemma_entry(
    s: Seq<u8>,
    cue: PgsCuePoint,
    all: Seq<u64>,
    some: Seq<u64>,
    ids: Seq<u32>,
)
    requires
        cue.relative_position is Some,
        wanted_of(some, all, ids),
    ensures
        entry_blocks(s, cue, all) matches Ok(blocks) ==> entry_blocks(s, cue, some) == Ok::<
            Seq<BlockView>,
            ErrorView,
        >(kept_blocks(blocks, ids)),
{
    let none = Seq::<BlockView>::empty();
    assert(kept_blocks(none, ids) =~= none);
    let t = cue.time as i64;
    if let Ok(Some(cluster)) = cluster_at(s, cue.cluster_position as int) {
        if let Ok(at) = end_of(cluster.data, cue.relative_position->0) {
            if let Some(e) = element_at(s, at) {
                lemma_lone(s, e.data, e.size, t, all, some, ids);
                if let Ok(end) = end_of(e.data, e.size) {
                    lemma_first(s, e.data, end, t, all, some, ids);
                }
            }
            if let Ok(Some(b)) = indexed_block(s, at, cue.time, all) {
                assert(seq![b].drop_last() =~= none);
                assert(none.push(b) =~= seq![b]);
                assert(kept_blocks(seq![b], ids) == if is_wanted(b.track_number, ids) {
                    seq![b]
                } else {
                    none
                });
            }
        }
    }
}

/// The entries for the given tracks.
pub open spec fn kept_cues(cues: Seq<PgsCuePoint>, ids: Seq<u32>) -> Seq<PgsCuePoint>
    decreases cues.len(),
{
    if cues.len() == 0 {
        Seq::empty()
    } else if is_wanted(cues[0].track_number, ids) {
        seq![cues[0]] + kept_cues(cues.skip(1), ids)
    } else {
        kept_cues(cues.skip(1), ids)
    }
}

/// Whether entries have relative positions and lead to blocks of their tracks.
pub open spec fn entries_are_true(s: Seq<u8>, cues: Seq<PgsCuePoint>, tracks: Seq<u64>) -> bool {
    forall|i: int| 0 <= i < cues.len() ==> entry_is_true(s, #[trigger] cues[i], tracks)
}

/// Whether an entry has a relative position and leads to a block of its track.
pub open spec fn entry_is_true(s: Seq<u8>, cue: PgsCuePoint, tracks: Seq<u64>) -> bool {
    &&& cue.relative_position is Some
    &&& entry_blocks(s, cue, tracks) matches Ok(blocks) ==> forall|i: int|
        0 <= i < blocks.len() ==> (#[trigger] blocks[i]).track_number == cue.track_number
}

proof fn lemma_others(blocks: Seq<BlockView>, number: u64, ids: Seq<u32>)
    requires
        forall|i: int| 0 <= i < blocks.len() ==> (#[trigger] blocks[i]).track_number == number,
        !is_wanted(number, ids),
    ensures
        kept_blocks(blocks, ids) == Seq::<BlockView>::empty(),
    decreases blocks.len(),
{
    if blocks.len() > 0 {
        assert(blocks[blocks.len() - 1].track_number == number);
        assert forall|i: int| 0 <= i < blocks.drop_last().len() implies (
        #[trigger] blocks.drop_last()[i]).track_number == number by {
            assert(blocks.drop_last()[i] == blocks[i]);
        }
        lemma_others(blocks.drop_last(), number, ids);
    }
}

proof fn lemma_run_restricted(
    c: MkvConfig,
    slots: Seq<SlotView>,
    cues: Seq<PgsCuePoint>,
    some: Seq<u64>,
    ids: Seq<u32>,
)
    requires
        wanted_of(some, c.active, ids),
        entries_are_true(c.bytes, cues, c.active),
        index_run(c, slots, cues) is Ok,
    ensures
        index_run(kept_config(c, some), kept_slots(slots, ids), kept_cues(cues, ids)) == Ok::<
            Seq<TrackSetView>,
            ErrorView,
        >(of_tracks(index_run(c, slots, cues)->Ok_0, ids)),
    decreases cues.len(),
{
    let none = Seq::<TrackSetView>::empty();
    assert(of_tracks(none, ids) =~= none);
    if cues.len() > 0 {
        let cue = cues[0];
        let later = cues.skip(1);
        let few = kept_config(c, some);
        assert(entry_is_true(c.bytes, cues[0], c.active));
        assert forall|i: int| 0 <= i < later.len() implies entry_is_true(
            c.bytes,
            #[trigger] later[i],
            c.active,
        ) by {
            assert(later[i] == cues[i + 1]);
        }
        let blocks = entry_blocks(c.bytes, cue, c.active)->Ok_0;
        let (after, sets) = blocks_effect(slots, c.compression, c.scale, blocks);
        let rest = index_run(c, after, later)->Ok_0;
        lemma_run_restricted(c, after, later, some, ids);
        lemma_of_tracks_append(sets, rest, ids);
        lemma_blocks_effect(slots, c.compression, c.scale, blocks, ids);
        lemma_entry(c.bytes, cue, c.active, some, ids);
        let kept = kept_cues(later, ids);
        if is_wanted(cue.track_number, ids) {
            let all = seq![cue] + kept;
            assert(all[0] == cue);
            assert(all.skip(1) =~= kept);
        } else {
            lemma_others(blocks, cue.track_number, ids);
            assert(of_tracks(sets, ids) =~= none);
            assert(kept_slots(after, ids) == kept_slots(slots, ids));
            assert(none + of_tracks(rest, ids) =~= of_tracks(rest, ids));
        }
    }
}

proof fn lemma_kept_last(cues: Seq<PgsCuePoint>, ids: Seq<u32>)
    requires
        cues.len() > 0,
    ensures
        kept_cues(cues, ids) == if is_wanted(cues.last().track_number, ids) {
            kept_cues(cues.drop_last(), ids).push(cues.last())
        } else {
            kept_cues(cues.drop_last(), ids)
        },
    decreases cues.len(),
{
    let rest = cues.skip(1);
    let before = kept_cues(cues.drop_last(), ids);
    if rest.len() > 0 {
        lemma_kept_last(rest, ids);
        assert(cues.drop_last().skip(1) =~= rest.drop_last());
        assert(rest.last() == cues.last());
        assert(cues.drop_last()[0] == cues[0]);
    } else {
        assert(kept_cues(rest, ids) =~= Seq::empty());
        assert(before =~= Seq::empty());
        assert(cues.last() == cues[0]);
    }
    if is_wanted(cues.last().track_number, ids) {
        assert(kept_cues(cues, ids) =~= before.push(cues.last()));
    }
}

proof fn lemma_wanted(c: MkvConfig, cues: Seq<PgsCuePoint>, some: Seq<u64>, ids: Seq<u32>)
    requires
        wanted_of(some, c.active, ids),
    ensures
        wanted_cues(kept_config(c, some), cues) == kept_cues(wanted_cues(c, cues), ids),
    decreases cues.len(),
{
    if cues.len() > 0 {
        let cue = cues.last();
        lemma_wanted(c, cues.drop_last(), some, ids);
        let before = wanted_cues(c, cues.drop_last());
        assert(some.contains(cue.track_number) <==> c.active.contains(cue.track_number)
            && is_wanted(cue.track_number, ids));
        if cue_wanted(c, cue) {
            lemma_kept_last(before.push(cue), ids);
            assert(before.push(cue).drop_last() =~= before);
        }
    }
}

proof fn lemma_kept_relative(cues: Seq<PgsCuePoint>, ids: Seq<u32>)
    requires
        all_relative(cues),
    ensures
        all_relative(kept_cues(cues, ids)),
    decreases cues.len(),
{
    if cues.len() > 0 {
        let later = cues.skip(1);
        assert forall|i: int| 0 <= i < later.len() implies (
        #[trigger] later[i]).relative_position is Some by {
            assert(later[i] == cues[i + 1]);
        }
        lemma_kept_relative(later, ids);
        let kept = kept_cues(later, ids);
        assert(cues[0].relative_position is Some);
        if is_wanted(cues[0].track_number, ids) {
            let all = seq![cues[0]] + kept;
            assert forall|i: int| 0 <= i < all.len() implies (
            #[trigger] all[i]).relative_position is Some by {
                if i > 0 {
                    assert(all[i] == kept[i - 1]);
                }
            }
        }
    }
}

/// Filtering an extraction along an index leaves out the display sets of other
/// tracks and nothing else.
///
/// The index has entries for wanted tracks, its entries have relative positions
/// and lead to blocks of their tracks, and the extraction of all tracks does not
/// fail.
pub proof fn filter_loses_nothing_along_the_index(
    bytes: Seq<u8>,
    m: MetadataView,
    cues: Seq<PgsCuePoint>,
    ids: Seq<u32>,
)
    requires
        m.cue_points == Some(cues),
        ({
            let c = fresh_mkv_config(bytes, m, None, MkvStrategy::Auto);
            &&& entries_are_true(bytes, wanted_cues(c, cues), c.active)
            &&& kept_cues(wanted_cues(c, cues), ids).len() > 0
            &&& drained(ExtractionView::Mkv(c, fresh_mkv_progress(m, None))) is Ok
        }),
    ensures
        drained(
            ExtractionView::Mkv(
                fresh_mkv_config(bytes, m, Some(ids), MkvStrategy::Auto),
                fresh_mkv_progress(m, Some(ids)),
            ),
        ) == Ok::<Seq<TrackSetView>, ErrorView>(
            of_tracks(
                drained(
                    ExtractionView::Mkv(
                        fresh_mkv_config(bytes, m, None, MkvStrategy::Auto),
                        fresh_mkv_progress(m, None),
                    ),
                )->Ok_0,
                ids,
            ),
        ),
{
    let c = fresh_mkv_config(bytes, m, None, MkvStrategy::Auto);
    let p = fresh_mkv_progress(m, None);
    let few = fresh_mkv_config(bytes, m, Some(ids), MkvStrategy::Auto);
    let kept = fresh_mkv_progress(m, Some(ids));
    let some = few.active;
    lemma_active(m.pgs_track_numbers, ids, 0);
    assert forall|n: u64| #[trigger] some.contains(n) <==> c.active.contains(n) && is_wanted(
        n,
        ids,
    ) by {
        lemma_active(m.pgs_track_numbers, ids, n);
    }
    lemma_fresh_slots(m.pgs_track_numbers, m.pgs_tracks, ids);
    let none = Seq::<TrackSetView>::empty();
    assert(of_tracks(none, ids) =~= none);
    assert(kept == kept_progress(p, ids));
    assert(few == kept_config(c, some));
    let all = wanted_cues(c, cues);
    let wanted = wanted_cues(few, cues);
    lemma_wanted(c, cues, some, ids);
    assert(wanted == kept_cues(all, ids));
    assert forall|i: int| 0 <= i < all.len() implies (
    #[trigger] all[i]).relative_position is Some by {
        assert(entry_is_true(bytes, all[i], c.active));
    }
    lemma_kept_relative(all, ids);
    if all.len() == 0 {
        assert(wanted =~= Seq::empty());
    }
    let x = ExtractionView::Mkv(c, p);
    let y = ExtractionView::Mkv(few, kept);
    match first_source(c) {
        Ok(source) => {
            assert(source == (SourceView::Cues { cues: all, index: 0, visited: Set::empty() }));
            let other = SourceView::Cues { cues: wanted, index: 0, visited: Set::empty() };
            assert(first_source(few) == Ok::<SourceView, ErrorView>(other));
            let q = MkvProgress { source, ..p };
            let r = MkvProgress { source: other, ..kept };
            assert(extraction_next(x) == extraction_next(ExtractionView::Mkv(c, q)));
            assert(extraction_next(y) == extraction_next(ExtractionView::Mkv(few, r)));
            reveal(given);
            lemma_index_run(c, q, all, 0, Set::empty());
            lemma_index_run(few, r, wanted, 0, Set::empty());
            assert(all.skip(0) =~= all);
            assert(wanted.skip(0) =~= wanted);
            lemma_after_none(index_run(c, p.slots, all));
            lemma_after_none(index_run(few, kept.slots, wanted));
            lemma_run_restricted(c, p.slots, all, some, ids);
        },
        Err(_) => {},
    }
}

} // verus!
