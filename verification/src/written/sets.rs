//! Display sets in the blocks of Matroska files.
use vstd::prelude::*;
use crate::mkv::cluster::BlockView;
use crate::mkv::decode::{
    block_segments, decoded_data, full_segments, pts_of, zlib_inflated,
};
use crate::mkv::stream::{block_effect, blocks_effect, lemma_slot_index, SlotView};
use crate::mkv::tracks::CompressionView;
use crate::pgs::display_set::{pushed_all, pushed_all_append, AssemblerView, DisplaySetView};
use crate::pgs::segment::{
    raw_bytes, raw_parse_of_bytes, segment_bytes, segment_fits, segment_parse_of_bytes,
    CompositionState, SegmentView,
};
use crate::sup::write::{lemma_segments_prepend, segments_bytes};
use crate::track::{ContainerFormat, TrackSetView};

verus! {

/// The composition state in a composition's payload.
pub open spec fn state_in(payload: Seq<u8>) -> Option<CompositionState> {
    if payload.len() < 8 {
        None
    } else if payload[7] == 0x00 {
        Some(CompositionState::Normal)
    } else if payload[7] == 0x40 {
        Some(CompositionState::AcquisitionPoint)
    } else if payload[7] == 0x80 {
        Some(CompositionState::EpochStart)
    } else {
        None
    }
}

/// Whether segments are those of one display set: a composition with a state, an
/// end, and other segments between them.
pub open spec fn is_set(segments: Seq<SegmentView>) -> bool {
    &&& segments.len() >= 2
    &&& segments[0].segment_type is PresentationComposition
    &&& state_in(segments[0].payload) is Some
    &&& segments.last().segment_type is EndOfDisplaySet
    &&& forall|i: int|
        0 < i < segments.len() - 1 ==> !((#[trigger] segments[i]).segment_type
            is PresentationComposition) && !(segments[i].segment_type is EndOfDisplaySet)
}

/// The display set of segments: with the time and the state of its composition.
pub open spec fn set_of(segments: Seq<SegmentView>) -> DisplaySetView {
    DisplaySetView {
        pts: segments[0].pts,
        composition_state: state_in(segments[0].payload)->0,
        segments,
    }
}

proof fn lemma_collected(a: AssemblerView, segments: Seq<SegmentView>, n: int)
    requires
        is_set(segments),
        1 <= n < segments.len(),
    ensures
        pushed_all(a, segments.take(n)) == (
            AssemblerView {
                segments: segments.take(n),
                pts: segments[0].pts,
                state: state_in(segments[0].payload),
            },
            Seq::<DisplaySetView>::empty(),
        ),
    decreases n,
{
    let some = segments.take(n);
    if n == 1 {
        assert(some.drop_last() =~= Seq::<SegmentView>::empty());
        assert(some =~= seq![segments[0]]);
        reveal_with_fuel(pushed_all, 2);
    } else {
        lemma_collected(a, segments, n - 1);
        assert(some.drop_last() =~= segments.take(n - 1));
        assert(some.last() == segments[n - 1]);
        assert(segments.take(n - 1).push(segments[n - 1]) =~= some);
    }
}

/// The segments of a display set are put together to it, whatever came before
/// them, and nothing is left.
pub proof fn segments_make_their_set(a: AssemblerView, segments: Seq<SegmentView>)
    requires
        is_set(segments),
    ensures
        pushed_all(a, segments).1 == seq![set_of(segments)],
        pushed_all(a, segments).0.segments.len() == 0,
        pushed_all(a, segments).0.state is None,
{
    let n = segments.len() - 1;
    lemma_collected(a, segments, n);
    assert(segments.drop_last() =~= segments.take(n));
    assert(segments.take(n).push(segments.last()) =~= segments);
    assert(pushed_all(a, segments).1 =~= seq![set_of(segments)]);
}

/// Segments, one display set after the other.
pub open spec fn joined(sets: Seq<Seq<SegmentView>>) -> Seq<SegmentView>
    decreases sets.len(),
{
    if sets.len() == 0 {
        Seq::empty()
    } else {
        joined(sets.drop_last()) + sets.last()
    }
}

/// The segments of several display sets are put together to them, in order.
pub proof fn segments_make_their_sets(a: AssemblerView, sets: Seq<Seq<SegmentView>>)
    requires
        forall|i: int| 0 <= i < sets.len() ==> is_set(#[trigger] sets[i]),
    ensures
        pushed_all(a, joined(sets)).1 == Seq::new(sets.len(), |i: int| set_of(sets[i])),
    decreases sets.len(),
{
    if sets.len() == 0 {
        assert(pushed_all(a, joined(sets)).1 =~= Seq::new(sets.len(), |i: int| set_of(sets[i])));
    } else {
        let init = sets.drop_last();
        assert forall|i: int| 0 <= i < init.len() implies is_set(#[trigger] init[i]) by {
            assert(init[i] == sets[i]);
        }
        segments_make_their_sets(a, init);
        pushed_all_append(a, joined(init), sets.last());
        assert(is_set(sets[sets.len() - 1]));
        segments_make_their_set(pushed_all(a, joined(init)).0, sets.last());
        assert(pushed_all(a, joined(sets)).1 =~= Seq::new(sets.len(), |i: int| set_of(sets[i])));
    }
}

/// A time of a track is that many nanoseconds in 90 kHz ticks, rounded down. With
/// a scale of a million, a unit is 90 ticks.
pub proof fn ticks_are_nanoseconds(timestamp: i64, scale: u64)
    requires
        timestamp >= 0,
        timestamp * scale * 9 < 0x1_0000_0000_0000_0000 * 100_000,
    ensures
        pts_of(timestamp, scale) * 100_000 <= timestamp * scale * 9,
        timestamp * scale * 9 < (pts_of(timestamp, scale) + 1) * 100_000,
        scale == 1_000_000 ==> pts_of(timestamp, scale) == timestamp * 90,
{
    assert(timestamp * scale >= 0) by (nonlinear_arith)
        requires
            timestamp >= 0,
            scale >= 0,
    ;
    if timestamp == 0 {
        assert(timestamp * scale == 0) by (nonlinear_arith)
            requires
                timestamp == 0,
        ;
    }
}

/// A block that holds bare segments is read as them, with its own time.
pub proof fn bare_block_is_read(segments: Seq<SegmentView>, pts: u64)
    requires
        forall|i: int|
            0 <= i < segments.len() ==> (#[trigger] segments[i]).pts == pts && segments[i].dts == 0
                && segments[i].payload.len() < 0x1_0000,
    ensures
        block_segments(raw_bytes(segments), pts) == segments,
{
    raw_parse_of_bytes(pts, 0, segments);
    if segments.len() > 0 {
        assert(raw_bytes(segments)[0] == segments[0].segment_type.byte());
    }
}

/// A block that holds segments with full headers is read as them, with their own
/// times.
pub proof fn full_block_is_read(segments: Seq<SegmentView>, pts: u64)
    requires
        segments.len() > 0,
        forall|i: int| 0 <= i < segments.len() ==> segment_fits(#[trigger] segments[i]),
    ensures
        block_segments(segments_bytes(segments), pts) == segments,
{
    lemma_full(segments);
    lemma_segments_prepend(segments);
    assert(segment_fits(segments[0]));
    assert(segments_bytes(segments)[0] == 0x50 && segments_bytes(segments)[1] == 0x47);
}

proof fn lemma_full(segments: Seq<SegmentView>)
    requires
        forall|i: int| 0 <= i < segments.len() ==> segment_fits(#[trigger] segments[i]),
    ensures
        full_segments(segments_bytes(segments)) == segments,
    decreases segments.len(),
{
    let data = segments_bytes(segments);
    if segments.len() == 0 {
        assert(segments =~= Seq::<SegmentView>::empty());
    } else {
        let rest = segments.skip(1);
        let one = segment_bytes(segments[0]);
        assert(segment_fits(segments[0]));
        lemma_segments_prepend(segments);
        assert(data == one + segments_bytes(rest));
        segment_parse_of_bytes(segments[0], segments_bytes(rest));
        assert(data.skip(one.len() as int) =~= segments_bytes(rest));
        assert forall|i: int| 0 <= i < rest.len() implies segment_fits(#[trigger] rest[i]) by {
            assert(rest[i] == segments[i + 1]);
        }
        lemma_full(rest);
        assert(seq![segments[0]] + rest =~= segments);
    }
}

/// Whether data is what a track's blocks hold for content: the content itself,
/// what is left of it behind a prefix that the track strips, or a zlib stream of
/// it.
pub open spec fn holds_content(
    data: Seq<u8>,
    compression: Map<u64, CompressionView>,
    track: u64,
    content: Seq<u8>,
) -> bool {
    if !compression.contains_key(track) {
        data == content
    } else {
        match compression[track] {
            CompressionView::HeaderStripping(prefix) => prefix + data == content,
            CompressionView::Zlib => zlib_inflated(data) == Some(content),
        }
    }
}

/// Whether each of the slots is for another track.
pub open spec fn slots_differ(slots: Seq<SlotView>) -> bool {
    forall|i: int, j: int|
        0 <= i < j < slots.len() ==> (#[trigger] slots[i]).number != (#[trigger] slots[j]).number
}

/// A display set as a track of a Matroska file gives it.
pub open spec fn given(slot: SlotView, segments: Seq<SegmentView>) -> TrackSetView {
    TrackSetView {
        track_id: (slot.number % 0x1_0000_0000) as u32,
        language: slot.language,
        container: ContainerFormat::Matroska,
        display_set: set_of(segments),
    }
}

/// Whether a block holds a display set of bare segments for one of the slots.
pub open spec fn is_set_block(
    slots: Seq<SlotView>,
    compression: Map<u64, CompressionView>,
    scale: u64,
    b: BlockView,
    home: int,
    segments: Seq<SegmentView>,
) -> bool {
    &&& 0 <= home < slots.len()
    &&& slots[home].number == b.track_number
    &&& is_set(segments)
    &&& forall|i: int|
        0 <= i < segments.len() ==> (#[trigger] segments[i]).pts == pts_of(b.timestamp, scale)
            && segments[i].dts == 0 && segments[i].payload.len() < 0x1_0000
    &&& holds_content(b.data, compression, b.track_number, raw_bytes(segments))
}

spec fn same_tracks(a: Seq<SlotView>, b: Seq<SlotView>) -> bool {
    &&& a.len() == b.len()
    &&& forall|i: int|
        0 <= i < a.len() ==> (#[trigger] a[i]).number == b[i].number && a[i].language
            == b[i].language
}

/// A block that holds a display set gives it, and no other: with its track, the
/// track's language, and the block's time. The other tracks are left alone.
pub proof fn block_gives_its_set(
    slots: Seq<SlotView>,
    compression: Map<u64, CompressionView>,
    scale: u64,
    b: BlockView,
    home: int,
    segments: Seq<SegmentView>,
)
    requires
        slots_differ(slots),
        is_set_block(slots, compression, scale, b, home, segments),
    ensures
        block_effect(slots, compression, scale, b).1 == seq![given(slots[home], segments)],
        block_effect(slots, compression, scale, b).0.len() == slots.len(),
        forall|i: int|
            0 <= i < slots.len() && i != home ==> #[trigger] block_effect(
                slots,
                compression,
                scale,
                b,
            ).0[i] == slots[i],
        block_effect(slots, compression, scale, b).0[home].number == slots[home].number,
        block_effect(slots, compression, scale, b).0[home].language == slots[home].language,
{
    let pts = pts_of(b.timestamp, scale);
    assert forall|j: int| 0 <= j < home implies (#[trigger] slots[j]).number != b.track_number by {
        assert(slots[j].number != slots[home].number);
    }
    lemma_slot_index(slots, b.track_number, home);
    bare_block_is_read(segments, pts);
    segments_make_their_set(slots[home].assembler, segments);
    assert(decoded_data(
        b.data,
        crate::mkv::assemblers::compression_for(compression, b.track_number),
    ) == Some(raw_bytes(segments)));
    assert(block_effect(slots, compression, scale, b).1 =~= seq![given(slots[home], segments)]);
}

/// Blocks that hold display sets give them, in order, each once.
pub proof fn blocks_give_their_sets(
    slots: Seq<SlotView>,
    compression: Map<u64, CompressionView>,
    scale: u64,
    blocks: Seq<BlockView>,
    homes: Seq<int>,
    sets: Seq<Seq<SegmentView>>,
)
    requires
        slots_differ(slots),
        blocks.len() == homes.len(),
        blocks.len() == sets.len(),
        forall|i: int|
            0 <= i < blocks.len() ==> is_set_block(
                slots,
                compression,
                scale,
                #[trigger] blocks[i],
                homes[i],
                sets[i],
            ),
    ensures
        blocks_effect(slots, compression, scale, blocks).1 == Seq::new(
            blocks.len(),
            |i: int| given(slots[homes[i]], sets[i]),
        ),
{
    lemma_blocks(slots, compression, scale, blocks, homes, sets);
}

proof fn lemma_blocks(
    slots: Seq<SlotView>,
    compression: Map<u64, CompressionView>,
    scale: u64,
    blocks: Seq<BlockView>,
    homes: Seq<int>,
    sets: Seq<Seq<SegmentView>>,
)
    requires
        slots_differ(slots),
        blocks.len() == homes.len(),
        blocks.len() == sets.len(),
        forall|i: int|
            0 <= i < blocks.len() ==> is_set_block(
                slots,
                compression,
                scale,
                #[trigger] blocks[i],
                homes[i],
                sets[i],
            ),
    ensures
        same_tracks(slots, blocks_effect(slots, compression, scale, blocks).0),
        blocks_effect(slots, compression, scale, blocks).1 == Seq::new(
            blocks.len(),
            |i: int| given(slots[homes[i]], sets[i]),
        ),
    decreases blocks.len(),
{
    let all = Seq::new(blocks.len(), |i: int| given(slots[homes[i]], sets[i]));
    if blocks.len() == 0 {
        assert(blocks_effect(slots, compression, scale, blocks).1 =~= all);
    } else {
        let n = blocks.len() - 1;
        let init = blocks.drop_last();
        assert forall|i: int| 0 <= i < init.len() implies is_set_block(
            slots,
            compression,
            scale,
            #[trigger] init[i],
            homes.drop_last()[i],
            sets.drop_last()[i],
        ) by {
            assert(init[i] == blocks[i]);
        }
        lemma_blocks(slots, compression, scale, init, homes.drop_last(), sets.drop_last());
        let mid = blocks_effect(slots, compression, scale, init).0;
        assert(is_set_block(slots, compression, scale, blocks[n], homes[n], sets[n]));
        assert forall|i: int, j: int| 0 <= i < j < mid.len() implies (#[trigger] mid[i]).number != (
        #[trigger] mid[j]).number by {
            assert(slots[i].number != slots[j].number);
        }
        assert(slots[homes[n]].number == mid[homes[n]].number);
        block_gives_its_set(mid, compression, scale, blocks[n], homes[n], sets[n]);
        let after = block_effect(mid, compression, scale, blocks[n]).0;
        assert forall|i: int| 0 <= i < slots.len() implies (#[trigger] slots[i]).number
            == after[i].number && slots[i].language == after[i].language by {
            if i != homes[n] {
                assert(after[i] == mid[i]);
            }
        }
        assert(blocks_effect(slots, compression, scale, blocks).1 =~= all);
    }
}

} // verus!
