//! What a built display set consists of, and what makes none.
use vstd::prelude::*;
use crate::pgs::display_set::{
    bitmap_regular, built, first_irregular, fresh_assembler, leading_segments,
    lemma_object_segments, object_segments, palette_segments, pushed_all, AssemblerView, BitmapView,
    BuilderView,
};
use crate::pgs::payload::{
    pcs_parse_of_bytes, pcs_parsed, pds_parse_of_bytes, pds_parsed, wds_parse_of_bytes, wds_parsed,
};
use crate::pgs::segment::SegmentView;

verus! {

/// A built display set has the builder's times on all its segments: its
/// composition, its windows if it has any, each of its palettes, then objects, and
/// the end.
pub proof fn built_segments_are_in_order(b: BuilderView, i: int)
    requires
        built(b) is Ok,
        b.pcs->0.objects.len() <= 255,
        b.wds matches Some(w) ==> w.len() <= 255,
        0 <= i < built(b)->Ok_0.segments.len(),
    ensures
        ({
            let ds = built(b)->Ok_0;
            let all = ds.segments;
            let front = if b.wds is Some {
                2int
            } else {
                1
            };
            &&& ds.pts == b.pts
            &&& ds.composition_state == b.pcs->0.composition_state
            &&& all[i].pts == b.pts
            &&& all[i].dts == b.dts
            &&& all.len() >= front + b.palettes.len() + 1
            &&& all[0].segment_type is PresentationComposition
            &&& pcs_parsed(all[0].payload) == Some(b.pcs->0)
            &&& b.wds matches Some(w) ==> all[1].segment_type is WindowDefinition && wds_parsed(
                all[1].payload,
            ) == Some(w)
            &&& front <= i < front + b.palettes.len() ==> all[i].segment_type is PaletteDefinition
                && pds_parsed(all[i].payload) == Some(b.palettes[i - front])
            &&& front + b.palettes.len() <= i < all.len() - 1
                ==> all[i].segment_type is ObjectDefinition
            &&& all.last().segment_type is EndOfDisplaySet
            &&& all.last().payload.len() == 0
        }),
{
    let all = built(b)->Ok_0.segments;
    let pcs = b.pcs->0;
    let leading = leading_segments(b.pts, b.dts, pcs, b.wds);
    let palettes = palette_segments(b.pts, b.dts, b.palettes);
    let objects = object_segments(b.pts, b.dts, b.objects);
    lemma_object_segments(b.pts, b.dts, b.objects);
    lemma_object_times(b.pts, b.dts, b.objects);
    pcs_parse_of_bytes(pcs);
    if b.wds is Some {
        wds_parse_of_bytes(b.wds->0);
    }
    let front = leading.len();
    if front <= i < front + palettes.len() {
        pds_parse_of_bytes(b.palettes[i - front]);
        assert(all[i] == palettes[i - front]);
    } else if front + palettes.len() <= i < all.len() - 1 {
        assert(all[i] == objects[i - front - palettes.len()]);
    } else if i < front {
        assert(all[i] == leading[i]);
    }
    assert(all[0] == leading[0]);
    if b.wds is Some {
        assert(all[1] == leading[1]);
    }
}

proof fn lemma_object_times(pts: u64, dts: u64, objects: Seq<BitmapView>)
    ensures
        forall|i: int|
            0 <= i < object_segments(pts, dts, objects).len() ==> (#[trigger] object_segments(
                pts,
                dts,
                objects,
            )[i]).pts == pts && object_segments(pts, dts, objects)[i].dts == dts
                && object_segments(pts, dts, objects)[i].segment_type is ObjectDefinition,
    decreases objects.len(),
{
    if objects.len() > 0 {
        lemma_object_times(pts, dts, objects.drop_last());
    }
}

/// A display set is built exactly if there is a composition, and every bitmap has as
/// many pixels as its width and height say.
pub proof fn built_needs_composition_and_pixels(b: BuilderView)
    ensures
        built(b) is Ok <==> b.pcs is Some && forall|i: int|
            0 <= i < b.objects.len() ==> (#[trigger] b.objects[i]).pixels.len()
                == b.objects[i].width * b.objects[i].height,
{
    lemma_irregular(b.objects);
}

proof fn lemma_irregular(objects: Seq<BitmapView>)
    ensures
        first_irregular(objects) is None <==> forall|i: int|
            0 <= i < objects.len() ==> (#[trigger] objects[i]).pixels.len() == objects[i].width
                * objects[i].height,
    decreases objects.len(),
{
    if objects.len() > 0 {
        let rest = objects.skip(1);
        lemma_irregular(rest);
        if bitmap_regular(objects[0]) {
            if first_irregular(rest) is None {
                assert forall|i: int| 0 <= i < objects.len() implies (
                #[trigger] objects[i]).pixels.len() == objects[i].width * objects[i].height by {
                    if i > 0 {
                        assert(rest[i - 1] == objects[i]);
                    }
                }
            } else {
                let i = choose|i: int|
                    0 <= i < rest.len() && (#[trigger] rest[i]).pixels.len() != rest[i].width
                        * rest[i].height;
                assert(objects[i + 1] == rest[i]);
            }
        }
    }
}

/// Segments without a composition make no display set.
pub proof fn without_composition_there_is_no_set(segments: Seq<SegmentView>)
    requires
        forall|i: int|
            0 <= i < segments.len() ==> !((#[trigger] segments[i]).segment_type
                is PresentationComposition),
    ensures
        pushed_all(fresh_assembler(), segments).1.len() == 0,
        pushed_all(fresh_assembler(), segments).0.state is None,
    decreases segments.len(),
{
    if segments.len() > 0 {
        assert(!(segments[segments.len() - 1].segment_type is PresentationComposition));
        without_composition_there_is_no_set(segments.drop_last());
    }
}

/// Segments without an end make no display set.
pub proof fn without_end_there_is_no_set(a: AssemblerView, segments: Seq<SegmentView>)
    requires
        forall|i: int|
            0 <= i < segments.len() ==> !((#[trigger] segments[i]).segment_type
                is EndOfDisplaySet),
    ensures
        pushed_all(a, segments).1.len() == 0,
    decreases segments.len(),
{
    if segments.len() > 0 {
        assert(!(segments[segments.len() - 1].segment_type is EndOfDisplaySet));
        without_end_there_is_no_set(a, segments.drop_last());
    }
}

} // verus!
