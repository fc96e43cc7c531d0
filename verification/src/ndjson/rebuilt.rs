//! A built display set that is streamed and encoded again stays what it is.
use vstd::prelude::*;
use vstd::utf8::encode_utf8;
use crate::error::ErrorView;
use crate::ndjson::encode::{line_of, LineView};
use crate::ndjson::json::rendered;
use crate::ndjson::lines::{
    display_set_tree, first_composition, object_with_id, objects_of, ObjectView,
};
use crate::ndjson::parse::json_parsed;
use crate::ndjson::plain::display_set_line_is_read_back;
use crate::ndjson::roundtrip::{
    bitmap_of, bitmaps, contents, encode_of_stream, is_drawable, is_parsed, numbered, palettes_at,
    palettes_in, reads_integers, windows_at, windows_in, Reading, EXACT_LIMIT,
};
use crate::pgs::display_set::{
    bitmap_regular, bitmap_segments, built, end_segment_view, first_irregular, fragments,
    fragments_fit, fragments_restore_bitmap, joined_rle, later_fragments, leading_segments,
    object_segments, palette_segments, MAX_SEGMENT_PAYLOAD, ODS_CONT_HEADER, ODS_FIRST_HEADER,
    BitmapView, BuilderView,
};
use crate::pgs::payload::{
    ods_bytes, ods_parse_of_bytes, ods_parsed, ods_regular, pcs_bytes, pcs_parse_of_bytes,
    pds_parse_of_bytes, wds_parse_of_bytes, OdsView, PdsView, WindowDefinition,
};
use crate::pgs::rle::encoded_rows;
use crate::pgs::segment::SegmentView;

verus! {

/// A fragment as it is parsed back: a data length keeps its low three bytes.
pub open spec fn kept(v: OdsView) -> OdsView {
    if v.sequence is First {
        OdsView { data_length: (v.data_length % 0x100_0000) as u32, ..v }
    } else {
        v
    }
}

/// The fragments of a bitmap.
pub open spec fn parts(b: BitmapView) -> Seq<OdsView> {
    fragments(b, encoded_rows(b.pixels, b.width as nat))
}

proof fn lemma_later_parts(id: u16, version: u8, rle: Seq<u8>)
    ensures
        forall|i: int|
            0 <= i < later_fragments(id, version, rle).len() ==> {
                let v = #[trigger] later_fragments(id, version, rle)[i];
                v.id == id && ods_regular(v) && !(v.sequence is First)
            },
    decreases rle.len(),
{
    let room = MAX_SEGMENT_PAYLOAD - ODS_CONT_HEADER;
    if rle.len() > room {
        let all = later_fragments(id, version, rle);
        let tail = later_fragments(id, version, rle.skip(room));
        lemma_later_parts(id, version, rle.skip(room));
        assert forall|i: int| 0 <= i < all.len() implies {
            let v = #[trigger] all[i];
            v.id == id && ods_regular(v) && !(v.sequence is First)
        } by {
            if i > 0 {
                assert(all[i] == tail[i - 1]);
            }
        }
    }
}

proof fn lemma_part(b: BitmapView, i: int)
    requires
        0 <= i < parts(b).len(),
    ensures
        ods_parsed(ods_bytes(parts(b)[i])) == Some(kept(parts(b)[i])),
        parts(b)[i].id == b.id,
{
    let rle = encoded_rows(b.pixels, b.width as nat);
    let room = MAX_SEGMENT_PAYLOAD - ODS_FIRST_HEADER;
    let all = parts(b);
    let v = all[i];
    if i > 0 {
        lemma_later_parts(b.id, b.version, rle.skip(room));
        assert(v == later_fragments(b.id, b.version, rle.skip(room))[i - 1]);
    }
    let k = kept(v);
    assert(ods_bytes(v) == ods_bytes(k));
    ods_parse_of_bytes(k);
}

/// The bitmap data of fragments, the last one at the end.
pub open spec fn gathered_rle(fs: Seq<OdsView>) -> Seq<u8>
    decreases fs.len(),
{
    if fs.len() == 0 {
        Seq::empty()
    } else {
        gathered_rle(fs.drop_last()) + fs.last().rle_data
    }
}

/// The payloads of fragments, the last one at the end.
pub open spec fn gathered_payload(fs: Seq<OdsView>) -> Seq<u8>
    decreases fs.len(),
{
    if fs.len() == 0 {
        Seq::empty()
    } else {
        gathered_payload(fs.drop_last()) + ods_bytes(fs.last())
    }
}

proof fn lemma_gathered(fs: Seq<OdsView>, k: int)
    requires
        0 <= k <= fs.len(),
    ensures
        gathered_rle(fs) == gathered_rle(fs.take(k)) + joined_rle(fs.skip(k)),
    decreases fs.len() - k,
{
    if k == fs.len() {
        assert(fs.take(k) =~= fs);
        assert(gathered_rle(fs) + joined_rle(fs.skip(k)) =~= gathered_rle(fs));
    } else {
        lemma_gathered(fs, k + 1);
        assert(fs.take(k + 1).drop_last() =~= fs.take(k));
        assert(fs.skip(k).skip(1) =~= fs.skip(k + 1));
        assert(gathered_rle(fs.take(k)) + joined_rle(fs.skip(k)) =~= gathered_rle(fs.take(k + 1))
            + joined_rle(fs.skip(k + 1)));
    }
}

/// The object that fragments are put together to.
pub open spec fn assembled(fs: Seq<OdsView>) -> ObjectView {
    ObjectView {
        first: Some(kept(fs[0])),
        reassembled: fs.len() > 1,
        rle: gathered_rle(fs),
        payload: gathered_payload(fs),
    }
}

proof fn lemma_no_object(objects: Seq<ObjectView>, id: u16, i: int)
    requires
        0 <= i,
        forall|j: int|
            i <= j < objects.len() ==> ((#[trigger] objects[j]).first matches Some(f) ==> f.id
                != id),
    ensures
        object_with_id(objects, id, i) is None,
    decreases objects.len() - i,
{
    if i < objects.len() {
        assert(objects[i].first matches Some(f) ==> f.id != id);
        lemma_no_object(objects, id, i + 1);
    }
}

proof fn lemma_last_object(objects: Seq<ObjectView>, id: u16, i: int)
    requires
        0 <= i < objects.len(),
        forall|j: int|
            i <= j < objects.len() - 1 ==> ((#[trigger] objects[j]).first matches Some(f) ==> f.id
                != id),
        objects.last().first matches Some(f) && f.id == id,
    ensures
        object_with_id(objects, id, i) == Some(objects.len() - 1),
    decreases objects.len() - i,
{
    if i < objects.len() - 1 {
        assert(objects[i].first matches Some(f) ==> f.id != id);
        lemma_last_object(objects, id, i + 1);
    }
}

proof fn lemma_fragments_gathered(
    before: Seq<SegmentView>,
    pts: u64,
    dts: u64,
    b: BitmapView,
    k: int,
    raw: bool,
)
    requires
        0 < k <= parts(b).len(),
        forall|j: int|
            0 <= j < objects_of(before, raw).len() ==> ((#[trigger] objects_of(
                before,
                raw,
            )[j]).first matches Some(f) ==> f.id != b.id),
    ensures
        objects_of(before + bitmap_segments(pts, dts, b).take(k), raw) == objects_of(
            before,
            raw,
        ).push(assembled(parts(b).take(k))),
    decreases k,
{
    let all = bitmap_segments(pts, dts, b);
    let old_objects = objects_of(before, raw);
    let segments = before + all.take(k);
    let s = all[k - 1];
    let fs = parts(b).take(k);
    assert(segments.last() == s);
    assert(segments.drop_last() =~= before + all.take(k - 1));
    lemma_part(b, k - 1);
    lemma_part(b, 0);
    assert(s.payload == ods_bytes(parts(b)[k - 1]));
    assert(fs.drop_last() =~= parts(b).take(k - 1));
    if k == 1 {
        assert(before + all.take(0) =~= before);
        lemma_no_object(old_objects, b.id, 0);
        assert(gathered_rle(fs.drop_last()) =~= Seq::empty());
        assert(gathered_payload(fs.drop_last()) =~= Seq::empty());
        assert(gathered_rle(fs) =~= fs[0].rle_data);
        assert(gathered_payload(fs) =~= ods_bytes(fs[0]));
        assert(objects_of(segments, raw) =~= old_objects.push(assembled(fs)));
    } else {
        lemma_fragments_gathered(before, pts, dts, b, k - 1, raw);
        let some = old_objects.push(assembled(parts(b).take(k - 1)));
        assert forall|j: int| 0 <= j < some.len() - 1 implies ((#[trigger] some[j]).first
            matches Some(f) ==> f.id != b.id) by {
            assert(some[j] == old_objects[j]);
        }
        lemma_last_object(some, b.id, 0);
        assert(objects_of(segments, raw) =~= old_objects.push(assembled(fs)));
    }
}

/// Whether no two bitmaps have the same identifier.
pub open spec fn distinct_ids(objects: Seq<BitmapView>) -> bool {
    forall|i: int, j: int|
        0 <= i < j < objects.len() ==> (#[trigger] objects[i]).id != (#[trigger] objects[j]).id
}

proof fn lemma_objects_gathered(
    before: Seq<SegmentView>,
    pts: u64,
    dts: u64,
    objects: Seq<BitmapView>,
    raw: bool,
)
    requires
        objects_of(before, raw) == Seq::<ObjectView>::empty(),
        distinct_ids(objects),
    ensures
        objects_of(before + object_segments(pts, dts, objects), raw) == Seq::new(
            objects.len(),
            |i: int| assembled(parts(objects[i])),
        ),
    decreases objects.len(),
{
    let goal = Seq::new(objects.len(), |i: int| assembled(parts(objects[i])));
    if objects.len() == 0 {
        assert(before + object_segments(pts, dts, objects) =~= before);
        assert(goal =~= Seq::empty());
    } else {
        let fewer = objects.drop_last();
        let b = objects.last();
        assert forall|i: int, j: int| 0 <= i < j < fewer.len() implies (#[trigger] fewer[i]).id != (
        #[trigger] fewer[j]).id by {
            assert(fewer[i] == objects[i] && fewer[j] == objects[j]);
        }
        lemma_objects_gathered(before, pts, dts, fewer, raw);
        let some = Seq::new(fewer.len(), |i: int| assembled(parts(fewer[i])));
        let first = before + object_segments(pts, dts, fewer);
        assert forall|j: int| 0 <= j < some.len() implies ((#[trigger] some[j]).first matches Some(
            f,
        ) ==> f.id != b.id) by {
            let rle = encoded_rows(fewer[j].pixels, fewer[j].width as nat);
            fragments_fit(fewer[j], rle);
            lemma_part(fewer[j], 0);
            assert(objects[j].id != objects[objects.len() - 1].id);
        }
        let all = bitmap_segments(pts, dts, b);
        fragments_fit(b, encoded_rows(b.pixels, b.width as nat));
        lemma_fragments_gathered(first, pts, dts, b, parts(b).len() as int, raw);
        assert(all.take(parts(b).len() as int) =~= all);
        assert(parts(b).take(parts(b).len() as int) =~= parts(b));
        assert(before + object_segments(pts, dts, objects) =~= first + all);
        assert(some.push(assembled(parts(b))) =~= goal);
    }
}

proof fn lemma_others_ignored(before: Seq<SegmentView>, others: Seq<SegmentView>, raw: bool)
    requires
        forall|i: int|
            0 <= i < others.len() ==> !((#[trigger] others[i]).segment_type is ObjectDefinition),
    ensures
        objects_of(before + others, raw) == objects_of(before, raw),
    decreases others.len(),
{
    if others.len() == 0 {
        assert(before + others =~= before);
    } else {
        lemma_others_ignored(before, others.drop_last(), raw);
        assert((before + others).drop_last() =~= before + others.drop_last());
        assert(others.last() == others[others.len() - 1]);
    }
}

proof fn lemma_windows_append(a: Seq<SegmentView>, b: Seq<SegmentView>)
    ensures
        windows_in(a + b) == windows_in(a) + windows_in(b),
        palettes_in(a + b) == palettes_in(a) + palettes_in(b),
    decreases b.len(),
{
    if b.len() == 0 {
        assert(a + b =~= a);
        assert(windows_in(a) + windows_in(b) =~= windows_in(a));
        assert(palettes_in(a) + palettes_in(b) =~= palettes_in(a));
    } else {
        lemma_windows_append(a, b.drop_last());
        assert((a + b).drop_last() =~= a + b.drop_last());
        assert(windows_in(a + b) =~= windows_in(a) + windows_in(b));
        assert(palettes_in(a + b) =~= palettes_in(a) + palettes_in(b));
    }
}

proof fn lemma_no_windows(segments: Seq<SegmentView>)
    requires
        forall|i: int|
            0 <= i < segments.len() ==> !((#[trigger] segments[i]).segment_type
                is WindowDefinition),
    ensures
        windows_in(segments) == Seq::<WindowDefinition>::empty(),
    decreases segments.len(),
{
    if segments.len() > 0 {
        lemma_no_windows(segments.drop_last());
        assert(segments.last() == segments[segments.len() - 1]);
        assert(windows_in(segments) =~= Seq::empty());
    }
}

proof fn lemma_no_palettes(segments: Seq<SegmentView>)
    requires
        forall|i: int|
            0 <= i < segments.len() ==> !((#[trigger] segments[i]).segment_type
                is PaletteDefinition),
    ensures
        palettes_in(segments) == Seq::<PdsView>::empty(),
    decreases segments.len(),
{
    if segments.len() > 0 {
        lemma_no_palettes(segments.drop_last());
        assert(segments.last() == segments[segments.len() - 1]);
        assert(palettes_in(segments) =~= Seq::empty());
    }
}

proof fn lemma_palettes(pts: u64, dts: u64, palettes: Seq<PdsView>)
    ensures
        palettes_in(palette_segments(pts, dts, palettes)) == palettes,
    decreases palettes.len(),
{
    let all = palette_segments(pts, dts, palettes);
    if palettes.len() == 0 {
        assert(palettes =~= Seq::empty());
    } else {
        lemma_palettes(pts, dts, palettes.drop_last());
        assert(all.drop_last() =~= palette_segments(pts, dts, palettes.drop_last()));
        pds_parse_of_bytes(palettes.last());
        assert(palettes_at(all.last()) == seq![palettes.last()]);
        assert(palettes_in(all) =~= palettes);
    }
}

proof fn lemma_object_types(pts: u64, dts: u64, objects: Seq<BitmapView>)
    ensures
        forall|i: int|
            0 <= i < object_segments(pts, dts, objects).len() ==> (#[trigger] object_segments(
                pts,
                dts,
                objects,
            )[i]).segment_type is ObjectDefinition,
    decreases objects.len(),
{
    if objects.len() > 0 {
        lemma_object_types(pts, dts, objects.drop_last());
        let before = object_segments(pts, dts, objects.drop_last());
        let all = object_segments(pts, dts, objects);
        assert forall|i: int| 0 <= i < all.len() implies (#[trigger] all[i]).segment_type
            is ObjectDefinition by {
            if i < before.len() {
                assert(all[i] == before[i]);
            } else {
                assert(all[i] == bitmap_segments(pts, dts, objects.last())[i - before.len()]);
            }
        }
    }
}

proof fn lemma_irregular(objects: Seq<BitmapView>, i: int)
    requires
        first_irregular(objects) is None,
        0 <= i < objects.len(),
    ensures
        bitmap_regular(objects[i]),
    decreases objects.len(),
{
    if i > 0 {
        lemma_irregular(objects.skip(1), i - 1);
    }
}

proof fn lemma_leading_windows(b: BuilderView)
    requires
        b.pcs is Some,
        b.wds matches Some(windows) ==> 0 < windows.len() <= 255,
    ensures
        windows_in(leading_segments(b.pts, b.dts, b.pcs->0, b.wds)) == match b.wds {
            Some(windows) => windows,
            None => Seq::empty(),
        },
{
    let leading = leading_segments(b.pts, b.dts, b.pcs->0, b.wds);
    match b.wds {
        Some(windows) => {
            wds_parse_of_bytes(windows);
            let first = leading.drop_last();
            lemma_no_windows(first);
            assert(windows_at(leading.last()) == windows);
            assert(windows_in(leading) =~= windows);
        },
        None => {
            lemma_no_windows(leading);
        },
    }
}

proof fn lemma_tables(b: BuilderView)
    requires
        built(b) is Ok,
        b.wds matches Some(windows) ==> 0 < windows.len() <= 255,
    ensures
        windows_in(built(b)->Ok_0.segments) == match b.wds {
            Some(windows) => windows,
            None => Seq::empty(),
        },
        palettes_in(built(b)->Ok_0.segments) == b.palettes,
{
    let leading = leading_segments(b.pts, b.dts, b.pcs->0, b.wds);
    let palettes = palette_segments(b.pts, b.dts, b.palettes);
    let objects = object_segments(b.pts, b.dts, b.objects);
    let end = seq![end_segment_view(b.pts, b.dts)];
    lemma_object_types(b.pts, b.dts, b.objects);
    let all = leading + palettes + objects + end;
    assert(built(b)->Ok_0.segments =~= all);
    lemma_windows_append(leading + palettes + objects, end);
    lemma_windows_append(leading + palettes, objects);
    lemma_windows_append(leading, palettes);
    lemma_no_windows(palettes);
    lemma_no_windows(objects);
    lemma_no_windows(end);
    lemma_no_palettes(leading);
    lemma_no_palettes(objects);
    lemma_no_palettes(end);
    lemma_palettes(b.pts, b.dts, b.palettes);
    lemma_leading_windows(b);
    assert(palettes_in(all) =~= b.palettes);
    assert(windows_in(all) =~= windows_in(leading));
}

proof fn lemma_built_parsed(b: BuilderView, i: int)
    requires
        built(b) is Ok,
        b.wds matches Some(windows) ==> 0 < windows.len() <= 255,
        0 <= i < built(b)->Ok_0.segments.len(),
    ensures
        is_parsed(built(b)->Ok_0.segments[i]),
{
    let all = built(b)->Ok_0.segments;
    let leading = leading_segments(b.pts, b.dts, b.pcs->0, b.wds);
    let palettes = palette_segments(b.pts, b.dts, b.palettes);
    let objects = object_segments(b.pts, b.dts, b.objects);
    if i < leading.len() {
        assert(all[i] == leading[i]);
        if let Some(windows) = b.wds {
            wds_parse_of_bytes(windows);
        }
    } else if i < leading.len() + palettes.len() {
        let k = i - leading.len();
        assert(all[i] == palettes[k]);
        pds_parse_of_bytes(b.palettes[k]);
    } else if i < leading.len() + palettes.len() + objects.len() {
        lemma_object_types(b.pts, b.dts, b.objects);
        assert(all[i] == objects[i - leading.len() - palettes.len()]);
    }
}

proof fn lemma_built_objects(b: BuilderView, raw: bool)
    requires
        built(b) is Ok,
        distinct_ids(b.objects),
    ensures
        objects_of(built(b)->Ok_0.segments, raw) == Seq::new(
            b.objects.len(),
            |i: int| assembled(parts(b.objects[i])),
        ),
{
    let leading = leading_segments(b.pts, b.dts, b.pcs->0, b.wds);
    let palettes = palette_segments(b.pts, b.dts, b.palettes);
    let objects = object_segments(b.pts, b.dts, b.objects);
    let end = seq![end_segment_view(b.pts, b.dts)];
    let all = leading + palettes + objects + end;
    assert(built(b)->Ok_0.segments =~= all);
    let none = Seq::<SegmentView>::empty();
    let tables = leading + palettes;
    assert forall|i: int| 0 <= i < tables.len() implies !((#[trigger] tables[i]).segment_type
        is ObjectDefinition) by {
        if i < leading.len() {
            assert(tables[i] == leading[i]);
        } else {
            assert(tables[i] == palettes[i - leading.len()]);
        }
    }
    lemma_others_ignored(none, tables, raw);
    assert(none + tables =~= tables);
    lemma_objects_gathered(tables, b.pts, b.dts, b.objects, raw);
    lemma_others_ignored(tables + objects, end, raw);
}

proof fn lemma_assembled(o: BitmapView)
    requires
        bitmap_regular(o),
    ensures
        is_drawable(assembled(parts(o))),
        bitmap_of(assembled(parts(o))) == o,
{
    fragments_restore_bitmap(o);
    fragments_fit(o, encoded_rows(o.pixels, o.width as nat));
    lemma_gathered(parts(o), 0);
    assert(parts(o).take(0) =~= Seq::empty());
    assert(parts(o).skip(0) =~= parts(o));
    assert(gathered_rle(parts(o)) =~= joined_rle(parts(o)));
}

/// What a built display set's segments say is what it was built from.
proof fn lemma_contents(b: BuilderView, raw: bool)
    requires
        built(b) is Ok,
        b.dts == 0,
        b.wds matches Some(windows) ==> 0 < windows.len() <= 255,
        distinct_ids(b.objects),
    ensures
        contents(built(b)->Ok_0, b.pcs->0, raw) == b,
        first_composition(built(b)->Ok_0.segments) == Some(built(b)->Ok_0.segments[0]),
        built(b)->Ok_0.segments[0].payload == pcs_bytes(b.pcs->0),
        forall|i: int|
            0 <= i < objects_of(built(b)->Ok_0.segments, raw).len() ==> is_drawable(
                #[trigger] objects_of(built(b)->Ok_0.segments, raw)[i],
            ),
{
    let ds = built(b)->Ok_0;
    let leading = leading_segments(b.pts, b.dts, b.pcs->0, b.wds);
    assert(ds.segments[0] == leading[0]);
    lemma_tables(b);
    lemma_built_objects(b, raw);
    let found = objects_of(ds.segments, raw);
    assert forall|i: int| 0 <= i < b.objects.len() implies is_drawable(#[trigger] found[i])
        && bitmap_of(found[i]) == b.objects[i] by {
        lemma_irregular(b.objects, i);
        lemma_assembled(b.objects[i]);
    }
    assert(bitmaps(found) =~= b.objects);
    assert(contents(ds, b.pcs->0, raw) =~= b);
}

/// A display set that was built, streamed and encoded again is the same display
/// set of the same track.
///
/// It has no decoding timestamp, its windows are not an empty list, its lists
/// are no longer than their counts can say, no two of its bitmaps have the same
/// identifier, and its timestamp is within the limit.
pub proof fn stream_then_encode_is_identity(
    track_id: u32,
    index: u64,
    b: BuilderView,
    raw: bool,
    line: u64,
    f: Reading,
)
    requires
        reads_integers(f),
        built(b) is Ok,
        b.pts <= EXACT_LIMIT,
        b.dts == 0,
        b.pcs->0.objects.len() <= 255,
        b.wds matches Some(windows) ==> 0 < windows.len() <= 255,
        distinct_ids(b.objects),
    ensures
        line_of(numbered(display_set_tree(track_id, index, built(b)->Ok_0, raw), f), line) == Ok::<
            LineView,
            ErrorView,
        >(LineView::Described(track_id as u64, built(b)->Ok_0)),
{
    lemma_contents(b, raw);
    let segments = built(b)->Ok_0.segments;
    assert forall|i: int| 0 <= i < segments.len() implies is_parsed(#[trigger] segments[i]) by {
        lemma_built_parsed(b, i);
    }
    pcs_parse_of_bytes(b.pcs->0);
    encode_of_stream(track_id, index, built(b)->Ok_0, b.pcs->0, raw, line, f);
}

/// The text of the line for a built display set is read and encoded as that
/// display set, of the same track, under the same conditions.
pub proof fn streamed_text_is_encoded_unchanged(
    track_id: u32,
    index: u64,
    b: BuilderView,
    raw: bool,
    line: u64,
    f: Reading,
)
    requires
        reads_integers(f),
        built(b) is Ok,
        b.pts <= EXACT_LIMIT,
        b.dts == 0,
        b.pcs->0.objects.len() <= 255,
        b.wds matches Some(windows) ==> 0 < windows.len() <= 255,
        distinct_ids(b.objects),
    ensures
        json_parsed(
            encode_utf8(rendered(display_set_tree(track_id, index, built(b)->Ok_0, raw))),
        ) matches Ok(t) && line_of(numbered(t, f), line) == Ok::<LineView, ErrorView>(
            LineView::Described(track_id as u64, built(b)->Ok_0),
        ),
{
    display_set_line_is_read_back(track_id, index, built(b)->Ok_0, raw);
    stream_then_encode_is_identity(track_id, index, b, raw, line, f);
}

} // verus!
