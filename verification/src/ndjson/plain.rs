//! The lines that are written can be read.
use vstd::prelude::*;
use vstd::utf8::{encode_utf8, is_ascii_chars};
use crate::ndjson::base64::{ascii_bytes, base64_text_is_ascii};
use crate::error::ErrorView;
use crate::ndjson::encode::{line_of, LineView};
use crate::ndjson::identity::{
    as_read, ascii_is_read_as_it_is, is_plain, is_regular, items_are_plain, items_are_regular,
    json_parse_of_rendered, pairs_are_plain, pairs_are_regular, pairs_as_read,
    plain_is_read_as_it_is,
};
use crate::ndjson::json::{field, rendered, Json, Number};
use crate::ndjson::lines::{
    all_object_trees, all_palette_trees, all_window_trees, bitmap_tree, composition_fields,
    composition_tree, crop_tree, display_set_tree, entry_tree, first_composition, milliseconds,
    no_composition_fields, no_object_fields, no_palette_fields, no_window_fields, number,
    object_fields, object_head_fields, object_tree, objects_of, palette_fields, palette_trees,
    placement_tree, sequence_text, state_text, track_tree, tracks_tree, window_fields, window_trees,
    with_dimension, with_payload, Fields, ObjectView, Tree,
};
use crate::ndjson::parse::{
    digits_end, is_digit_byte, is_number, is_number_byte, json_parsed, past_sign,
};
use crate::ndjson::roundtrip::{numbered, Reading};
use crate::pgs::display_set::DisplaySetView;
use crate::pgs::payload::{
    pcs_parsed, pds_parsed, wds_parsed, CompositionObject, OdsView, PaletteEntry, PcsView, PdsView,
    WindowDefinition,
};
use crate::pgs::rle::decoded;
use crate::pgs::segment::SegmentView;
use crate::text::decimal;
use crate::track::TrackInfoView;

verus! {

spec fn is_digit_text(s: Seq<char>) -> bool {
    forall|i: int| 0 <= i < s.len() ==> '0' <= #[trigger] s[i] <= '9'
}

proof fn lemma_decimal_digits(n: nat)
    ensures
        is_digit_text(decimal(n)),
        decimal(n).len() > 0,
    decreases n,
{
    if n >= 10 {
        lemma_decimal_digits(n / 10);
    }
}

proof fn lemma_digits_end(t: Seq<u8>, i: int, end: int)
    requires
        0 <= i <= end <= t.len(),
        forall|k: int| i <= k < end ==> is_digit_byte(#[trigger] t[k]),
        end < t.len() ==> !is_digit_byte(t[end]),
    ensures
        digits_end(t, i) == end,
    decreases end - i,
{
    if i < end {
        lemma_digits_end(t, i + 1, end);
    }
}

proof fn lemma_number(n: nat)
    ensures
        is_plain(number(n)),
{
    lemma_decimal_digits(n);
    let t = ascii_bytes(decimal(n));
    assert(is_digit_byte(t[0]));
    lemma_digits_end(t, 0, t.len() as int);
    assert forall|i: int| 0 <= i < decimal(n).len() implies is_number_byte(
        #[trigger] decimal(n)[i] as u8,
    ) by {}
}

proof fn lemma_milliseconds(pts: u64)
    ensures
        is_plain(Json::Num(milliseconds(pts))),
{
    let whole = decimal((pts / 90) as nat);
    let m = milliseconds(pts);
    let parts = (pts as int % 90 * 1000 + 4) / 9;
    assert(0 <= parts < 10000);
    lemma_decimal_digits((pts / 90) as nat);
    let t = ascii_bytes(m);
    let n = whole.len() as int;
    assert(m[n] == '.');
    assert forall|i: int| 0 <= i < m.len() && i != n implies '0' <= #[trigger] m[i] <= '9' by {
        if i < n {
            assert(m[i] == whole[i]);
        }
    }
    assert(m[0] == whole[0]);
    assert forall|k: int| 0 <= k < n implies is_digit_byte(#[trigger] t[k]) by {
        assert(t[k] == m[k] as u8);
    }
    lemma_digits_end(t, 0, n);
    assert forall|k: int| n + 1 <= k < t.len() implies is_digit_byte(#[trigger] t[k]) by {
        assert(t[k] == m[k] as u8);
    }
    lemma_digits_end(t, n + 1, t.len() as int);
    assert(past_sign(t, 0) == 0) by {
        assert(is_digit_byte(t[0]));
    }
    assert(t[n] == 46);
    assert(is_number(t));
    assert forall|i: int| 0 <= i < m.len() implies is_number_byte(
        #[trigger] m[i] as u8,
    ) && '\0' <= m[i] <= '\u{7f}' by {}
}

proof fn lemma_pairs(fields: Fields)
    requires
        forall|i: int|
            0 <= i < fields.len() ==> is_ascii_chars((#[trigger] fields[i]).0) && is_plain(
                fields[i].1,
            ),
    ensures
        pairs_are_plain(fields),
    decreases fields.len(),
{
    if fields.len() > 0 {
        assert(is_ascii_chars(fields[0].0) && is_plain(fields[0].1));
        assert forall|i: int| 0 <= i < fields.skip(1).len() implies is_ascii_chars(
            (#[trigger] fields.skip(1)[i]).0,
        ) && is_plain(fields.skip(1)[i].1) by {
            assert(fields.skip(1)[i] == fields[i + 1]);
        }
        lemma_pairs(fields.skip(1));
    }
}

proof fn lemma_items(items: Seq<Tree>)
    requires
        forall|i: int| 0 <= i < items.len() ==> is_plain(#[trigger] items[i]),
    ensures
        items_are_plain(items),
    decreases items.len(),
{
    if items.len() > 0 {
        assert(is_plain(items[0]));
        assert forall|i: int| 0 <= i < items.skip(1).len() implies is_plain(
            #[trigger] items.skip(1)[i],
        ) by {
            assert(items.skip(1)[i] == items[i + 1]);
        }
        lemma_items(items.skip(1));
    }
}

/// Whether the fields have ASCII keys and plain values.
spec fn plain_fields(fields: Fields) -> bool {
    forall|i: int|
        0 <= i < fields.len() ==> is_ascii_chars((#[trigger] fields[i]).0) && is_plain(fields[i].1)
}

proof fn lemma_with_payload(fields: Fields, raw: bool, payload: Seq<u8>)
    requires
        plain_fields(fields),
    ensures
        is_plain(Json::Object(with_payload(fields, raw, payload))),
{
    reveal_strlit("payload");
    base64_text_is_ascii(payload);
    let all = with_payload(fields, raw, payload);
    assert forall|i: int| 0 <= i < all.len() implies is_ascii_chars((#[trigger] all[i]).0)
        && is_plain(all[i].1) by {
        if i < fields.len() {
            assert(all[i] == fields[i]);
        }
    }
    lemma_pairs(all);
}

proof fn lemma_ascii_names()
    ensures
        is_ascii_chars("x"@),
        is_ascii_chars("y"@),
        is_ascii_chars("id"@),
        is_ascii_chars("cr"@),
        is_ascii_chars("cb"@),
        is_ascii_chars("crop"@),
        is_ascii_chars("type"@),
        is_ascii_chars("pts"@),
        is_ascii_chars("index"@),
        is_ascii_chars("state"@),
        is_ascii_chars("alpha"@),
        is_ascii_chars("width"@),
        is_ascii_chars("number"@),
        is_ascii_chars("height"@),
        is_ascii_chars("pts_ms"@),
        is_ascii_chars("bitmap"@),
        is_ascii_chars("version"@),
        is_ascii_chars("entries"@),
        is_ascii_chars("windows"@),
        is_ascii_chars("objects"@),
        is_ascii_chars("sequence"@),
        is_ascii_chars("track_id"@),
        is_ascii_chars("palettes"@),
        is_ascii_chars("object_id"@),
        is_ascii_chars("window_id"@),
        is_ascii_chars("luminance"@),
        is_ascii_chars("palette_id"@),
        is_ascii_chars("composition"@),
        is_ascii_chars("video_width"@),
        is_ascii_chars("data_length"@),
        is_ascii_chars("video_height"@),
        is_ascii_chars("palette_only"@),
        is_ascii_chars("display_set"@),
        is_ascii_chars("normal"@),
        is_ascii_chars("acquisition_point"@),
        is_ascii_chars("epoch_start"@),
        is_ascii_chars("complete"@),
        is_ascii_chars("first"@),
        is_ascii_chars("last"@),
        is_ascii_chars("continuation"@),
        is_ascii_chars("reassembled"@),
{
    reveal_strlit("x");
    reveal_strlit("y");
    reveal_strlit("id");
    reveal_strlit("cr");
    reveal_strlit("cb");
    reveal_strlit("crop");
    reveal_strlit("type");
    reveal_strlit("pts");
    reveal_strlit("index");
    reveal_strlit("state");
    reveal_strlit("alpha");
    reveal_strlit("width");
    reveal_strlit("number");
    reveal_strlit("height");
    reveal_strlit("pts_ms");
    reveal_strlit("bitmap");
    reveal_strlit("version");
    reveal_strlit("entries");
    reveal_strlit("windows");
    reveal_strlit("objects");
    reveal_strlit("sequence");
    reveal_strlit("track_id");
    reveal_strlit("palettes");
    reveal_strlit("object_id");
    reveal_strlit("window_id");
    reveal_strlit("luminance");
    reveal_strlit("palette_id");
    reveal_strlit("composition");
    reveal_strlit("video_width");
    reveal_strlit("data_length");
    reveal_strlit("video_height");
    reveal_strlit("palette_only");
    reveal_strlit("display_set");
    reveal_strlit("normal");
    reveal_strlit("acquisition_point");
    reveal_strlit("epoch_start");
    reveal_strlit("complete");
    reveal_strlit("first");
    reveal_strlit("last");
    reveal_strlit("continuation");
    reveal_strlit("reassembled");
}

proof fn lemma_crop(o: CompositionObject)
    ensures
        is_plain(crop_tree(o.crop)),
{
    if let Some(c) = o.crop {
        lemma_ascii_names();
        lemma_number(c.x as nat);
        lemma_number(c.y as nat);
        lemma_number(c.width as nat);
        lemma_number(c.height as nat);
        lemma_pairs(crop_tree(o.crop)->Object_0);
    }
}

proof fn lemma_placement(o: CompositionObject)
    ensures
        is_plain(placement_tree(o)),
{
    lemma_ascii_names();
    lemma_number(o.object_id as nat);
    lemma_number(o.window_id as nat);
    lemma_number(o.x as nat);
    lemma_number(o.y as nat);
    lemma_crop(o);
    lemma_pairs(placement_tree(o)->Object_0);
}

proof fn lemma_composition(p: PcsView)
    ensures
        plain_fields(composition_fields(p)),
{
    lemma_ascii_names();
    lemma_number(p.composition_number as nat);
    lemma_number(p.video_width as nat);
    lemma_number(p.video_height as nat);
    lemma_number(p.palette_id as nat);
    let items = composition_fields(p)[6].1->Array_0;
    assert forall|i: int| 0 <= i < items.len() implies is_plain(#[trigger] items[i]) by {
        lemma_placement(p.objects[i]);
    }
    lemma_items(items);
    assert(composition_fields(p)[6].1 == Json::Array(items));
    assert(is_ascii_chars(state_text(p.composition_state)));
}

proof fn lemma_composition_tree(segments: Seq<SegmentView>, raw: bool)
    ensures
        is_plain(composition_tree(segments, raw)),
{
    lemma_ascii_names();
    if let Some(s) = first_composition(segments) {
        match pcs_parsed(s.payload) {
            Some(p) => {
                lemma_composition(p);
                lemma_with_payload(composition_fields(p), raw, s.payload);
            },
            None => {
                lemma_with_payload(no_composition_fields(), raw, s.payload);
            },
        }
    }
}

proof fn lemma_window(w: WindowDefinition, raw: bool, payload: Seq<u8>)
    ensures
        is_plain(Json::Object(with_payload(window_fields(w), raw, payload))),
{
    lemma_ascii_names();
    lemma_number(w.id as nat);
    lemma_number(w.x as nat);
    lemma_number(w.y as nat);
    lemma_number(w.width as nat);
    lemma_number(w.height as nat);
    lemma_with_payload(window_fields(w), raw, payload);
}

proof fn lemma_windows(segments: Seq<SegmentView>, raw: bool)
    ensures
        forall|i: int|
            0 <= i < all_window_trees(segments, raw).len() ==> is_plain(
                #[trigger] all_window_trees(segments, raw)[i],
            ),
    decreases segments.len(),
{
    if segments.len() > 0 {
        lemma_windows(segments.drop_last(), raw);
        let before = all_window_trees(segments.drop_last(), raw);
        let s = segments.last();
        let items = window_trees(s, raw);
        lemma_ascii_names();
        assert forall|i: int| 0 <= i < items.len() implies is_plain(#[trigger] items[i]) by {
            match wds_parsed(s.payload) {
                Some(windows) => {
                    lemma_window(windows[i], raw, s.payload);
                },
                None => {
                    lemma_with_payload(no_window_fields(), raw, s.payload);
                },
            }
        }
        let all = all_window_trees(segments, raw);
        assert forall|i: int| 0 <= i < all.len() implies is_plain(#[trigger] all[i]) by {
            if i < before.len() {
                assert(all[i] == before[i]);
            } else {
                assert(all[i] == items[i - before.len()]);
            }
        }
    }
}

proof fn lemma_entry(e: PaletteEntry)
    ensures
        is_plain(entry_tree(e)),
{
    lemma_ascii_names();
    lemma_number(e.id as nat);
    lemma_number(e.luminance as nat);
    lemma_number(e.cr as nat);
    lemma_number(e.cb as nat);
    lemma_number(e.alpha as nat);
    lemma_pairs(entry_tree(e)->Object_0);
}

proof fn lemma_palette(p: PdsView, raw: bool, payload: Seq<u8>)
    ensures
        is_plain(Json::Object(with_payload(palette_fields(p), raw, payload))),
{
    lemma_ascii_names();
    lemma_number(p.id as nat);
    lemma_number(p.version as nat);
    let items = palette_fields(p)[2].1->Array_0;
    assert forall|i: int| 0 <= i < items.len() implies is_plain(#[trigger] items[i]) by {
        lemma_entry(p.entries[i]);
    }
    lemma_items(items);
    assert(palette_fields(p)[2].1 == Json::Array(items));
    lemma_with_payload(palette_fields(p), raw, payload);
}

proof fn lemma_palettes(segments: Seq<SegmentView>, raw: bool)
    ensures
        forall|i: int|
            0 <= i < all_palette_trees(segments, raw).len() ==> is_plain(
                #[trigger] all_palette_trees(segments, raw)[i],
            ),
    decreases segments.len(),
{
    if segments.len() > 0 {
        lemma_palettes(segments.drop_last(), raw);
        let before = all_palette_trees(segments.drop_last(), raw);
        let s = segments.last();
        let items = palette_trees(s, raw);
        lemma_ascii_names();
        assert forall|i: int| 0 <= i < items.len() implies is_plain(#[trigger] items[i]) by {
            match pds_parsed(s.payload) {
                Some(p) => {
                    lemma_palette(p, raw, s.payload);
                },
                None => {
                    lemma_with_payload(no_palette_fields(), raw, s.payload);
                },
            }
        }
        let all = all_palette_trees(segments, raw);
        assert forall|i: int| 0 <= i < all.len() implies is_plain(#[trigger] all[i]) by {
            if i < before.len() {
                assert(all[i] == before[i]);
            } else {
                assert(all[i] == items[i - before.len()]);
            }
        }
    }
}

proof fn lemma_bitmap(f: OdsView, rle: Seq<u8>)
    ensures
        is_plain(bitmap_tree(f, rle)),
{
    if let Json::Str(_) = bitmap_tree(f, rle) {
        base64_text_is_ascii(
            decoded(rle, f.width->0 as nat, f.height->0 as nat)->0,
        );
    }
}

proof fn lemma_dimension(fields: Fields, key: Seq<char>, n: Option<u16>)
    requires
        plain_fields(fields),
        is_ascii_chars(key),
    ensures
        plain_fields(with_dimension(fields, key, n)),
{
    if let Some(v) = n {
        lemma_number(v as nat);
        let all = with_dimension(fields, key, n);
        assert forall|i: int| 0 <= i < all.len() implies is_ascii_chars((#[trigger] all[i]).0)
            && is_plain(all[i].1) by {
            if i < fields.len() {
                assert(all[i] == fields[i]);
            }
        }
    }
}

proof fn lemma_object(o: ObjectView, raw: bool)
    ensures
        is_plain(object_tree(o, raw)),
{
    lemma_ascii_names();
    match o.first {
        Some(f) => {
            lemma_number(f.id as nat);
            lemma_number(f.version as nat);
            lemma_number(f.data_length as nat);
            let head = object_head_fields(f, o.reassembled);
            assert(is_ascii_chars(sequence_text(f, o.reassembled)));
            assert(plain_fields(head));
            lemma_dimension(head, "width"@, f.width);
            let wide = with_dimension(head, "width"@, f.width);
            lemma_dimension(wide, "height"@, f.height);
            let sized = with_dimension(wide, "height"@, f.height);
            lemma_bitmap(f, o.rle);
            let all = object_fields(f, o.reassembled, o.rle);
            assert forall|i: int| 0 <= i < all.len() implies is_ascii_chars((#[trigger] all[i]).0)
                && is_plain(all[i].1) by {
                if i < sized.len() {
                    assert(all[i] == sized[i]);
                }
            }
            lemma_with_payload(all, raw, o.payload);
        },
        None => {
            lemma_with_payload(no_object_fields(), raw, o.payload);
        },
    }
}

/// The line for a display set is read back as what it was written from.
pub proof fn display_set_line_is_read_back(
    track_id: u32,
    index: u64,
    ds: DisplaySetView,
    raw: bool,
)
    ensures
        json_parsed(encode_utf8(rendered(display_set_tree(track_id, index, ds, raw)))) == Ok::<
            Tree,
            Seq<char>,
        >(display_set_tree(track_id, index, ds, raw)),
{
    lemma_ascii_names();
    lemma_number(track_id as nat);
    lemma_number(index as nat);
    lemma_number(ds.pts as nat);
    lemma_milliseconds(ds.pts);
    lemma_composition_tree(ds.segments, raw);
    lemma_windows(ds.segments, raw);
    lemma_items(all_window_trees(ds.segments, raw));
    lemma_palettes(ds.segments, raw);
    lemma_items(all_palette_trees(ds.segments, raw));
    let objects = all_object_trees(ds.segments, raw);
    assert forall|i: int| 0 <= i < objects.len() implies is_plain(#[trigger] objects[i]) by {
        lemma_object(objects_of(ds.segments, raw)[i], raw);
    }
    lemma_items(objects);
    let t = display_set_tree(track_id, index, ds, raw);
    lemma_pairs(t->Object_0);
    plain_is_read_as_it_is(t);
    json_parse_of_rendered(t);
}

proof fn lemma_regular_pairs(fields: Fields)
    requires
        forall|i: int| 0 <= i < fields.len() ==> is_regular((#[trigger] fields[i]).1),
    ensures
        pairs_are_regular(fields),
    decreases fields.len(),
{
    if fields.len() > 0 {
        assert(is_regular(fields[0].1));
        assert forall|i: int| 0 <= i < fields.skip(1).len() implies is_regular(
            (#[trigger] fields.skip(1)[i]).1,
        ) by {
            assert(fields.skip(1)[i] == fields[i + 1]);
        }
        lemma_regular_pairs(fields.skip(1));
    }
}

proof fn lemma_regular_items(items: Seq<Tree>)
    requires
        forall|i: int| 0 <= i < items.len() ==> is_regular(#[trigger] items[i]),
    ensures
        items_are_regular(items),
    decreases items.len(),
{
    if items.len() > 0 {
        assert(is_regular(items[0]));
        assert forall|i: int| 0 <= i < items.skip(1).len() implies is_regular(
            #[trigger] items.skip(1)[i],
        ) by {
            assert(items.skip(1)[i] == items[i + 1]);
        }
        lemma_regular_items(items.skip(1));
    }
}

proof fn lemma_track(t: TrackInfoView)
    ensures
        is_regular(track_tree(t)),
{
    lemma_number(t.track_id as nat);
    if let Some(n) = t.display_set_count {
        lemma_number(n as nat);
    }
    lemma_regular_pairs(track_tree(t)->Object_0);
}

/// The line for the tracks of a file can be read, and is read as one that
/// describes tracks, whatever the tracks are called.
pub proof fn tracks_line_is_skipped(tracks: Seq<TrackInfoView>, line: u64, f: Reading)
    ensures
        json_parsed(encode_utf8(rendered(tracks_tree(tracks)))) == Ok::<Tree, Seq<char>>(
            as_read(tracks_tree(tracks)),
        ),
        line_of(numbered(as_read(tracks_tree(tracks)), f), line) == Ok::<LineView, ErrorView>(
            LineView::Tracks,
        ),
{
    let t = tracks_tree(tracks);
    let fields = t->Object_0;
    let items = fields[1].1->Array_0;
    assert forall|i: int| 0 <= i < items.len() implies is_regular(#[trigger] items[i]) by {
        lemma_track(tracks[i]);
    }
    lemma_regular_items(items);
    assert(fields[1].1 == Json::Array(items));
    lemma_regular_pairs(fields);
    json_parse_of_rendered(t);
    reveal_strlit("type");
    reveal_strlit("tracks");
    ascii_is_read_as_it_is("type"@);
    ascii_is_read_as_it_is("tracks"@);
    let read = pairs_as_read(fields);
    let kind = Json::<Seq<char>>::Str("tracks"@);
    assert(fields[0] == ("type"@, kind));
    assert(as_read(kind) == kind);
    assert(read[0] == ("type"@, Json::<Seq<char>>::Str("tracks"@)));
    let pairs = numbered(as_read(t), f)->Object_0;
    assert(as_read(t) == Json::Object(read));
    assert(numbered(kind, f) == Json::<Number>::Str("tracks"@));
    assert(pairs[0] == (read[0].0, numbered(read[0].1, f)));
    assert(field(numbered(as_read(t), f), "type"@) == Some(Json::<Number>::Str("tracks"@)));
}

} // verus!
