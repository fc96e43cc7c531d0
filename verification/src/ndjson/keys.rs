//! What stands under each key of a line, and what is read from it.
use vstd::prelude::*;
use crate::error::ErrorView;
use crate::ndjson::base64::{base64_decode_of_encode, base64_text};
use crate::ndjson::encode::{
    bitmaps_of, composition_of, entries_of, entry_of, line_of, object_of, palette_of, palettes_of,
    placement_of, placements_of, required_u16, required_u8, window_of, windows_of, LineView, Read,
};
use crate::ndjson::json::{field, first_with_key, Json, Number};
use crate::ndjson::lines::{
    all_object_trees, all_palette_trees, all_window_trees, composition_tree, crop_tree,
    display_set_tree, entry_tree, milliseconds, object_tree, palette_trees, placement_tree,
    track_tree, tracks_tree, window_trees, ObjectView, Tree,
};
use crate::ndjson::roundtrip::lemma_keys;
use crate::pgs::display_set::{built, BitmapView, BuilderView, DisplaySetView};
use crate::pgs::payload::{
    pcs_parsed, pds_parsed, wds_parsed, CompositionObject, CropInfo, OdsView, PaletteEntry, PcsView,
    PdsView, WindowDefinition,
};
use crate::pgs::rle::decoded;
use crate::pgs::segment::{CompositionState, SegmentView};
use crate::text::{decimal, digit_char};
use crate::track::{ContainerFormat, TrackInfoView};

verus! {

/// Whether a key stands at a place.
pub open spec fn key_at<N>(pairs: Seq<(Seq<char>, Json<N>)>, i: int, key: Seq<char>) -> bool {
    0 <= i < pairs.len() && pairs[i].0 == key
}

/// Whether fields have a key, and a value stands wherever the key does.
pub open spec fn pairs_say<N>(
    pairs: Seq<(Seq<char>, Json<N>)>,
    key: Seq<char>,
    v: Json<N>,
) -> bool {
    &&& exists|i: int| #[trigger] key_at(pairs, i, key)
    &&& forall|i: int| #[trigger] key_at(pairs, i, key) ==> pairs[i].1 == v
}

/// Whether fields have no such key.
pub open spec fn pairs_lack<N>(pairs: Seq<(Seq<char>, Json<N>)>, key: Seq<char>) -> bool {
    forall|i: int| !(#[trigger] key_at(pairs, i, key))
}

/// Whether an object has a key, and a value stands wherever the key does.
pub open spec fn says<N>(j: Json<N>, key: Seq<char>, v: Json<N>) -> bool {
    match j {
        Json::Object(pairs) => pairs_say(pairs, key, v),
        _ => false,
    }
}

/// Whether an object has no such key.
pub open spec fn lacks<N>(j: Json<N>, key: Seq<char>) -> bool {
    match j {
        Json::Object(pairs) => pairs_lack(pairs, key),
        _ => false,
    }
}

/// An integer as it is written.
pub open spec fn integer(n: nat) -> Tree {
    Json::Num(decimal(n))
}

/// A value, or null if there is none.
pub open spec fn integer_or_null(n: Option<u64>) -> Tree {
    match n {
        Some(v) => Json::Num(decimal(v as nat)),
        None => Json::Null,
    }
}

/// A text, or null if there is none.
pub open spec fn text_or_null(t: Option<Seq<char>>) -> Tree {
    match t {
        Some(v) => Json::Str(v),
        None => Json::Null,
    }
}

/// A truth value, or null if there is none.
pub open spec fn truth_or_null(b: Option<bool>) -> Tree {
    match b {
        Some(v) => Json::Bool(v),
        None => Json::Null,
    }
}

pub(crate) proof fn lemma_more_keys()
    ensures
        "payload"@.len() == 7,
        "language"@.len() == 8,
        "container"@.len() == 9,
        "name"@.len() == 4,
        "is_default"@.len() == 10,
        "is_forced"@.len() == 9,
        "display_set_count"@.len() == 17,
        "indexed"@.len() == 7,
        "payload"@ != "objects"@,
        "payload"@ != "version"@,
        "payload"@ != "entries"@,
        "track_id"@ != "language"@,
        "container"@ != "is_forced"@,
{
    lemma_keys();
    reveal_strlit("payload");
    reveal_strlit("objects");
    reveal_strlit("version");
    reveal_strlit("entries");
    reveal_strlit("track_id");
    reveal_strlit("language");
    reveal_strlit("container");
    reveal_strlit("name");
    reveal_strlit("is_default");
    reveal_strlit("is_forced");
    reveal_strlit("display_set_count");
    reveal_strlit("indexed");
    assert("payload"@[0] != "objects"@[0]);
    assert("payload"@[0] != "version"@[0]);
    assert("payload"@[0] != "entries"@[0]);
    assert("track_id"@[0] != "language"@[0]);
    assert("container"@[0] != "is_forced"@[0]);
}

/// What stands at a place, if the key stands nowhere else.
pub(crate) proof fn lemma_says(pairs: Seq<(Seq<char>, Tree)>, i: int, key: Seq<char>, v: Tree)
    requires
        0 <= i < pairs.len(),
        pairs[i] == (key, v),
        forall|j: int| 0 <= j < pairs.len() && j != i ==> (#[trigger] pairs[j]).0 != key,
    ensures
        says(Json::Object(pairs), key, v),
{
    assert(key_at(pairs, i, key));
    assert forall|k: int| #[trigger] key_at(pairs, k, key) implies pairs[k].1 == v by {
        if k != i {
            assert(pairs[k].0 != key);
        }
    }
}

/// In the JSON of a palette entry, the number under each key is that of the
/// field of its name.
pub proof fn streamed_entry_by_key(e: PaletteEntry)
    ensures
        says(entry_tree(e), "id"@, integer(e.id as nat)),
        says(entry_tree(e), "luminance"@, integer(e.luminance as nat)),
        says(entry_tree(e), "cr"@, integer(e.cr as nat)),
        says(entry_tree(e), "cb"@, integer(e.cb as nat)),
        says(entry_tree(e), "alpha"@, integer(e.alpha as nat)),
{
    lemma_keys();
    let pairs = entry_tree(e)->Object_0;
    lemma_says(pairs, 0, "id"@, integer(e.id as nat));
    lemma_says(pairs, 1, "luminance"@, integer(e.luminance as nat));
    lemma_says(pairs, 2, "cr"@, integer(e.cr as nat));
    lemma_says(pairs, 3, "cb"@, integer(e.cb as nat));
    lemma_says(pairs, 4, "alpha"@, integer(e.alpha as nat));
}

/// In the JSON of a palette, the identifier, the version and the entries, in
/// order, stand under their keys.
pub proof fn streamed_palette_by_key(s: SegmentView, raw: bool, p: PdsView)
    requires
        s.segment_type is PaletteDefinition,
        pds_parsed(s.payload) == Some(p),
    ensures
        palette_trees(s, raw).len() == 1,
        says(palette_trees(s, raw)[0], "id"@, integer(p.id as nat)),
        says(palette_trees(s, raw)[0], "version"@, integer(p.version as nat)),
        exists|items: Seq<Tree>|
            says(palette_trees(s, raw)[0], "entries"@, Json::Array(items)) && items.len()
                == p.entries.len() && forall|i: int|
                0 <= i < items.len() ==> #[trigger] items[i] == entry_tree(p.entries[i]),
        raw ==> says(palette_trees(s, raw)[0], "payload"@, Json::Str(base64_text(s.payload))),
        !raw ==> lacks(palette_trees(s, raw)[0], "payload"@),
{
    lemma_keys();
    lemma_more_keys();
    let pairs = palette_trees(s, raw)[0]->Object_0;
    let items = pairs[2].1->Array_0;
    lemma_says(pairs, 0, "id"@, integer(p.id as nat));
    lemma_says(pairs, 1, "version"@, integer(p.version as nat));
    lemma_says(pairs, 2, "entries"@, Json::Array(items));
    assert forall|i: int| 0 <= i < items.len() implies #[trigger] items[i] == entry_tree(
        p.entries[i],
    ) by {}
    if raw {
        lemma_says(pairs, 3, "payload"@, Json::Str(base64_text(s.payload)));
    }
}

/// In the JSON of windows there is one for each, in order, and the number under
/// each key is that of the field of its name.
pub proof fn streamed_windows_by_key(
    s: SegmentView,
    raw: bool,
    windows: Seq<WindowDefinition>,
    k: int,
)
    requires
        s.segment_type is WindowDefinition,
        wds_parsed(s.payload) == Some(windows),
        0 <= k < windows.len(),
    ensures
        window_trees(s, raw).len() == windows.len(),
        says(window_trees(s, raw)[k], "id"@, integer(windows[k].id as nat)),
        says(window_trees(s, raw)[k], "x"@, integer(windows[k].x as nat)),
        says(window_trees(s, raw)[k], "y"@, integer(windows[k].y as nat)),
        says(window_trees(s, raw)[k], "width"@, integer(windows[k].width as nat)),
        says(window_trees(s, raw)[k], "height"@, integer(windows[k].height as nat)),
        raw ==> says(window_trees(s, raw)[k], "payload"@, Json::Str(base64_text(s.payload))),
        !raw ==> lacks(window_trees(s, raw)[k], "payload"@),
{
    lemma_keys();
    lemma_more_keys();
    let pairs = window_trees(s, raw)[k]->Object_0;
    lemma_says(pairs, 0, "id"@, integer(windows[k].id as nat));
    lemma_says(pairs, 1, "x"@, integer(windows[k].x as nat));
    lemma_says(pairs, 2, "y"@, integer(windows[k].y as nat));
    lemma_says(pairs, 3, "width"@, integer(windows[k].width as nat));
    lemma_says(pairs, 4, "height"@, integer(windows[k].height as nat));
    if raw {
        lemma_says(pairs, 5, "payload"@, Json::Str(base64_text(s.payload)));
    }
}

/// In the JSON of a cropping rectangle, the number under each key is that of the
/// field of its name.
pub proof fn streamed_crop_by_key(c: CropInfo)
    ensures
        says(crop_tree(Some(c)), "x"@, integer(c.x as nat)),
        says(crop_tree(Some(c)), "y"@, integer(c.y as nat)),
        says(crop_tree(Some(c)), "width"@, integer(c.width as nat)),
        says(crop_tree(Some(c)), "height"@, integer(c.height as nat)),
        crop_tree(None) == Json::<Seq<char>>::Null,
{
    lemma_keys();
    let pairs = crop_tree(Some(c))->Object_0;
    lemma_says(pairs, 0, "x"@, integer(c.x as nat));
    lemma_says(pairs, 1, "y"@, integer(c.y as nat));
    lemma_says(pairs, 2, "width"@, integer(c.width as nat));
    lemma_says(pairs, 3, "height"@, integer(c.height as nat));
}

/// In the JSON of a placement, the number under each key is that of the field of
/// its name.
pub proof fn streamed_placement_by_key(o: CompositionObject)
    ensures
        says(placement_tree(o), "object_id"@, integer(o.object_id as nat)),
        says(placement_tree(o), "window_id"@, integer(o.window_id as nat)),
        says(placement_tree(o), "x"@, integer(o.x as nat)),
        says(placement_tree(o), "y"@, integer(o.y as nat)),
        says(placement_tree(o), "crop"@, crop_tree(o.crop)),
{
    lemma_keys();
    let pairs = placement_tree(o)->Object_0;
    lemma_says(pairs, 0, "object_id"@, integer(o.object_id as nat));
    lemma_says(pairs, 1, "window_id"@, integer(o.window_id as nat));
    lemma_says(pairs, 2, "x"@, integer(o.x as nat));
    lemma_says(pairs, 3, "y"@, integer(o.y as nat));
    lemma_says(pairs, 4, "crop"@, crop_tree(o.crop));
}

/// The name of a composition state.
pub open spec fn name_of_state(s: CompositionState) -> Seq<char> {
    match s {
        CompositionState::Normal => "normal"@,
        CompositionState::AcquisitionPoint => "acquisition_point"@,
        CompositionState::EpochStart => "epoch_start"@,
    }
}

/// In the JSON of a composition, what stands under each key is the field of its
/// name.
pub proof fn streamed_composition_by_key(
    before: Seq<SegmentView>,
    s: SegmentView,
    after: Seq<SegmentView>,
    raw: bool,
    p: PcsView,
)
    requires
        forall|i: int|
            0 <= i < before.len() ==> !((#[trigger] before[i]).segment_type
                is PresentationComposition),
        s.segment_type is PresentationComposition,
        pcs_parsed(s.payload) == Some(p),
    ensures
        ({
            let j = composition_tree(before + seq![s] + after, raw);
            &&& says(j, "number"@, integer(p.composition_number as nat))
            &&& says(j, "state"@, Json::Str(name_of_state(p.composition_state)))
            &&& says(j, "video_width"@, integer(p.video_width as nat))
            &&& says(j, "video_height"@, integer(p.video_height as nat))
            &&& says(j, "palette_only"@, Json::Bool(p.palette_only))
            &&& says(j, "palette_id"@, integer(p.palette_id as nat))
            &&& exists|items: Seq<Tree>|
                says(j, "objects"@, Json::Array(items)) && items.len() == p.objects.len() && forall|
                    i: int,
                |
                    0 <= i < items.len() ==> #[trigger] items[i] == placement_tree(p.objects[i])
            &&& raw ==> says(j, "payload"@, Json::Str(base64_text(s.payload)))
            &&& !raw ==> lacks(j, "payload"@)
        }),
{
    lemma_keys();
    lemma_more_keys();
    lemma_first(before, s, after);
    let j = composition_tree(before + seq![s] + after, raw);
    let pairs = j->Object_0;
    let items = pairs[6].1->Array_0;
    lemma_says(pairs, 0, "number"@, integer(p.composition_number as nat));
    lemma_says(pairs, 1, "state"@, Json::Str(name_of_state(p.composition_state)));
    lemma_says(pairs, 2, "video_width"@, integer(p.video_width as nat));
    lemma_says(pairs, 3, "video_height"@, integer(p.video_height as nat));
    lemma_says(pairs, 4, "palette_only"@, Json::Bool(p.palette_only));
    lemma_says(pairs, 5, "palette_id"@, integer(p.palette_id as nat));
    lemma_says(pairs, 6, "objects"@, Json::Array(items));
    assert forall|i: int| 0 <= i < items.len() implies #[trigger] items[i] == placement_tree(
        p.objects[i],
    ) by {}
    if raw {
        lemma_says(pairs, 7, "payload"@, Json::Str(base64_text(s.payload)));
    }
}

proof fn lemma_first(before: Seq<SegmentView>, s: SegmentView, after: Seq<SegmentView>)
    requires
        forall|i: int|
            0 <= i < before.len() ==> !((#[trigger] before[i]).segment_type
                is PresentationComposition),
        s.segment_type is PresentationComposition,
    ensures
        crate::ndjson::lines::first_composition(before + seq![s] + after) == Some(s),
    decreases before.len(),
{
    let all = before + seq![s] + after;
    if before.len() == 0 {
        assert(all[0] == s);
    } else {
        let rest = before.skip(1);
        assert(all[0] == before[0]);
        assert(all.skip(1) =~= rest + seq![s] + after);
        assert forall|i: int| 0 <= i < rest.len() implies !((#[trigger] rest[i]).segment_type
            is PresentationComposition) by {
            assert(rest[i] == before[i + 1]);
        }
        lemma_first(rest, s, after);
    }
}

/// In the JSON of an object, what stands under each key is the field of its name
/// of the first fragment, and the bitmap of all of them.
pub proof fn streamed_object_by_key(o: ObjectView, f: OdsView, w: u16, h: u16, raw: bool)
    requires
        o.first == Some(f),
        f.width == Some(w),
        f.height == Some(h),
    ensures
        ({
            let j = object_tree(o, raw);
            &&& says(j, "id"@, integer(f.id as nat))
            &&& says(j, "version"@, integer(f.version as nat))
            &&& says(j, "data_length"@, integer(f.data_length as nat))
            &&& says(j, "width"@, integer(w as nat))
            &&& says(j, "height"@, integer(h as nat))
            &&& says(
                j,
                "bitmap"@,
                match decoded(o.rle, w as nat, h as nat) {
                    Some(pixels) => Json::Str(base64_text(pixels)),
                    None => Json::Null,
                },
            )
            &&& o.reassembled ==> says(j, "sequence"@, Json::Str("reassembled"@))
            &&& raw ==> says(j, "payload"@, Json::Str(base64_text(o.payload)))
            &&& !raw ==> lacks(j, "payload"@)
        }),
{
    lemma_keys();
    lemma_more_keys();
    let j = object_tree(o, raw);
    let pairs = j->Object_0;
    assert(pairs.len() == if raw {
        8
    } else {
        7int
    });
    lemma_says(pairs, 0, "id"@, integer(f.id as nat));
    lemma_says(pairs, 1, "version"@, integer(f.version as nat));
    lemma_says(pairs, 2, "sequence"@, pairs[2].1);
    lemma_says(pairs, 3, "data_length"@, integer(f.data_length as nat));
    lemma_says(pairs, 4, "width"@, integer(w as nat));
    lemma_says(pairs, 5, "height"@, integer(h as nat));
    lemma_says(pairs, 6, "bitmap"@, pairs[6].1);
    if raw {
        lemma_says(pairs, 7, "payload"@, Json::Str(base64_text(o.payload)));
    }
}

/// In the line of a display set, what stands under each key is what its name
/// says. The windows and palettes of segments follow one another.
pub proof fn streamed_set_by_key(
    track_id: u32,
    index: u64,
    ds: DisplaySetView,
    raw: bool,
)
    ensures
        ({
            let j = display_set_tree(track_id, index, ds, raw);
            &&& says(j, "type"@, Json::Str("display_set"@))
            &&& says(j, "track_id"@, integer(track_id as nat))
            &&& says(j, "index"@, integer(index as nat))
            &&& says(j, "pts"@, integer(ds.pts as nat))
            &&& says(j, "pts_ms"@, Json::Num(milliseconds(ds.pts)))
            &&& says(j, "composition"@, composition_tree(ds.segments, raw))
            &&& says(j, "windows"@, Json::Array(all_window_trees(ds.segments, raw)))
            &&& says(j, "palettes"@, Json::Array(all_palette_trees(ds.segments, raw)))
            &&& says(j, "objects"@, Json::Array(all_object_trees(ds.segments, raw)))
        }),
{
    lemma_keys();
    let j = display_set_tree(track_id, index, ds, raw);
    let pairs = j->Object_0;
    lemma_says(pairs, 0, "type"@, Json::Str("display_set"@));
    lemma_says(pairs, 1, "track_id"@, integer(track_id as nat));
    lemma_says(pairs, 2, "index"@, integer(index as nat));
    lemma_says(pairs, 3, "pts"@, integer(ds.pts as nat));
    lemma_says(pairs, 4, "pts_ms"@, Json::Num(milliseconds(ds.pts)));
    lemma_says(pairs, 5, "composition"@, composition_tree(ds.segments, raw));
    lemma_says(pairs, 6, "windows"@, Json::Array(all_window_trees(ds.segments, raw)));
    lemma_says(pairs, 7, "palettes"@, Json::Array(all_palette_trees(ds.segments, raw)));
    lemma_says(pairs, 8, "objects"@, Json::Array(all_object_trees(ds.segments, raw)));
}

/// The windows and palettes of more segments come behind those of the segments
/// in front of them; a segment of another kind adds none.
pub proof fn streamed_tables_follow(a: Seq<SegmentView>, b: Seq<SegmentView>, raw: bool)
    ensures
        all_window_trees(a + b, raw) == all_window_trees(a, raw) + all_window_trees(b, raw),
        all_palette_trees(a + b, raw) == all_palette_trees(a, raw) + all_palette_trees(b, raw),
        b.len() == 1 ==> all_window_trees(b, raw) == window_trees(b[0], raw) && all_palette_trees(
            b,
            raw,
        ) == palette_trees(b[0], raw),
        b.len() == 1 && !(b[0].segment_type is WindowDefinition) ==> all_window_trees(b, raw).len()
            == 0,
        b.len() == 1 && !(b[0].segment_type is PaletteDefinition) ==> all_palette_trees(
            b,
            raw,
        ).len() == 0,
    decreases b.len(),
{
    if b.len() == 0 {
        assert(a + b =~= a);
        assert(all_window_trees(a, raw) + all_window_trees(b, raw) =~= all_window_trees(a, raw));
        assert(all_palette_trees(a, raw) + all_palette_trees(b, raw) =~= all_palette_trees(a, raw));
    } else {
        let init = b.drop_last();
        streamed_tables_follow(a, init, raw);
        assert((a + b).drop_last() =~= a + init);
        assert((a + b).last() == b.last());
        assert(all_window_trees(a + b, raw) =~= all_window_trees(a, raw) + all_window_trees(
            b,
            raw,
        ));
        assert(all_palette_trees(a + b, raw) =~= all_palette_trees(a, raw) + all_palette_trees(
            b,
            raw,
        ));
        if b.len() == 1 {
            assert(init.len() == 0);
            assert(all_window_trees(init, raw) + window_trees(b[0], raw) =~= window_trees(
                b[0],
                raw,
            ));
            assert(all_palette_trees(init, raw) + palette_trees(b[0], raw) =~= palette_trees(
                b[0],
                raw,
            ));
        }
    }
}

/// The name of a container format in a line.
pub open spec fn name_of_container(c: ContainerFormat) -> Seq<char> {
    match c {
        ContainerFormat::Matroska => "Matroska"@,
        ContainerFormat::M2ts => "M2TS"@,
        ContainerFormat::TransportStream => "TransportStream"@,
        ContainerFormat::Sup => "SUP"@,
    }
}

/// In the JSON of a track, what stands under each key is what its name says.
pub proof fn streamed_track_by_key(tracks: Seq<TrackInfoView>, k: int)
    requires
        0 <= k < tracks.len(),
    ensures
        says(tracks_tree(tracks), "type"@, Json::Str("tracks"@)),
        exists|items: Seq<Tree>|
            says(tracks_tree(tracks), "tracks"@, Json::Array(items)) && items.len() == tracks.len()
                && items[k] == track_tree(tracks[k]),
        ({
            let t = tracks[k];
            let j = track_tree(t);
            &&& says(j, "track_id"@, integer(t.track_id as nat))
            &&& says(j, "language"@, text_or_null(t.language))
            &&& says(j, "container"@, Json::Str(name_of_container(t.container)))
            &&& says(j, "name"@, text_or_null(t.name))
            &&& says(j, "is_default"@, truth_or_null(t.flag_default))
            &&& says(j, "is_forced"@, truth_or_null(t.flag_forced))
            &&& says(j, "display_set_count"@, integer_or_null(t.display_set_count))
            &&& says(j, "indexed"@, truth_or_null(t.has_cues))
        }),
{
    lemma_keys();
    lemma_more_keys();
    let all = tracks_tree(tracks)->Object_0;
    let items = all[1].1->Array_0;
    lemma_says(all, 0, "type"@, Json::Str("tracks"@));
    lemma_says(all, 1, "tracks"@, Json::Array(items));
    assert(items.len() == tracks.len());
    assert(items[k] == track_tree(tracks[k]));
    assert(tracks_tree(tracks) == Json::Object(all));
    assert(says(tracks_tree(tracks), "tracks"@, Json::Array(items)));
    let t = tracks[k];
    let pairs = track_tree(t)->Object_0;
    lemma_says(pairs, 0, "track_id"@, integer(t.track_id as nat));
    lemma_says(pairs, 1, "language"@, text_or_null(t.language));
    lemma_says(pairs, 2, "container"@, Json::Str(name_of_container(t.container)));
    lemma_says(pairs, 3, "name"@, text_or_null(t.name));
    lemma_says(pairs, 4, "is_default"@, truth_or_null(t.flag_default));
    lemma_says(pairs, 5, "is_forced"@, truth_or_null(t.flag_forced));
    lemma_says(pairs, 6, "display_set_count"@, integer_or_null(t.display_set_count));
    lemma_says(pairs, 7, "indexed"@, truth_or_null(t.has_cues));
}

/// Four decimal places.
pub open spec fn places(p: int) -> Seq<char> {
    seq![
        '.',
        digit_char(p / 1000),
        digit_char(p / 100 % 10),
        digit_char(p / 10 % 10),
        digit_char(p % 10),
    ]
}

/// The time in milliseconds is written as whole milliseconds and four decimal
/// places, and is the ninetieth part of the timestamp to within half of the last
/// place.
pub proof fn streamed_time_is_close(pts: u64) -> (p: int)
    ensures
        0 <= p < 10000,
        milliseconds(pts) == decimal((pts / 90) as nat) + places(p),
        -45 <= 90 * (pts / 90 * 10000 + p) - pts * 10000 <= 45,
{
    let r = pts as int % 90;
    let p = (r * 1000 + 4) / 9;
    assert(pts == pts / 90 * 90 + r);
    assert(milliseconds(pts) =~= decimal((pts / 90) as nat) + places(p));
    p
}

proof fn lemma_field_of<N>(pairs: Seq<(Seq<char>, Json<N>)>, key: Seq<char>, v: Json<N>)
    ensures
        pairs_say(pairs, key, v) ==> first_with_key(pairs, key) == Some(v),
        pairs_lack(pairs, key) ==> first_with_key(pairs, key) is None,
    decreases pairs.len(),
{
    if pairs.len() == 0 {
        if pairs_say(pairs, key, v) {
            let i = choose|i: int| #[trigger] key_at(pairs, i, key);
            assert(key_at(pairs, i, key));
        }
    } else {
        let rest = pairs.skip(1);
        lemma_field_of(rest, key, v);
        if pairs[0].0 == key {
            assert(key_at(pairs, 0, key));
        } else {
            assert forall|k: int| #[trigger] key_at(rest, k, key) implies key_at(pairs, k + 1, key)
                && rest[k] == pairs[k + 1] by {
                assert(rest[k] == pairs[k + 1]);
            }
            if pairs_say(pairs, key, v) {
                let i = choose|i: int| #[trigger] key_at(pairs, i, key);
                assert(rest[i - 1] == pairs[i]);
                assert(key_at(rest, i - 1, key));
            }
        }
    }
}

/// What an object says under a key is found there.
proof fn lemma_found<N>(j: Json<N>, key: Seq<char>, v: Json<N>)
    ensures
        says(j, key, v) ==> field(j, key) == Some(v),
        lacks(j, key) ==> field(j, key) is None,
{
    if let Json::Object(pairs) = j {
        lemma_field_of(pairs, key, v);
    }
}

/// The smaller of a number and a limit.
pub open spec fn capped(n: Number, limit: u64) -> u64 {
    if n.whole <= limit {
        n.whole
    } else {
        limit
    }
}

/// A palette entry that is read has in each field the number under the key of
/// its name.
pub proof fn read_entry_by_key(
    j: Read,
    line: u64,
    id: Number,
    luminance: Number,
    cr: Number,
    cb: Number,
    alpha: Number,
)
    requires
        says(j, "id"@, Json::Num(id)),
        says(j, "luminance"@, Json::Num(luminance)),
        says(j, "cr"@, Json::Num(cr)),
        says(j, "cb"@, Json::Num(cb)),
        says(j, "alpha"@, Json::Num(alpha)),
    ensures
        entry_of(j, line) == Ok::<PaletteEntry, Seq<char>>(
            PaletteEntry {
                id: capped(id, 255) as u8,
                luminance: capped(luminance, 255) as u8,
                cr: capped(cr, 255) as u8,
                cb: capped(cb, 255) as u8,
                alpha: capped(alpha, 255) as u8,
            },
        ),
{
    lemma_found(j, "id"@, Json::Num(id));
    lemma_found(j, "luminance"@, Json::Num(luminance));
    lemma_found(j, "cr"@, Json::Num(cr));
    lemma_found(j, "cb"@, Json::Num(cb));
    lemma_found(j, "alpha"@, Json::Num(alpha));
}

/// A window that is read has in each field the number under the key of its name.
pub proof fn read_window_by_key(
    j: Read,
    line: u64,
    id: Number,
    x: Number,
    y: Number,
    width: Number,
    height: Number,
)
    requires
        says(j, "id"@, Json::Num(id)),
        says(j, "x"@, Json::Num(x)),
        says(j, "y"@, Json::Num(y)),
        says(j, "width"@, Json::Num(width)),
        says(j, "height"@, Json::Num(height)),
    ensures
        window_of(j, line) == Ok::<WindowDefinition, Seq<char>>(
            WindowDefinition {
                id: capped(id, 255) as u8,
                x: capped(x, 65535) as u16,
                y: capped(y, 65535) as u16,
                width: capped(width, 65535) as u16,
                height: capped(height, 65535) as u16,
            },
        ),
{
    lemma_found(j, "id"@, Json::Num(id));
    lemma_found(j, "x"@, Json::Num(x));
    lemma_found(j, "y"@, Json::Num(y));
    lemma_found(j, "width"@, Json::Num(width));
    lemma_found(j, "height"@, Json::Num(height));
}

/// A placement that is read has in each field the number under the key of its
/// name, and no cropping rectangle if it is null or missing.
pub proof fn read_placement_by_key(
    j: Read,
    line: u64,
    object_id: Number,
    window_id: Number,
    x: Number,
    y: Number,
    crop: Option<(Read, Number, Number, Number, Number)>,
)
    requires
        says(j, "object_id"@, Json::Num(object_id)),
        says(j, "window_id"@, Json::Num(window_id)),
        says(j, "x"@, Json::Num(x)),
        says(j, "y"@, Json::Num(y)),
        match crop {
            None => lacks(j, "crop"@) || says(j, "crop"@, Json::Null),
            Some((c, cx, cy, width, height)) => {
                &&& says(j, "crop"@, c)
                &&& says(c, "x"@, Json::Num(cx))
                &&& says(c, "y"@, Json::Num(cy))
                &&& says(c, "width"@, Json::Num(width))
                &&& says(c, "height"@, Json::Num(height))
            },
        },
    ensures
        placement_of(j, line) == Ok::<CompositionObject, Seq<char>>(
            CompositionObject {
                object_id: capped(object_id, 65535) as u16,
                window_id: capped(window_id, 255) as u8,
                x: capped(x, 65535) as u16,
                y: capped(y, 65535) as u16,
                crop: match crop {
                    None => None,
                    Some((_, cx, cy, width, height)) => Some(
                        CropInfo {
                            x: capped(cx, 65535) as u16,
                            y: capped(cy, 65535) as u16,
                            width: capped(width, 65535) as u16,
                            height: capped(height, 65535) as u16,
                        },
                    ),
                },
            },
        ),
{
    lemma_found(j, "object_id"@, Json::Num(object_id));
    lemma_found(j, "window_id"@, Json::Num(window_id));
    lemma_found(j, "x"@, Json::Num(x));
    lemma_found(j, "y"@, Json::Num(y));
    match crop {
        None => {
            lemma_found(j, "crop"@, Json::Null);
        },
        Some((c, cx, cy, width, height)) => {
            lemma_found(j, "crop"@, c);
            lemma_found(c, "x"@, Json::Num(cx));
            lemma_found(c, "y"@, Json::Num(cy));
            lemma_found(c, "width"@, Json::Num(width));
            lemma_found(c, "height"@, Json::Num(height));
        },
    }
}

/// A composition that is read has in each field what stands under the key of its
/// name.
pub proof fn read_composition_by_key(
    j: Read,
    line: u64,
    number: Number,
    state: CompositionState,
    video_width: Number,
    video_height: Number,
    palette_only: bool,
    palette_id: Number,
    items: Seq<Read>,
    objects: Seq<CompositionObject>,
)
    requires
        says(j, "number"@, Json::Num(number)),
        says(j, "state"@, Json::Str(name_of_state(state))),
        says(j, "video_width"@, Json::Num(video_width)),
        says(j, "video_height"@, Json::Num(video_height)),
        says(j, "palette_only"@, Json::Bool(palette_only)),
        says(j, "palette_id"@, Json::Num(palette_id)),
        says(j, "objects"@, Json::Array(items)),
        objects.len() == items.len(),
        forall|i: int|
            0 <= i < items.len() ==> placement_of(#[trigger] items[i], line) == Ok::<
                CompositionObject,
                Seq<char>,
            >(objects[i]),
    ensures
        composition_of(j, line) == Ok::<PcsView, Seq<char>>(
            PcsView {
                video_width: capped(video_width, 65535) as u16,
                video_height: capped(video_height, 65535) as u16,
                composition_number: capped(number, 65535) as u16,
                composition_state: state,
                palette_only,
                palette_id: capped(palette_id, 255) as u8,
                objects,
            },
        ),
{
    lemma_found(j, "number"@, Json::Num(number));
    lemma_found(j, "state"@, Json::Str(name_of_state(state)));
    lemma_found(j, "video_width"@, Json::Num(video_width));
    lemma_found(j, "video_height"@, Json::Num(video_height));
    lemma_found(j, "palette_only"@, Json::Bool(palette_only));
    lemma_found(j, "palette_id"@, Json::Num(palette_id));
    lemma_found(j, "objects"@, Json::Array(items));
    reveal_strlit("normal");
    reveal_strlit("acquisition_point");
    reveal_strlit("epoch_start");
    assert("normal"@.len() == 6 && "acquisition_point"@.len() == 17 && "epoch_start"@.len() == 11);
    lemma_placements(items, line, objects);
}

proof fn lemma_placements(items: Seq<Read>, line: u64, objects: Seq<CompositionObject>)
    requires
        objects.len() == items.len(),
        forall|i: int|
            0 <= i < items.len() ==> placement_of(#[trigger] items[i], line) == Ok::<
                CompositionObject,
                Seq<char>,
            >(objects[i]),
    ensures
        placements_of(items, line) == Ok::<Seq<CompositionObject>, Seq<char>>(objects),
    decreases items.len(),
{
    if items.len() == 0 {
        assert(objects =~= Seq::<CompositionObject>::empty());
    } else {
        let n = items.len() - 1;
        assert(placement_of(items[n], line) == Ok::<CompositionObject, Seq<char>>(objects[n]));
        assert forall|i: int| 0 <= i < n implies placement_of(
            #[trigger] items.drop_last()[i],
            line,
        ) == Ok::<CompositionObject, Seq<char>>(objects.drop_last()[i]) by {
            assert(items.drop_last()[i] == items[i]);
        }
        lemma_placements(items.drop_last(), line, objects.drop_last());
        assert(objects.drop_last().push(objects[n]) =~= objects);
    }
}

proof fn lemma_entries(items: Seq<Read>, line: u64, entries: Seq<PaletteEntry>)
    requires
        entries.len() == items.len(),
        forall|i: int|
            0 <= i < items.len() ==> entry_of(#[trigger] items[i], line) == Ok::<
                PaletteEntry,
                Seq<char>,
            >(entries[i]),
    ensures
        entries_of(items, line) == Ok::<Seq<PaletteEntry>, Seq<char>>(entries),
    decreases items.len(),
{
    if items.len() == 0 {
        assert(entries =~= Seq::<PaletteEntry>::empty());
    } else {
        let n = items.len() - 1;
        assert(entry_of(items[n], line) == Ok::<PaletteEntry, Seq<char>>(entries[n]));
        assert forall|i: int| 0 <= i < n implies entry_of(#[trigger] items.drop_last()[i], line)
            == Ok::<PaletteEntry, Seq<char>>(entries.drop_last()[i]) by {
            assert(items.drop_last()[i] == items[i]);
        }
        lemma_entries(items.drop_last(), line, entries.drop_last());
        assert(entries.drop_last().push(entries[n]) =~= entries);
    }
}

/// A palette that is read has in each field what stands under the key of its
/// name.
pub proof fn read_palette_by_key(
    j: Read,
    line: u64,
    id: Number,
    version: Number,
    items: Seq<Read>,
    entries: Seq<PaletteEntry>,
)
    requires
        says(j, "id"@, Json::Num(id)),
        says(j, "version"@, Json::Num(version)),
        says(j, "entries"@, Json::Array(items)),
        entries.len() == items.len(),
        forall|i: int|
            0 <= i < items.len() ==> entry_of(#[trigger] items[i], line) == Ok::<
                PaletteEntry,
                Seq<char>,
            >(entries[i]),
    ensures
        palette_of(j, line) == Ok::<PdsView, Seq<char>>(
            PdsView { id: capped(id, 255) as u8, version: capped(version, 255) as u8, entries },
        ),
{
    lemma_found(j, "id"@, Json::Num(id));
    lemma_found(j, "version"@, Json::Num(version));
    lemma_found(j, "entries"@, Json::Array(items));
    lemma_entries(items, line, entries);
}

/// An object that is read has in each field what stands under the key of its
/// name, and the pixels whose Base64 text stands under its bitmap's.
pub proof fn read_object_by_key(
    j: Read,
    line: u64,
    id: Number,
    version: Number,
    width: Number,
    height: Number,
    pixels: Seq<u8>,
)
    requires
        says(j, "id"@, Json::Num(id)),
        says(j, "version"@, Json::Num(version)),
        says(j, "width"@, Json::Num(width)),
        says(j, "height"@, Json::Num(height)),
        says(j, "bitmap"@, Json::Str(base64_text(pixels))),
        pixels.len() == capped(width, 65535) * capped(height, 65535),
    ensures
        object_of(j, line) == Ok::<BitmapView, Seq<char>>(
            BitmapView {
                id: capped(id, 65535) as u16,
                version: capped(version, 255) as u8,
                width: capped(width, 65535) as u16,
                height: capped(height, 65535) as u16,
                pixels,
            },
        ),
{
    lemma_found(j, "id"@, Json::Num(id));
    lemma_found(j, "version"@, Json::Num(version));
    lemma_found(j, "width"@, Json::Num(width));
    lemma_found(j, "height"@, Json::Num(height));
    lemma_found(j, "bitmap"@, Json::Str(base64_text(pixels)));
    base64_decode_of_encode(pixels);
}

proof fn lemma_windows(items: Seq<Read>, line: u64, windows: Seq<WindowDefinition>)
    requires
        windows.len() == items.len(),
        forall|i: int|
            0 <= i < items.len() ==> window_of(#[trigger] items[i], line) == Ok::<
                WindowDefinition,
                Seq<char>,
            >(windows[i]),
    ensures
        windows_of(items, line) == Ok::<Seq<WindowDefinition>, Seq<char>>(windows),
    decreases items.len(),
{
    if items.len() == 0 {
        assert(windows =~= Seq::<WindowDefinition>::empty());
    } else {
        let n = items.len() - 1;
        assert(window_of(items[n], line) == Ok::<WindowDefinition, Seq<char>>(windows[n]));
        assert forall|i: int| 0 <= i < n implies window_of(#[trigger] items.drop_last()[i], line)
            == Ok::<WindowDefinition, Seq<char>>(windows.drop_last()[i]) by {
            assert(items.drop_last()[i] == items[i]);
        }
        lemma_windows(items.drop_last(), line, windows.drop_last());
        assert(windows.drop_last().push(windows[n]) =~= windows);
    }
}

proof fn lemma_palettes(items: Seq<Read>, line: u64, palettes: Seq<PdsView>)
    requires
        palettes.len() == items.len(),
        forall|i: int|
            0 <= i < items.len() ==> palette_of(#[trigger] items[i], line) == Ok::<
                PdsView,
                Seq<char>,
            >(palettes[i]),
    ensures
        palettes_of(items, line) == Ok::<Seq<PdsView>, Seq<char>>(palettes),
    decreases items.len(),
{
    if items.len() == 0 {
        assert(palettes =~= Seq::<PdsView>::empty());
    } else {
        let n = items.len() - 1;
        assert(palette_of(items[n], line) == Ok::<PdsView, Seq<char>>(palettes[n]));
        assert forall|i: int| 0 <= i < n implies palette_of(#[trigger] items.drop_last()[i], line)
            == Ok::<PdsView, Seq<char>>(palettes.drop_last()[i]) by {
            assert(items.drop_last()[i] == items[i]);
        }
        lemma_palettes(items.drop_last(), line, palettes.drop_last());
        assert(palettes.drop_last().push(palettes[n]) =~= palettes);
    }
}

proof fn lemma_bitmaps(items: Seq<Read>, line: u64, objects: Seq<BitmapView>)
    requires
        objects.len() == items.len(),
        forall|i: int|
            0 <= i < items.len() ==> object_of(#[trigger] items[i], line) == Ok::<
                BitmapView,
                Seq<char>,
            >(objects[i]),
    ensures
        bitmaps_of(items, line) == Ok::<Seq<BitmapView>, Seq<char>>(objects),
    decreases items.len(),
{
    if items.len() == 0 {
        assert(objects =~= Seq::<BitmapView>::empty());
    } else {
        let n = items.len() - 1;
        assert(object_of(items[n], line) == Ok::<BitmapView, Seq<char>>(objects[n]));
        assert forall|i: int| 0 <= i < n implies object_of(#[trigger] items.drop_last()[i], line)
            == Ok::<BitmapView, Seq<char>>(objects.drop_last()[i]) by {
            assert(items.drop_last()[i] == items[i]);
        }
        lemma_bitmaps(items.drop_last(), line, objects.drop_last());
        assert(objects.drop_last().push(objects[n]) =~= objects);
    }
}

/// A line that describes a display set is read as the one that is built from
/// what stands under its keys: its timestamp, or the time in milliseconds if that
/// is missing, its composition, windows, palettes and objects, of the track under
/// its key, or of track 0.
pub proof fn read_set_by_key(
    j: Read,
    line: u64,
    track: Option<Number>,
    pts: Option<Number>,
    time: Number,
    composition: Read,
    pcs: PcsView,
    window_items: Seq<Read>,
    windows: Seq<WindowDefinition>,
    palette_items: Seq<Read>,
    palettes: Seq<PdsView>,
    object_items: Seq<Read>,
    objects: Seq<BitmapView>,
)
    requires
        says(j, "type"@, Json::Str("display_set"@)),
        match track {
            Some(n) => says(j, "track_id"@, Json::Num(n)),
            None => lacks(j, "track_id"@),
        },
        match pts {
            Some(n) => says(j, "pts"@, Json::Num(n)),
            None => lacks(j, "pts"@) && says(j, "pts_ms"@, Json::Num(time)),
        },
        says(j, "composition"@, composition),
        !(composition is Null),
        composition_of(composition, line) == Ok::<PcsView, Seq<char>>(pcs),
        says(j, "windows"@, Json::Array(window_items)),
        windows.len() == window_items.len(),
        forall|i: int|
            0 <= i < window_items.len() ==> window_of(#[trigger] window_items[i], line) == Ok::<
                WindowDefinition,
                Seq<char>,
            >(windows[i]),
        says(j, "palettes"@, Json::Array(palette_items)),
        palettes.len() == palette_items.len(),
        forall|i: int|
            0 <= i < palette_items.len() ==> palette_of(#[trigger] palette_items[i], line) == Ok::<
                PdsView,
                Seq<char>,
            >(palettes[i]),
        says(j, "objects"@, Json::Array(object_items)),
        objects.len() == object_items.len(),
        forall|i: int|
            0 <= i < object_items.len() ==> object_of(#[trigger] object_items[i], line) == Ok::<
                BitmapView,
                Seq<char>,
            >(objects[i]),
    ensures
        line_of(j, line) == match built(
            BuilderView {
                pts: match pts {
                    Some(n) => n.whole,
                    None => time.ticks,
                },
                dts: 0,
                pcs: Some(pcs),
                wds: if windows.len() > 0 {
                    Some(windows)
                } else {
                    None
                },
                palettes,
                objects,
            },
        ) {
            Ok(ds) => Ok::<LineView, ErrorView>(
                LineView::Described(
                    match track {
                        Some(n) => n.whole,
                        None => 0,
                    },
                    ds,
                ),
            ),
            Err(e) => Err(e),
        },
{
    lemma_keys();
    lemma_found(j, "type"@, Json::Str("display_set"@));
    lemma_found(j, "track_id"@, Json::Num(time));
    if let Some(n) = track {
        lemma_found(j, "track_id"@, Json::Num(n));
    }
    lemma_found(j, "pts"@, Json::Num(time));
    lemma_found(j, "pts_ms"@, Json::Num(time));
    if let Some(n) = pts {
        lemma_found(j, "pts"@, Json::Num(n));
    }
    lemma_found(j, "composition"@, composition);
    lemma_found(j, "windows"@, Json::Array(window_items));
    lemma_found(j, "palettes"@, Json::Array(palette_items));
    lemma_found(j, "objects"@, Json::Array(object_items));
    lemma_windows(window_items, line, windows);
    lemma_palettes(palette_items, line, palettes);
    lemma_bitmaps(object_items, line, objects);
}

/// A line without a composition, or with none, describes nothing to encode, and
/// one that describes tracks is told apart from it.
pub proof fn read_other_lines_by_key(j: Read, line: u64, pts: Number)
    ensures
        says(j, "type"@, Json::Str("tracks"@)) ==> line_of(j, line) == Ok::<LineView, ErrorView>(
            LineView::Tracks,
        ),
        says(j, "type"@, Json::Str("display_set"@)) && says(j, "pts"@, Json::Num(pts)) && (lacks(
            j,
            "composition"@,
        ) || says(j, "composition"@, Json::Null)) ==> line_of(j, line) == Ok::<
            LineView,
            ErrorView,
        >(LineView::NoComposition),
        lacks(j, "type"@) ==> line_of(j, line) is Err,
{
    lemma_keys();
    lemma_found(j, "type"@, Json::Str("tracks"@));
    lemma_found(j, "type"@, Json::Str("display_set"@));
    lemma_found(j, "pts"@, Json::Num(pts));
    lemma_found(j, "composition"@, Json::Null);
}

/// A number that is missing is complained about.
pub proof fn missing_number_is_an_error(j: Read, key: Seq<char>, line: u64)
    requires
        lacks(j, key),
    ensures
        required_u8(j, key, line) == Err::<u8, Seq<char>>(
            "line "@ + decimal(line as nat) + ": "@ + ("missing field '"@ + key + "'"@),
        ),
        required_u16(j, key, line) == Err::<u16, Seq<char>>(
            "line "@ + decimal(line as nat) + ": "@ + ("missing field '"@ + key + "'"@),
        ),
{
    lemma_found(j, key, Json::Null);
}

} // verus!
