//! The JSON values that describe tracks and display sets.
use vstd::prelude::*;
use crate::bytes::push_range;
use crate::ndjson::base64::{base64_encode, base64_text};
use crate::ndjson::json::{
    lemma_array_tree, lemma_object_tree, pair_trees, push_json, rendered, trees, Json, JsonValue,
};
use crate::mkv::tracks::text_view;
use crate::pgs::display_set::{DisplaySet, DisplaySetView};
use crate::pgs::payload::{
    ods_parsed, pcs_parsed, pds_parsed, wds_parsed, CompositionObject, CropInfo, OdsData, OdsView,
    PaletteEntry, PcsData, PcsView, PdsData, PdsView, WindowDefinition,
};
use crate::pgs::rle::{decode_rle, decoded};
use crate::pgs::segment::{
    segment_views, CompositionState, PgsSegment, SegmentType, SegmentView,
};
use crate::text::{decimal, digit_char, push_decimal};
use crate::track::{info_views, ContainerFormat, PgsTrackInfo, TrackInfoView};

verus! {

/// A JSON value whose numbers are text.
pub type Tree = Json<Seq<char>>;

/// The fields of a JSON object.
pub type Fields = Seq<(Seq<char>, Tree)>;

/// An integer.
pub open spec fn number(n: nat) -> Tree {
    Json::Num(decimal(n))
}

/// An integer, or null.
pub open spec fn number_or_null(n: Option<u64>) -> Tree {
    match n {
        Some(v) => number(v as nat),
        None => Json::Null,
    }
}

/// A string, or null.
pub open spec fn string_or_null(s: Option<Seq<char>>) -> Tree {
    match s {
        Some(v) => Json::Str(v),
        None => Json::Null,
    }
}

/// A boolean, or null.
pub open spec fn bool_or_null(b: Option<bool>) -> Tree {
    match b {
        Some(v) => Json::Bool(v),
        None => Json::Null,
    }
}

/// The name of a container format.
pub open spec fn container_text(c: ContainerFormat) -> Seq<char> {
    match c {
        ContainerFormat::Matroska => "Matroska"@,
        ContainerFormat::M2ts => "M2TS"@,
        ContainerFormat::TransportStream => "TransportStream"@,
        ContainerFormat::Sup => "SUP"@,
    }
}

/// The name of a composition state.
pub open spec fn state_text(s: CompositionState) -> Seq<char> {
    match s {
        CompositionState::Normal => "normal"@,
        CompositionState::AcquisitionPoint => "acquisition_point"@,
        CompositionState::EpochStart => "epoch_start"@,
    }
}

/// A timestamp in milliseconds, rounded to four decimal places.
pub open spec fn milliseconds(pts: u64) -> Seq<char> {
    let parts = (pts as int % 90 * 1000 + 4) / 9;
    decimal((pts / 90) as nat) + seq![
        '.',
        digit_char(parts / 1000),
        digit_char(parts / 100 % 10),
        digit_char(parts / 10 % 10),
        digit_char(parts % 10),
    ]
}

/// Fields, with the payload that they come from if it is wanted.
pub open spec fn with_payload(fields: Fields, raw: bool, payload: Seq<u8>) -> Fields {
    if raw {
        fields.push(("payload"@, Json::Str(base64_text(payload))))
    } else {
        fields
    }
}

/// What is said about a track.
pub open spec fn track_tree(t: TrackInfoView) -> Tree {
    Json::Object(
        seq![
            ("track_id"@, number(t.track_id as nat)),
            ("language"@, string_or_null(t.language)),
            ("container"@, Json::Str(container_text(t.container))),
            ("name"@, string_or_null(t.name)),
            ("is_default"@, bool_or_null(t.flag_default)),
            ("is_forced"@, bool_or_null(t.flag_forced)),
            ("display_set_count"@, number_or_null(t.display_set_count)),
            ("indexed"@, bool_or_null(t.has_cues)),
        ],
    )
}

/// What is said about the tracks of a file.
pub open spec fn tracks_tree(tracks: Seq<TrackInfoView>) -> Tree {
    Json::Object(
        seq![
            ("type"@, Json::Str("tracks"@)),
            ("tracks"@, Json::Array(Seq::new(tracks.len(), |i: int| track_tree(tracks[i])))),
        ],
    )
}

/// A cropping rectangle.
pub open spec fn crop_tree(crop: Option<CropInfo>) -> Tree {
    match crop {
        Some(c) => Json::Object(
            seq![
                ("x"@, number(c.x as nat)),
                ("y"@, number(c.y as nat)),
                ("width"@, number(c.width as nat)),
                ("height"@, number(c.height as nat)),
            ],
        ),
        None => Json::Null,
    }
}

/// A placement of an object.
pub open spec fn placement_tree(o: CompositionObject) -> Tree {
    Json::Object(
        seq![
            ("object_id"@, number(o.object_id as nat)),
            ("window_id"@, number(o.window_id as nat)),
            ("x"@, number(o.x as nat)),
            ("y"@, number(o.y as nat)),
            ("crop"@, crop_tree(o.crop)),
        ],
    )
}

/// The fields of a composition.
pub open spec fn composition_fields(p: PcsView) -> Fields {
    seq![
        ("number"@, number(p.composition_number as nat)),
        ("state"@, Json::Str(state_text(p.composition_state))),
        ("video_width"@, number(p.video_width as nat)),
        ("video_height"@, number(p.video_height as nat)),
        ("palette_only"@, Json::Bool(p.palette_only)),
        ("palette_id"@, number(p.palette_id as nat)),
        (
            "objects"@,
            Json::Array(Seq::new(p.objects.len(), |i: int| placement_tree(p.objects[i]))),
        ),
    ]
}

/// The fields of a composition that could not be parsed.
pub open spec fn no_composition_fields() -> Fields {
    seq![
        ("number"@, Json::Null),
        ("state"@, Json::Null),
        ("video_width"@, Json::Null),
        ("video_height"@, Json::Null),
        ("palette_only"@, Json::Null),
        ("palette_id"@, Json::Null),
        ("objects"@, Json::Null),
    ]
}

/// The first composition segment.
pub open spec fn first_composition(segments: Seq<SegmentView>) -> Option<SegmentView>
    decreases segments.len(),
{
    if segments.len() == 0 {
        None
    } else if segments[0].segment_type is PresentationComposition {
        Some(segments[0])
    } else {
        first_composition(segments.skip(1))
    }
}

/// The composition of a display set. One that could not be parsed is null, or
/// has only null fields beside its payload.
pub open spec fn composition_tree(segments: Seq<SegmentView>, raw: bool) -> Tree {
    match first_composition(segments) {
        None => Json::Null,
        Some(s) => match pcs_parsed(s.payload) {
            Some(p) => Json::Object(with_payload(composition_fields(p), raw, s.payload)),
            None => if raw {
                Json::Object(with_payload(no_composition_fields(), raw, s.payload))
            } else {
                Json::Null
            },
        },
    }
}

/// The fields of a window.
pub open spec fn window_fields(w: WindowDefinition) -> Fields {
    seq![
        ("id"@, number(w.id as nat)),
        ("x"@, number(w.x as nat)),
        ("y"@, number(w.y as nat)),
        ("width"@, number(w.width as nat)),
        ("height"@, number(w.height as nat)),
    ]
}

/// The fields of windows that could not be parsed.
pub open spec fn no_window_fields() -> Fields {
    seq![
        ("id"@, Json::Null),
        ("x"@, Json::Null),
        ("y"@, Json::Null),
        ("width"@, Json::Null),
        ("height"@, Json::Null),
    ]
}

/// The windows that a segment defines.
pub open spec fn window_trees(s: SegmentView, raw: bool) -> Seq<Tree> {
    if !(s.segment_type is WindowDefinition) {
        Seq::empty()
    } else {
        match wds_parsed(s.payload) {
            Some(windows) => Seq::new(
                windows.len(),
                |i: int| Json::Object(with_payload(window_fields(windows[i]), raw, s.payload)),
            ),
            None => if raw {
                seq![Json::Object(with_payload(no_window_fields(), raw, s.payload))]
            } else {
                Seq::empty()
            },
        }
    }
}

/// The windows of a display set.
pub open spec fn all_window_trees(segments: Seq<SegmentView>, raw: bool) -> Seq<Tree>
    decreases segments.len(),
{
    if segments.len() == 0 {
        Seq::empty()
    } else {
        all_window_trees(segments.drop_last(), raw) + window_trees(segments.last(), raw)
    }
}

/// A palette entry.
pub open spec fn entry_tree(e: PaletteEntry) -> Tree {
    Json::Object(
        seq![
            ("id"@, number(e.id as nat)),
            ("luminance"@, number(e.luminance as nat)),
            ("cr"@, number(e.cr as nat)),
            ("cb"@, number(e.cb as nat)),
            ("alpha"@, number(e.alpha as nat)),
        ],
    )
}

/// The fields of a palette.
pub open spec fn palette_fields(p: PdsView) -> Fields {
    seq![
        ("id"@, number(p.id as nat)),
        ("version"@, number(p.version as nat)),
        ("entries"@, Json::Array(Seq::new(p.entries.len(), |i: int| entry_tree(p.entries[i])))),
    ]
}

/// The fields of a palette that could not be parsed.
pub open spec fn no_palette_fields() -> Fields {
    seq![("id"@, Json::Null), ("version"@, Json::Null), ("entries"@, Json::Null)]
}

/// The palette that a segment defines.
pub open spec fn palette_trees(s: SegmentView, raw: bool) -> Seq<Tree> {
    if !(s.segment_type is PaletteDefinition) {
        Seq::empty()
    } else {
        match pds_parsed(s.payload) {
            Some(p) => seq![Json::Object(with_payload(palette_fields(p), raw, s.payload))],
            None => if raw {
                seq![Json::Object(with_payload(no_palette_fields(), raw, s.payload))]
            } else {
                Seq::empty()
            },
        }
    }
}

/// The palettes of a display set.
pub open spec fn all_palette_trees(segments: Seq<SegmentView>, raw: bool) -> Seq<Tree>
    decreases segments.len(),
{
    if segments.len() == 0 {
        Seq::empty()
    } else {
        all_palette_trees(segments.drop_last(), raw) + palette_trees(segments.last(), raw)
    }
}

/// The fragments of one object, put together.
#[verifier::ext_equal]
pub struct ObjectView {
    /// The first fragment, unless it could not be parsed.
    pub first: Option<OdsView>,
    /// Whether there is more than one fragment.
    pub reassembled: bool,
    /// The encoded bitmap in all fragments.
    pub rle: Seq<u8>,
    /// The payloads of all fragments.
    pub payload: Seq<u8>,
}

/// The position of the first object with an identifier, from position `i` on.
pub open spec fn object_with_id(objects: Seq<ObjectView>, id: u16, i: int) -> Option<int>
    decreases objects.len() - i,
{
    if !(0 <= i < objects.len()) {
        None
    } else {
        match objects[i].first {
            Some(f) => if f.id == id {
                Some(i)
            } else {
                object_with_id(objects, id, i + 1)
            },
            None => object_with_id(objects, id, i + 1),
        }
    }
}

/// The objects, with what a segment adds to them. A fragment belongs to the
/// object with its identifier. One that could not be parsed is an object of its
/// own, if its payload is wanted.
pub open spec fn with_segment(objects: Seq<ObjectView>, s: SegmentView, raw: bool) -> Seq<
    ObjectView,
> {
    if !(s.segment_type is ObjectDefinition) {
        objects
    } else {
        match ods_parsed(s.payload) {
            Some(f) => match object_with_id(objects, f.id, 0) {
                Some(i) => objects.update(
                    i,
                    ObjectView {
                        first: objects[i].first,
                        reassembled: true,
                        rle: objects[i].rle + f.rle_data,
                        payload: objects[i].payload + s.payload,
                    },
                ),
                None => objects.push(
                    ObjectView {
                        first: Some(f),
                        reassembled: false,
                        rle: f.rle_data,
                        payload: s.payload,
                    },
                ),
            },
            None => if raw {
                objects.push(
                    ObjectView {
                        first: None,
                        reassembled: false,
                        rle: Seq::empty(),
                        payload: s.payload,
                    },
                )
            } else {
                objects
            },
        }
    }
}

/// The objects of a display set, in the order in which they appear.
pub open spec fn objects_of(segments: Seq<SegmentView>, raw: bool) -> Seq<ObjectView>
    decreases segments.len(),
{
    if segments.len() == 0 {
        Seq::empty()
    } else {
        with_segment(objects_of(segments.drop_last(), raw), segments.last(), raw)
    }
}

/// The name of what an object was put together from.
pub open spec fn sequence_text(f: OdsView, reassembled: bool) -> Seq<char> {
    if reassembled {
        "reassembled"@
    } else {
        f.sequence.name()
    }
}

/// Fields, with a dimension if it is known.
pub open spec fn with_dimension(fields: Fields, key: Seq<char>, n: Option<u16>) -> Fields {
    match n {
        Some(v) => fields.push((key, number(v as nat))),
        None => fields,
    }
}

/// The pixels of an object, or null if they cannot be had.
pub open spec fn bitmap_tree(f: OdsView, rle: Seq<u8>) -> Tree {
    match (f.width, f.height) {
        (Some(w), Some(h)) => match decoded(rle, w as nat, h as nat) {
            Some(pixels) => Json::Str(base64_text(pixels)),
            None => Json::Null,
        },
        _ => Json::Null,
    }
}

/// The fields of an object in front of its dimensions.
pub open spec fn object_head_fields(f: OdsView, reassembled: bool) -> Fields {
    seq![
        ("id"@, number(f.id as nat)),
        ("version"@, number(f.version as nat)),
        ("sequence"@, Json::Str(sequence_text(f, reassembled))),
        ("data_length"@, number(f.data_length as nat)),
    ]
}

/// The fields of an object.
pub open spec fn object_fields(f: OdsView, reassembled: bool, rle: Seq<u8>) -> Fields {
    let sized = with_dimension(
        with_dimension(object_head_fields(f, reassembled), "width"@, f.width),
        "height"@,
        f.height,
    );
    sized.push(("bitmap"@, bitmap_tree(f, rle)))
}

/// The fields of an object that could not be parsed.
pub open spec fn no_object_fields() -> Fields {
    seq![
        ("id"@, Json::Null),
        ("version"@, Json::Null),
        ("sequence"@, Json::Null),
        ("data_length"@, Json::Null),
        ("width"@, Json::Null),
        ("height"@, Json::Null),
        ("bitmap"@, Json::Null),
    ]
}

/// An object.
pub open spec fn object_tree(o: ObjectView, raw: bool) -> Tree {
    Json::Object(
        with_payload(
            match o.first {
                Some(f) => object_fields(f, o.reassembled, o.rle),
                None => no_object_fields(),
            },
            raw,
            o.payload,
        ),
    )
}

/// The objects of a display set.
pub open spec fn all_object_trees(segments: Seq<SegmentView>, raw: bool) -> Seq<Tree> {
    let objects = objects_of(segments, raw);
    Seq::new(objects.len(), |i: int| object_tree(objects[i], raw))
}

/// What is said about a display set.
pub open spec fn display_set_tree(
    track_id: u32,
    index: u64,
    ds: DisplaySetView,
    raw: bool,
) -> Tree {
    Json::Object(
        seq![
            ("type"@, Json::Str("display_set"@)),
            ("track_id"@, number(track_id as nat)),
            ("index"@, number(index as nat)),
            ("pts"@, number(ds.pts as nat)),
            ("pts_ms"@, Json::Num(milliseconds(ds.pts))),
            ("composition"@, composition_tree(ds.segments, raw)),
            ("windows"@, Json::Array(all_window_trees(ds.segments, raw))),
            ("palettes"@, Json::Array(all_palette_trees(ds.segments, raw))),
            ("objects"@, Json::Array(all_object_trees(ds.segments, raw))),
        ],
    )
}

/// The name of a container format.
pub fn container_name(c: ContainerFormat) -> (r: &'static str)
    ensures
        r@ == container_text(c),
{
    match c {
        ContainerFormat::Matroska => "Matroska",
        ContainerFormat::M2ts => "M2TS",
        ContainerFormat::TransportStream => "TransportStream",
        ContainerFormat::Sup => "SUP",
    }
}

/// The name of a composition state.
pub fn composition_state_name(cs: CompositionState) -> (r: &'static str)
    ensures
        r@ == state_text(cs),
{
    match cs {
        CompositionState::Normal => "normal",
        CompositionState::AcquisitionPoint => "acquisition_point",
        CompositionState::EpochStart => "epoch_start",
    }
}

type Value = JsonValue<String>;

type Pairs = Vec<(String, JsonValue<String>)>;

fn number_value(n: u64) -> (r: Value)
    ensures
        r.tree() == number(n as nat),
{
    let mut s = String::new();
    push_decimal(&mut s, n);
    assert(s@ =~= decimal(n as nat));
    JsonValue::Num(s)
}

fn text_value(s: &str) -> (r: Value)
    ensures
        r.tree() == Json::<Seq<char>>::Str(s@),
{
    JsonValue::Str(s.to_owned())
}

fn json_string_or_null(s: &Option<String>) -> (r: Value)
    ensures
        r.tree() == string_or_null(text_view(*s)),
{
    match s {
        Some(v) => text_value(v.as_str()),
        None => JsonValue::Null,
    }
}

fn json_bool_or_null(b: Option<bool>) -> (r: Value)
    ensures
        r.tree() == bool_or_null(b),
{
    match b {
        Some(v) => JsonValue::Bool(v),
        None => JsonValue::Null,
    }
}

fn json_u64_or_null(n: Option<u64>) -> (r: Value)
    ensures
        r.tree() == number_or_null(n),
{
    match n {
        Some(v) => number_value(v),
        None => JsonValue::Null,
    }
}

fn no_pairs() -> (r: Pairs)
    ensures
        pair_trees(r@) == Fields::empty(),
{
    let pairs: Pairs = Vec::new();
    assert(pair_trees(pairs@) =~= Fields::empty());
    pairs
}

fn push_pair(pairs: &mut Pairs, key: &str, value: Value)
    ensures
        pair_trees(final(pairs)@) == pair_trees(old(pairs)@).push((key@, value.tree())),
{
    pairs.push((key.to_owned(), value));
    assert(pair_trees(pairs@) =~= pair_trees(old(pairs)@).push((key@, value.tree())));
}

fn push_number(pairs: &mut Pairs, key: &str, n: u64)
    ensures
        pair_trees(final(pairs)@) == pair_trees(old(pairs)@).push((key@, number(n as nat))),
{
    push_pair(pairs, key, number_value(n));
}

fn push_null(pairs: &mut Pairs, key: &str)
    ensures
        pair_trees(final(pairs)@) == pair_trees(old(pairs)@).push((key@, Json::Null)),
{
    push_pair(pairs, key, JsonValue::Null);
}

fn push_payload(pairs: &mut Pairs, raw: bool, payload: &[u8])
    ensures
        pair_trees(final(pairs)@) == with_payload(pair_trees(old(pairs)@), raw, payload@),
{
    if raw {
        push_pair(pairs, "payload", JsonValue::Str(base64_encode(payload)));
    }
}

fn object_value(pairs: Pairs) -> (r: Value)
    ensures
        r.tree() == Json::Object(pair_trees(pairs@)),
{
    proof {
        lemma_object_tree(pairs);
    }
    JsonValue::Object(pairs)
}

fn array_value(items: Vec<Value>) -> (r: Value)
    ensures
        r.tree() == Json::Array(trees(items@)),
{
    proof {
        lemma_array_tree(items);
    }
    JsonValue::Array(items)
}

fn track_value(t: &PgsTrackInfo) -> (r: Value)
    ensures
        r.tree() == track_tree(t@),
{
    let mut pairs = no_pairs();
    push_number(&mut pairs, "track_id", t.track_id as u64);
    push_pair(&mut pairs, "language", json_string_or_null(&t.language));
    push_pair(&mut pairs, "container", text_value(container_name(t.container)));
    push_pair(&mut pairs, "name", json_string_or_null(&t.name));
    push_pair(&mut pairs, "is_default", json_bool_or_null(t.flag_default));
    push_pair(&mut pairs, "is_forced", json_bool_or_null(t.flag_forced));
    push_pair(&mut pairs, "display_set_count", json_u64_or_null(t.display_set_count));
    push_pair(&mut pairs, "indexed", json_bool_or_null(t.has_cues));
    assert(pair_trees(pairs@) =~= track_tree(t@)->Object_0);
    object_value(pairs)
}

/// The line that describes the tracks of a file.
pub fn tracks_line(tracks: &[PgsTrackInfo]) -> (r: String)
    ensures
        r@ == rendered(tracks_tree(info_views(tracks@))),
{
    let mut items: Vec<Value> = Vec::new();
    let ghost views = info_views(tracks@);
    let ghost goal = Seq::new(views.len(), |i: int| track_tree(views[i]));
    let mut i: usize = 0;
    assert(trees(items@) =~= goal.take(0));
    while i < tracks.len()
        invariant
            i <= tracks@.len(),
            views == info_views(tracks@),
            goal == Seq::new(views.len(), |i: int| track_tree(views[i])),
            trees(items@) == goal.take(i as int),
        decreases tracks@.len() - i,
    {
        let value = track_value(&tracks[i]);
        let ghost before = trees(items@);
        items.push(value);
        assert(trees(items@) =~= before.push(value.tree()));
        assert(goal.take(i + 1) =~= goal.take(i as int).push(track_tree(tracks@[i as int]@)));
        i += 1;
    }
    assert(goal.take(i as int) =~= goal);
    let mut pairs = no_pairs();
    push_pair(&mut pairs, "type", text_value("tracks"));
    push_pair(&mut pairs, "tracks", array_value(items));
    assert(pair_trees(pairs@) =~= tracks_tree(views)->Object_0);
    let mut line = String::new();
    push_json(&mut line, &object_value(pairs));
    assert(line@ =~= rendered(tracks_tree(info_views(tracks@))));
    line
}

fn crop_value(crop: &Option<CropInfo>) -> (r: Value)
    ensures
        r.tree() == crop_tree(*crop),
{
    match crop {
        Some(c) => {
            let mut pairs = no_pairs();
            push_number(&mut pairs, "x", c.x as u64);
            push_number(&mut pairs, "y", c.y as u64);
            push_number(&mut pairs, "width", c.width as u64);
            push_number(&mut pairs, "height", c.height as u64);
            assert(pair_trees(pairs@) =~= crop_tree(*crop)->Object_0);
            object_value(pairs)
        },
        None => JsonValue::Null,
    }
}

fn placement_value(o: &CompositionObject) -> (r: Value)
    ensures
        r.tree() == placement_tree(*o),
{
    let mut pairs = no_pairs();
    push_number(&mut pairs, "object_id", o.object_id as u64);
    push_number(&mut pairs, "window_id", o.window_id as u64);
    push_number(&mut pairs, "x", o.x as u64);
    push_number(&mut pairs, "y", o.y as u64);
    push_pair(&mut pairs, "crop", crop_value(&o.crop));
    assert(pair_trees(pairs@) =~= placement_tree(*o)->Object_0);
    object_value(pairs)
}

fn composition_pairs(p: &PcsData) -> (r: Pairs)
    ensures
        pair_trees(r@) == composition_fields(p@),
{
    let mut placements: Vec<Value> = Vec::new();
    let ghost goal = Seq::new(p.objects@.len(), |i: int| placement_tree(p.objects@[i]));
    let mut i: usize = 0;
    assert(trees(placements@) =~= goal.take(0));
    while i < p.objects.len()
        invariant
            i <= p.objects@.len(),
            goal == Seq::new(p.objects@.len(), |i: int| placement_tree(p.objects@[i])),
            trees(placements@) == goal.take(i as int),
        decreases p.objects@.len() - i,
    {
        let value = placement_value(&p.objects[i]);
        let ghost before = trees(placements@);
        placements.push(value);
        assert(trees(placements@) =~= before.push(value.tree()));
        assert(goal.take(i + 1) =~= goal.take(i as int).push(value.tree()));
        i += 1;
    }
    assert(goal.take(i as int) =~= goal);
    let mut pairs = no_pairs();
    push_number(&mut pairs, "number", p.composition_number as u64);
    push_pair(&mut pairs, "state", text_value(composition_state_name(p.composition_state)));
    push_number(&mut pairs, "video_width", p.video_width as u64);
    push_number(&mut pairs, "video_height", p.video_height as u64);
    push_pair(&mut pairs, "palette_only", JsonValue::Bool(p.palette_only));
    push_number(&mut pairs, "palette_id", p.palette_id as u64);
    push_pair(&mut pairs, "objects", array_value(placements));
    pairs
}

fn unparsed_composition_pairs() -> (r: Pairs)
    ensures
        pair_trees(r@) == no_composition_fields(),
{
    let mut pairs = no_pairs();
    push_null(&mut pairs, "number");
    push_null(&mut pairs, "state");
    push_null(&mut pairs, "video_width");
    push_null(&mut pairs, "video_height");
    push_null(&mut pairs, "palette_only");
    push_null(&mut pairs, "palette_id");
    push_null(&mut pairs, "objects");
    pairs
}

/// The composition of a display set.
pub fn write_composition(segments: &[PgsSegment], raw: bool) -> (r: JsonValue<String>)
    ensures
        r.tree() == composition_tree(segment_views(segments@), raw),
{
    let ghost views = segment_views(segments@);
    let mut i: usize = 0;
    assert(views.skip(0) =~= views);
    while i < segments.len()
        invariant
            i <= segments@.len(),
            views == segment_views(segments@),
            first_composition(views) == first_composition(views.skip(i as int)),
        decreases segments@.len() - i,
    {
        let s = &segments[i];
        assert(views.skip(i as int)[0] == s@);
        if s.segment_type == SegmentType::PresentationComposition {
            return match s.parse_pcs() {
                Some(p) => {
                    let mut pairs = composition_pairs(&p);
                    push_payload(&mut pairs, raw, s.payload.as_slice());
                    object_value(pairs)
                },
                None => if raw {
                    let mut pairs = unparsed_composition_pairs();
                    push_payload(&mut pairs, raw, s.payload.as_slice());
                    object_value(pairs)
                } else {
                    JsonValue::Null
                },
            };
        }
        assert(views.skip(i as int).skip(1) =~= views.skip(i + 1));
        i += 1;
    }
    JsonValue::Null
}

fn window_value(w: &WindowDefinition, raw: bool, payload: &[u8]) -> (r: Value)
    ensures
        r.tree() == Json::Object(with_payload(window_fields(*w), raw, payload@)),
{
    let mut pairs = no_pairs();
    push_number(&mut pairs, "id", w.id as u64);
    push_number(&mut pairs, "x", w.x as u64);
    push_number(&mut pairs, "y", w.y as u64);
    push_number(&mut pairs, "width", w.width as u64);
    push_number(&mut pairs, "height", w.height as u64);
    assert(pair_trees(pairs@) =~= window_fields(*w));
    push_payload(&mut pairs, raw, payload);
    object_value(pairs)
}

fn unparsed_window_value(raw: bool, payload: &[u8]) -> (r: Value)
    ensures
        r.tree() == Json::Object(with_payload(no_window_fields(), raw, payload@)),
{
    let mut pairs = no_pairs();
    push_null(&mut pairs, "id");
    push_null(&mut pairs, "x");
    push_null(&mut pairs, "y");
    push_null(&mut pairs, "width");
    push_null(&mut pairs, "height");
    assert(pair_trees(pairs@) =~= no_window_fields());
    push_payload(&mut pairs, raw, payload);
    object_value(pairs)
}

fn push_windows(items: &mut Vec<Value>, s: &PgsSegment, raw: bool)
    ensures
        trees(final(items)@) == trees(old(items)@) + window_trees(s@, raw),
{
    let ghost before = trees(items@);
    if s.segment_type == SegmentType::WindowDefinition {
        match s.parse_wds() {
            Some(wds) => {
                let ghost goal = window_trees(s@, raw);
                let mut i: usize = 0;
                assert(before + goal.take(0) =~= before);
                while i < wds.windows.len()
                    invariant
                        i <= wds.windows@.len() == goal.len(),
                        goal == Seq::new(
                            wds.windows@.len(),
                            |i: int|
                                Json::Object(
                                    with_payload(
                                        window_fields(wds.windows@[i]),
                                        raw,
                                        s.payload@,
                                    ),
                                ),
                        ),
                        trees(items@) == before + goal.take(i as int),
                    decreases wds.windows@.len() - i,
                {
                    let value = window_value(&wds.windows[i], raw, s.payload.as_slice());
                    let ghost some = trees(items@);
                    items.push(value);
                    assert(trees(items@) =~= some.push(value.tree()));
                    assert(before + goal.take(i + 1) =~= some.push(value.tree()));
                    i += 1;
                }
                assert(goal.take(i as int) =~= goal);
            },
            None => {
                if raw {
                    let value = unparsed_window_value(raw, s.payload.as_slice());
                    items.push(value);
                    assert(trees(items@) =~= before.push(value.tree()));
                    assert(before.push(value.tree()) =~= before + window_trees(s@, raw));
                } else {
                    assert(trees(items@) =~= before + window_trees(s@, raw));
                }
            },
        }
    } else {
        assert(trees(items@) =~= before + window_trees(s@, raw));
    }
}

/// The windows of a display set.
pub fn write_windows(segments: &[PgsSegment], raw: bool) -> (r: JsonValue<String>)
    ensures
        r.tree() == Json::Array(all_window_trees(segment_views(segments@), raw)),
{
    let ghost views = segment_views(segments@);
    let mut items: Vec<Value> = Vec::new();
    let mut i: usize = 0;
    assert(trees(items@) =~= all_window_trees(views.take(0), raw));
    while i < segments.len()
        invariant
            i <= segments@.len(),
            views == segment_views(segments@),
            trees(items@) == all_window_trees(views.take(i as int), raw),
        decreases segments@.len() - i,
    {
        push_windows(&mut items, &segments[i], raw);
        assert(views.take(i + 1).drop_last() =~= views.take(i as int));
        i += 1;
    }
    assert(views.take(i as int) =~= views);
    array_value(items)
}

fn entry_value(e: &PaletteEntry) -> (r: Value)
    ensures
        r.tree() == entry_tree(*e),
{
    let mut pairs = no_pairs();
    push_number(&mut pairs, "id", e.id as u64);
    push_number(&mut pairs, "luminance", e.luminance as u64);
    push_number(&mut pairs, "cr", e.cr as u64);
    push_number(&mut pairs, "cb", e.cb as u64);
    push_number(&mut pairs, "alpha", e.alpha as u64);
    assert(pair_trees(pairs@) =~= entry_tree(*e)->Object_0);
    object_value(pairs)
}

fn palette_pairs(p: &PdsData) -> (r: Pairs)
    ensures
        pair_trees(r@) == palette_fields(p@),
{
    let mut entries: Vec<Value> = Vec::new();
    let ghost goal = Seq::new(p.entries@.len(), |i: int| entry_tree(p.entries@[i]));
    let mut i: usize = 0;
    assert(trees(entries@) =~= goal.take(0));
    while i < p.entries.len()
        invariant
            i <= p.entries@.len(),
            goal == Seq::new(p.entries@.len(), |i: int| entry_tree(p.entries@[i])),
            trees(entries@) == goal.take(i as int),
        decreases p.entries@.len() - i,
    {
        let value = entry_value(&p.entries[i]);
        let ghost before = trees(entries@);
        entries.push(value);
        assert(trees(entries@) =~= before.push(value.tree()));
        assert(goal.take(i + 1) =~= goal.take(i as int).push(value.tree()));
        i += 1;
    }
    assert(goal.take(i as int) =~= goal);
    let mut pairs = no_pairs();
    push_number(&mut pairs, "id", p.id as u64);
    push_number(&mut pairs, "version", p.version as u64);
    push_pair(&mut pairs, "entries", array_value(entries));
    pairs
}

fn unparsed_palette_pairs() -> (r: Pairs)
    ensures
        pair_trees(r@) == no_palette_fields(),
{
    let mut pairs = no_pairs();
    push_null(&mut pairs, "id");
    push_null(&mut pairs, "version");
    push_null(&mut pairs, "entries");
    pairs
}

fn push_palette(items: &mut Vec<Value>, s: &PgsSegment, raw: bool)
    ensures
        trees(final(items)@) == trees(old(items)@) + palette_trees(s@, raw),
{
    let ghost before = trees(items@);
    if s.segment_type == SegmentType::PaletteDefinition {
        let parsed = s.parse_pds();
        if parsed.is_some() || raw {
            let mut pairs = match &parsed {
                Some(p) => palette_pairs(p),
                None => unparsed_palette_pairs(),
            };
            push_payload(&mut pairs, raw, s.payload.as_slice());
            let value = object_value(pairs);
            items.push(value);
            assert(trees(items@) =~= before.push(value.tree()));
            assert(before.push(value.tree()) =~= before + palette_trees(s@, raw));
            return ;
        }
    }
    assert(trees(items@) =~= before + palette_trees(s@, raw));
}

/// The palettes of a display set.
pub fn write_palettes(segments: &[PgsSegment], raw: bool) -> (r: JsonValue<String>)
    ensures
        r.tree() == Json::Array(all_palette_trees(segment_views(segments@), raw)),
{
    let ghost views = segment_views(segments@);
    let mut items: Vec<Value> = Vec::new();
    let mut i: usize = 0;
    assert(trees(items@) =~= all_palette_trees(views.take(0), raw));
    while i < segments.len()
        invariant
            i <= segments@.len(),
            views == segment_views(segments@),
            trees(items@) == all_palette_trees(views.take(i as int), raw),
        decreases segments@.len() - i,
    {
        push_palette(&mut items, &segments[i], raw);
        assert(views.take(i + 1).drop_last() =~= views.take(i as int));
        i += 1;
    }
    assert(views.take(i as int) =~= views);
    array_value(items)
}

/// The fragments of one object, put together.
struct ObjectParts {
    first: Option<OdsData>,
    reassembled: bool,
    rle: Vec<u8>,
    payload: Vec<u8>,
}

impl View for ObjectParts {
    type V = ObjectView;

    closed spec fn view(&self) -> ObjectView {
        ObjectView {
            first: match self.first {
                Some(f) => Some(f@),
                None => None,
            },
            reassembled: self.reassembled,
            rle: self.rle@,
            payload: self.payload@,
        }
    }
}

closed spec fn object_views(objects: Seq<ObjectParts>) -> Seq<ObjectView> {
    Seq::new(objects.len(), |i: int| objects[i]@)
}

fn find_object(objects: &[ObjectParts], id: u16) -> (r: Option<usize>)
    ensures
        match (r, object_with_id(object_views(objects@), id, 0)) {
            (Some(i), Some(k)) => i == k && i < objects@.len(),
            (None, None) => true,
            _ => false,
        },
{
    let ghost views = object_views(objects@);
    let mut i: usize = 0;
    while i < objects.len()
        invariant
            i <= objects@.len(),
            views == object_views(objects@),
            object_with_id(views, id, 0) == object_with_id(views, id, i as int),
        decreases objects@.len() - i,
    {
        assert(views[i as int] == objects@[i as int]@);
        if let Some(f) = &objects[i].first {
            if f.id == id {
                return Some(i);
            }
        }
        i += 1;
    }
    None
}

fn add_segment(objects: &mut Vec<ObjectParts>, s: &PgsSegment, raw: bool)
    ensures
        object_views(final(objects)@) == with_segment(object_views(old(objects)@), s@, raw),
{
    let ghost before = object_views(objects@);
    if s.segment_type != SegmentType::ObjectDefinition {
        return ;
    }
    let mut payload: Vec<u8> = Vec::new();
    let all: &[u8] = s.payload.as_slice();
    push_range(&mut payload, all, 0, all.len());
    assert(payload@ =~= s.payload@);
    match s.parse_ods() {
        Some(f) => match find_object(objects.as_slice(), f.id) {
            Some(i) => {
                let part: &[u8] = f.rle_data.as_slice();
                push_range(&mut objects[i].rle, part, 0, part.len());
                push_range(&mut objects[i].payload, all, 0, all.len());
                objects[i].reassembled = true;
                proof {
                    let rle = old(objects)@[i as int].rle@;
                    assert(objects@[i as int].rle@ =~= rle + f.rle_data@);
                    assert(objects@[i as int].payload@ =~= old(objects)@[i as int].payload@
                        + s.payload@);
                    assert(object_views(objects@) =~= with_segment(before, s@, raw));
                }
            },
            None => {
                let mut rle: Vec<u8> = Vec::new();
                let part: &[u8] = f.rle_data.as_slice();
                push_range(&mut rle, part, 0, part.len());
                assert(rle@ =~= f.rle_data@);
                objects.push(ObjectParts { first: Some(f), reassembled: false, rle, payload });
                assert(object_views(objects@) =~= with_segment(before, s@, raw));
            },
        },
        None => {
            if raw {
                objects.push(
                    ObjectParts { first: None, reassembled: false, rle: Vec::new(), payload },
                );
                assert(object_views(objects@) =~= with_segment(before, s@, raw));
            }
        },
    }
}

fn bitmap_value(f: &OdsData, rle: &[u8]) -> (r: Value)
    ensures
        r.tree() == bitmap_tree(f@, rle@),
{
    match (f.width, f.height) {
        (Some(w), Some(h)) => match decode_rle(rle, w, h) {
            Some(pixels) => JsonValue::Str(base64_encode(pixels.as_slice())),
            None => JsonValue::Null,
        },
        _ => JsonValue::Null,
    }
}

fn object_pairs(f: &OdsData, reassembled: bool, rle: &[u8]) -> (r: Pairs)
    ensures
        pair_trees(r@) == object_fields(f@, reassembled, rle@),
{
    let mut pairs = no_pairs();
    push_number(&mut pairs, "id", f.id as u64);
    push_number(&mut pairs, "version", f.version as u64);
    let sequence = if reassembled {
        "reassembled"
    } else {
        f.sequence.as_str()
    };
    push_pair(&mut pairs, "sequence", text_value(sequence));
    push_number(&mut pairs, "data_length", f.data_length as u64);
    assert(pair_trees(pairs@) =~= object_head_fields(f@, reassembled));
    if let Some(w) = f.width {
        push_number(&mut pairs, "width", w as u64);
    }
    if let Some(h) = f.height {
        push_number(&mut pairs, "height", h as u64);
    }
    push_pair(&mut pairs, "bitmap", bitmap_value(f, rle));
    pairs
}

fn unparsed_object_pairs() -> (r: Pairs)
    ensures
        pair_trees(r@) == no_object_fields(),
{
    let mut pairs = no_pairs();
    push_null(&mut pairs, "id");
    push_null(&mut pairs, "version");
    push_null(&mut pairs, "sequence");
    push_null(&mut pairs, "data_length");
    push_null(&mut pairs, "width");
    push_null(&mut pairs, "height");
    push_null(&mut pairs, "bitmap");
    pairs
}

/// The objects of a display set.
pub fn write_objects(segments: &[PgsSegment], raw: bool) -> (r: JsonValue<String>)
    ensures
        r.tree() == Json::Array(all_object_trees(segment_views(segments@), raw)),
{
    let ghost views = segment_views(segments@);
    let mut objects: Vec<ObjectParts> = Vec::new();
    let mut i: usize = 0;
    assert(object_views(objects@) =~= objects_of(views.take(0), raw));
    while i < segments.len()
        invariant
            i <= segments@.len(),
            views == segment_views(segments@),
            object_views(objects@) == objects_of(views.take(i as int), raw),
        decreases segments@.len() - i,
    {
        add_segment(&mut objects, &segments[i], raw);
        assert(views.take(i + 1).drop_last() =~= views.take(i as int));
        i += 1;
    }
    assert(views.take(i as int) =~= views);
    let ghost goal = all_object_trees(views, raw);
    let mut items: Vec<Value> = Vec::new();
    let mut k: usize = 0;
    assert(trees(items@) =~= goal.take(0));
    while k < objects.len()
        invariant
            k <= objects@.len() == goal.len(),
            goal == Seq::new(objects@.len(), |i: int| object_tree(object_views(objects@)[i], raw)),
            trees(items@) == goal.take(k as int),
        decreases objects@.len() - k,
    {
        let o = &objects[k];
        assert(object_views(objects@)[k as int] == o@);
        let mut pairs = match &o.first {
            Some(f) => object_pairs(f, o.reassembled, o.rle.as_slice()),
            None => unparsed_object_pairs(),
        };
        push_payload(&mut pairs, raw, o.payload.as_slice());
        let value = object_value(pairs);
        let ghost before = trees(items@);
        items.push(value);
        assert(trees(items@) =~= before.push(value.tree()));
        assert(goal.take(k + 1) =~= goal.take(k as int).push(object_tree(o@, raw)));
        k += 1;
    }
    assert(goal.take(k as int) =~= goal);
    array_value(items)
}

fn milliseconds_value(pts: u64) -> (r: Value)
    ensures
        r.tree() == Json::Num(milliseconds(pts)),
{
    let parts: u64 = (pts % 90 * 1000 + 4) / 9;
    let mut s = String::new();
    push_decimal(&mut s, pts / 90);
    s.push('.');
    s.push((48u8 + (parts / 1000) as u8) as char);
    s.push((48u8 + (parts / 100 % 10) as u8) as char);
    s.push((48u8 + (parts / 10 % 10) as u8) as char);
    s.push((48u8 + (parts % 10) as u8) as char);
    assert(s@ =~= milliseconds(pts));
    JsonValue::Num(s)
}

/// The line that describes a display set.
pub fn display_set_line(track_id: u32, index: u64, ds: &DisplaySet, raw: bool) -> (r: String)
    ensures
        r@ == rendered(display_set_tree(track_id, index, ds@, raw)),
{
    let segments = ds.segments.as_slice();
    let mut pairs = no_pairs();
    push_pair(&mut pairs, "type", text_value("display_set"));
    push_number(&mut pairs, "track_id", track_id as u64);
    push_number(&mut pairs, "index", index);
    push_number(&mut pairs, "pts", ds.pts);
    push_pair(&mut pairs, "pts_ms", milliseconds_value(ds.pts));
    push_pair(&mut pairs, "composition", write_composition(segments, raw));
    push_pair(&mut pairs, "windows", write_windows(segments, raw));
    push_pair(&mut pairs, "palettes", write_palettes(segments, raw));
    push_pair(&mut pairs, "objects", write_objects(segments, raw));
    assert(pair_trees(pairs@) =~= display_set_tree(track_id, index, ds@, raw)->Object_0);
    let mut line = String::new();
    push_json(&mut line, &object_value(pairs));
    assert(line@ =~= rendered(display_set_tree(track_id, index, ds@, raw)));
    line
}

} // verus!
