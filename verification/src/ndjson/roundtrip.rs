//! What is streamed as JSON can be encoded again.
use vstd::prelude::*;
use crate::error::ErrorView;
use crate::ndjson::base64::base64_decode_of_encode;
use crate::ndjson::encode::{
    bitmaps_of, builder_of, composition_of, crop_of, entries_of, entry_of, items_of, line_of,
    object_of, palette_of, palette_only_of, palettes_of, placement_of, placements_of, pts_of_line,
    required_u16, required_u8, state_name_is_read_back, state_of, track_of_line, window_of,
    windows_of, LineView, Read,
};
use crate::ndjson::json::{field, first_with_key, Json, Number};
use crate::ndjson::lines::{
    all_object_trees, all_palette_trees, all_window_trees, composition_fields, composition_tree,
    crop_tree, display_set_tree, entry_tree, first_composition, number, object_tree, objects_of,
    palette_fields, palette_trees, placement_tree, state_text, window_fields, window_trees,
    with_payload, Fields, ObjectView, Tree,
};
use crate::pgs::display_set::{
    bitmap_regular, built, first_irregular, BitmapView, BuilderView, DisplaySetView,
};
use crate::pgs::payload::{
    pcs_parsed, pds_parsed, wds_parsed, CompositionObject, PaletteEntry, PcsView, PdsView,
    WindowDefinition,
};
use crate::pgs::rle::{decoded, decoded_size};
use crate::pgs::segment::{SegmentType, SegmentView};
use crate::text::decimal;

verus! {

/// A way to read numbers.
pub type Reading = spec_fn(Seq<char>) -> Number;

/// The largest integer up to which a reading of numbers has to be exact.
pub const EXACT_LIMIT: u64 = 0x20_0000_0000_0000;

/// Whether integers up to the limit are read as what they are.
pub open spec fn reads_integers(f: Reading) -> bool {
    forall|n: nat| n <= EXACT_LIMIT ==> (#[trigger] f(decimal(n))).whole == n
}

/// A JSON value with its numbers read.
pub open spec fn numbered(t: Tree, f: Reading) -> Read
    decreases t,
{
    match t {
        Json::Null => Json::Null,
        Json::Bool(b) => Json::Bool(b),
        Json::Str(s) => Json::Str(s),
        Json::Num(n) => Json::Num(f(n)),
        Json::Array(items) => Json::Array(
            Seq::new(
                items.len(),
                |i: int|
                    if 0 <= i < items.len() {
                        numbered(items[i], f)
                    } else {
                        Json::Null
                    },
            ),
        ),
        Json::Object(pairs) => Json::Object(
            Seq::new(
                pairs.len(),
                |i: int|
                    if 0 <= i < pairs.len() {
                        (pairs[i].0, numbered(pairs[i].1, f))
                    } else {
                        (Seq::empty(), Json::Null)
                    },
            ),
        ),
    }
}

/// JSON values with their numbers read.
pub open spec fn all_numbered(items: Seq<Tree>, f: Reading) -> Seq<Read> {
    Seq::new(items.len(), |i: int| numbered(items[i], f))
}

proof fn lemma_numbered_array(items: Seq<Tree>, f: Reading)
    ensures
        numbered(Json::Array(items), f) == Json::Array(all_numbered(items, f)),
{
    assert(numbered(Json::Array(items), f)->Array_0 =~= all_numbered(items, f));
}

/// Whether a key stands at a position and at none before it.
pub open spec fn first_at<N>(pairs: Seq<(Seq<char>, Json<N>)>, i: int, key: Seq<char>) -> bool {
    &&& 0 <= i < pairs.len()
    &&& pairs[i].0 == key
    &&& forall|j: int| 0 <= j < i ==> (#[trigger] pairs[j]).0 != key
}

proof fn lemma_first_with_key<N>(pairs: Seq<(Seq<char>, Json<N>)>, i: int, key: Seq<char>)
    requires
        first_at(pairs, i, key),
    ensures
        first_with_key(pairs, key) == Some(pairs[i].1),
    decreases pairs.len(),
{
    if i > 0 {
        assert(pairs[0].0 != key);
        assert forall|j: int| 0 <= j < i - 1 implies (#[trigger] pairs.skip(1)[j]).0 != key by {
            assert(pairs.skip(1)[j] == pairs[j + 1]);
        }
        lemma_first_with_key(pairs.skip(1), i - 1, key);
    }
}

/// A field whose key stands at a position and at none before it.
proof fn lemma_field(fields: Fields, i: int, key: Seq<char>, f: Reading)
    requires
        first_at(fields, i, key),
    ensures
        field(numbered(Json::Object(fields), f), key) == Some(numbered(fields[i].1, f)),
{
    let pairs = numbered(Json::Object(fields), f)->Object_0;
    assert forall|j: int| 0 <= j < i implies (#[trigger] pairs[j]).0 != key by {
        assert(fields[j].0 != key);
    }
    lemma_first_with_key(pairs, i, key);
}

/// A field that holds an integer.
proof fn lemma_number_field(fields: Fields, i: int, key: Seq<char>, n: nat, line: u64, f: Reading)
    requires
        first_at(fields, i, key),
        fields[i].1 == number(n),
        n <= 0xFFFF,
        reads_integers(f),
    ensures
        required_u16(numbered(Json::Object(fields), f), key, line) == Ok::<u16, Seq<char>>(
            n as u16,
        ),
        n <= 0xFF ==> required_u8(numbered(Json::Object(fields), f), key, line) == Ok::<
            u8,
            Seq<char>,
        >(n as u8),
{
    lemma_field(fields, i, key, f);
    assert(f(decimal(n)).whole == n);
}

pub(crate) proof fn lemma_keys()
    ensures
        "x"@.len() == 1,
        "y"@.len() == 1,
        "id"@.len() == 2,
        "cr"@.len() == 2,
        "cb"@.len() == 2,
        "crop"@.len() == 4,
        "type"@.len() == 4,
        "pts"@.len() == 3,
        "index"@.len() == 5,
        "state"@.len() == 5,
        "alpha"@.len() == 5,
        "width"@.len() == 5,
        "number"@.len() == 6,
        "height"@.len() == 6,
        "pts_ms"@.len() == 6,
        "bitmap"@.len() == 6,
        "tracks"@.len() == 6,
        "version"@.len() == 7,
        "entries"@.len() == 7,
        "windows"@.len() == 7,
        "objects"@.len() == 7,
        "sequence"@.len() == 8,
        "track_id"@.len() == 8,
        "palettes"@.len() == 8,
        "object_id"@.len() == 9,
        "window_id"@.len() == 9,
        "luminance"@.len() == 9,
        "palette_id"@.len() == 10,
        "composition"@.len() == 11,
        "video_width"@.len() == 11,
        "data_length"@.len() == 11,
        "display_set"@.len() == 11,
        "video_height"@.len() == 12,
        "palette_only"@.len() == 12,
        "x"@ != "y"@,
        "id"@ != "cr"@,
        "id"@ != "cb"@,
        "cr"@ != "cb"@,
        "track_id"@ != "palettes"@,
        "windows"@ != "objects"@,
        "video_height"@ != "palette_only"@,
        "object_id"@ != "window_id"@,
        "height"@ != "bitmap"@,
        "version"@ != "entries"@,
{
    reveal_strlit("x");
    reveal_strlit("y");
    reveal_strlit("id");
    reveal_strlit("cr");
    reveal_strlit("cb");
    reveal_strlit("crop");
    reveal_strlit("type");
    reveal_strlit("pts");
    reveal_strlit("index");
    reveal_strlit("state");
    reveal_strlit("alpha");
    reveal_strlit("width");
    reveal_strlit("number");
    reveal_strlit("height");
    reveal_strlit("pts_ms");
    reveal_strlit("bitmap");
    reveal_strlit("tracks");
    reveal_strlit("version");
    reveal_strlit("entries");
    reveal_strlit("windows");
    reveal_strlit("objects");
    reveal_strlit("sequence");
    reveal_strlit("track_id");
    reveal_strlit("palettes");
    reveal_strlit("object_id");
    reveal_strlit("window_id");
    reveal_strlit("luminance");
    reveal_strlit("palette_id");
    reveal_strlit("composition");
    reveal_strlit("video_width");
    reveal_strlit("data_length");
    reveal_strlit("display_set");
    reveal_strlit("video_height");
    reveal_strlit("palette_only");
    assert("x"@[0] != "y"@[0]);
    assert("id"@[0] != "cr"@[0]);
    assert("id"@[0] != "cb"@[0]);
    assert("cr"@[1] != "cb"@[1]);
    assert("track_id"@[0] != "palettes"@[0]);
    assert("windows"@[0] != "objects"@[0]);
    assert("video_height"@[0] != "palette_only"@[0]);
    assert("object_id"@[0] != "window_id"@[0]);
    assert("height"@[0] != "bitmap"@[0]);
    assert("version"@[0] != "entries"@[0]);
}

proof fn lemma_window(w: WindowDefinition, raw: bool, payload: Seq<u8>, line: u64, f: Reading)
    requires
        reads_integers(f),
    ensures
        window_of(
            numbered(Json::Object(with_payload(window_fields(w), raw, payload)), f),
            line,
        ) == Ok::<WindowDefinition, Seq<char>>(w),
{
    lemma_keys();
    let fields = with_payload(window_fields(w), raw, payload);
    lemma_number_field(fields, 0, "id"@, w.id as nat, line, f);
    lemma_number_field(fields, 1, "x"@, w.x as nat, line, f);
    lemma_number_field(fields, 2, "y"@, w.y as nat, line, f);
    lemma_number_field(fields, 3, "width"@, w.width as nat, line, f);
    lemma_number_field(fields, 4, "height"@, w.height as nat, line, f);
}

proof fn lemma_entry(e: PaletteEntry, line: u64, f: Reading)
    requires
        reads_integers(f),
    ensures
        entry_of(numbered(entry_tree(e), f), line) == Ok::<PaletteEntry, Seq<char>>(e),
{
    lemma_keys();
    let fields = entry_tree(e)->Object_0;
    lemma_number_field(fields, 0, "id"@, e.id as nat, line, f);
    lemma_number_field(fields, 1, "luminance"@, e.luminance as nat, line, f);
    lemma_number_field(fields, 2, "cr"@, e.cr as nat, line, f);
    lemma_number_field(fields, 3, "cb"@, e.cb as nat, line, f);
    lemma_number_field(fields, 4, "alpha"@, e.alpha as nat, line, f);
}

proof fn lemma_entries(entries: Seq<PaletteEntry>, items: Seq<Tree>, line: u64, f: Reading)
    requires
        reads_integers(f),
        items == Seq::new(entries.len(), |i: int| entry_tree(entries[i])),
    ensures
        entries_of(all_numbered(items, f), line) == Ok::<Seq<PaletteEntry>, Seq<char>>(entries),
    decreases entries.len(),
{
    let all = all_numbered(items, f);
    if entries.len() == 0 {
        assert(entries =~= Seq::empty());
    } else {
        let fewer = entries.drop_last();
        let some = Seq::new(fewer.len(), |i: int| entry_tree(fewer[i]));
        assert(all.drop_last() =~= all_numbered(some, f));
        lemma_entries(fewer, some, line, f);
        lemma_entry(entries.last(), line, f);
        assert(fewer.push(entries.last()) =~= entries);
    }
}

proof fn lemma_palette(p: PdsView, raw: bool, payload: Seq<u8>, line: u64, f: Reading)
    requires
        reads_integers(f),
    ensures
        palette_of(
            numbered(Json::Object(with_payload(palette_fields(p), raw, payload)), f),
            line,
        ) == Ok::<PdsView, Seq<char>>(p),
{
    lemma_keys();
    let fields = with_payload(palette_fields(p), raw, payload);
    let items = Seq::new(p.entries.len(), |i: int| entry_tree(p.entries[i]));
    lemma_number_field(fields, 0, "id"@, p.id as nat, line, f);
    lemma_number_field(fields, 1, "version"@, p.version as nat, line, f);
    lemma_field(fields, 2, "entries"@, f);
    lemma_numbered_array(items, f);
    lemma_entries(p.entries, items, line, f);
}

proof fn lemma_crop(o: CompositionObject, fields: Fields, line: u64, f: Reading)
    requires
        reads_integers(f),
        first_at(fields, 4, "crop"@),
        fields[4].1 == crop_tree(o.crop),
    ensures
        crop_of(numbered(Json::Object(fields), f), line) == Ok::<_, Seq<char>>(o.crop),
{
    lemma_field(fields, 4, "crop"@, f);
    if let Some(c) = o.crop {
        lemma_keys();
        let inner = crop_tree(o.crop)->Object_0;
        lemma_number_field(inner, 0, "x"@, c.x as nat, line, f);
        lemma_number_field(inner, 1, "y"@, c.y as nat, line, f);
        lemma_number_field(inner, 2, "width"@, c.width as nat, line, f);
        lemma_number_field(inner, 3, "height"@, c.height as nat, line, f);
    }
}

proof fn lemma_placement(o: CompositionObject, line: u64, f: Reading)
    requires
        reads_integers(f),
    ensures
        placement_of(numbered(placement_tree(o), f), line) == Ok::<CompositionObject, Seq<char>>(o),
{
    lemma_keys();
    let fields = placement_tree(o)->Object_0;
    assert(fields[0].0 == "object_id"@ && fields[1].0 == "window_id"@ && fields[2].0 == "x"@
        && fields[3].0 == "y"@ && fields[4].0 == "crop"@);
    lemma_number_field(fields, 0, "object_id"@, o.object_id as nat, line, f);
    lemma_number_field(fields, 1, "window_id"@, o.window_id as nat, line, f);
    lemma_number_field(fields, 2, "x"@, o.x as nat, line, f);
    lemma_number_field(fields, 3, "y"@, o.y as nat, line, f);
    lemma_crop(o, fields, line, f);
}

proof fn lemma_placements(
    objects: Seq<CompositionObject>,
    items: Seq<Tree>,
    line: u64,
    f: Reading,
)
    requires
        reads_integers(f),
        items == Seq::new(objects.len(), |i: int| placement_tree(objects[i])),
    ensures
        placements_of(all_numbered(items, f), line) == Ok::<Seq<CompositionObject>, Seq<char>>(
            objects,
        ),
    decreases objects.len(),
{
    let all = all_numbered(items, f);
    if objects.len() == 0 {
        assert(objects =~= Seq::empty());
    } else {
        let fewer = objects.drop_last();
        let some = Seq::new(fewer.len(), |i: int| placement_tree(fewer[i]));
        assert(all.drop_last() =~= all_numbered(some, f));
        lemma_placements(fewer, some, line, f);
        lemma_placement(objects.last(), line, f);
        assert(fewer.push(objects.last()) =~= objects);
    }
}

proof fn lemma_composition(p: PcsView, raw: bool, payload: Seq<u8>, line: u64, f: Reading)
    requires
        reads_integers(f),
    ensures
        composition_of(
            numbered(Json::Object(with_payload(composition_fields(p), raw, payload)), f),
            line,
        ) == Ok::<PcsView, Seq<char>>(p),
{
    lemma_keys();
    let fields = with_payload(composition_fields(p), raw, payload);
    let items = Seq::new(p.objects.len(), |i: int| placement_tree(p.objects[i]));
    assert(fields[0].0 == "number"@ && fields[1].0 == "state"@ && fields[2].0 == "video_width"@
        && fields[3].0 == "video_height"@ && fields[4].0 == "palette_only"@ && fields[5].0
        == "palette_id"@ && fields[6].0 == "objects"@);
    lemma_number_field(fields, 0, "number"@, p.composition_number as nat, line, f);
    lemma_field(fields, 1, "state"@, f);
    lemma_number_field(fields, 2, "video_width"@, p.video_width as nat, line, f);
    lemma_number_field(fields, 3, "video_height"@, p.video_height as nat, line, f);
    lemma_field(fields, 4, "palette_only"@, f);
    lemma_number_field(fields, 5, "palette_id"@, p.palette_id as nat, line, f);
    lemma_field(fields, 6, "objects"@, f);
    assert(fields[6].1->Array_0 =~= items);
    lemma_numbered_array(items, f);
    lemma_placements(p.objects, items, line, f);
    state_name_is_read_back(p.composition_state);
    let j = numbered(Json::Object(fields), f);
    assert(field(j, "state"@) == Some(Json::<Number>::Str(state_text(p.composition_state))));
    assert(state_of(j, line) == Ok::<_, Seq<char>>(p.composition_state));
    assert(palette_only_of(j, line) == Ok::<_, Seq<char>>(p.palette_only));
    assert(items_of(j, "objects"@) == all_numbered(items, f));
}

/// The windows that a segment defines.
pub open spec fn windows_at(s: SegmentView) -> Seq<WindowDefinition> {
    match (s.segment_type, wds_parsed(s.payload)) {
        (SegmentType::WindowDefinition, Some(windows)) => windows,
        _ => Seq::empty(),
    }
}

/// The windows that segments define.
pub open spec fn windows_in(segments: Seq<SegmentView>) -> Seq<WindowDefinition>
    decreases segments.len(),
{
    if segments.len() == 0 {
        Seq::empty()
    } else {
        windows_in(segments.drop_last()) + windows_at(segments.last())
    }
}

/// The palette that a segment defines.
pub open spec fn palettes_at(s: SegmentView) -> Seq<PdsView> {
    match (s.segment_type, pds_parsed(s.payload)) {
        (SegmentType::PaletteDefinition, Some(p)) => seq![p],
        _ => Seq::empty(),
    }
}

/// The palettes that segments define.
pub open spec fn palettes_in(segments: Seq<SegmentView>) -> Seq<PdsView>
    decreases segments.len(),
{
    if segments.len() == 0 {
        Seq::empty()
    } else {
        palettes_in(segments.drop_last()) + palettes_at(segments.last())
    }
}

/// Whether a segment's payload can be parsed.
pub open spec fn is_parsed(s: SegmentView) -> bool {
    match s.segment_type {
        SegmentType::WindowDefinition => wds_parsed(s.payload) is Some,
        SegmentType::PaletteDefinition => pds_parsed(s.payload) is Some,
        _ => true,
    }
}

proof fn lemma_windows_append(a: Seq<Read>, b: Seq<Read>, line: u64)
    requires
        windows_of(a, line) is Ok,
        windows_of(b, line) is Ok,
    ensures
        windows_of(a + b, line) == Ok::<Seq<WindowDefinition>, Seq<char>>(
            windows_of(a, line)->Ok_0 + windows_of(b, line)->Ok_0,
        ),
    decreases b.len(),
{
    if b.len() == 0 {
        assert(a + b =~= a);
        assert(windows_of(a, line)->Ok_0 + windows_of(b, line)->Ok_0 =~= windows_of(a, line)->Ok_0);
    } else {
        lemma_windows_append(a, b.drop_last(), line);
        assert((a + b).drop_last() =~= a + b.drop_last());
        assert(windows_of(a, line)->Ok_0 + windows_of(b, line)->Ok_0 =~= (windows_of(a, line)->Ok_0
            + windows_of(b.drop_last(), line)->Ok_0).push(window_of(b.last(), line)->Ok_0));
    }
}

proof fn lemma_windows_from(
    windows: Seq<WindowDefinition>,
    raw: bool,
    payload: Seq<u8>,
    items: Seq<Tree>,
    line: u64,
    f: Reading,
)
    requires
        reads_integers(f),
        items.len() == windows.len(),
        forall|i: int|
            0 <= i < items.len() ==> #[trigger] items[i] == Json::Object(
                with_payload(window_fields(windows[i]), raw, payload),
            ),
    ensures
        windows_of(all_numbered(items, f), line) == Ok::<Seq<WindowDefinition>, Seq<char>>(windows),
    decreases windows.len(),
{
    let all = all_numbered(items, f);
    if windows.len() == 0 {
        assert(windows =~= Seq::empty());
    } else {
        let fewer = windows.drop_last();
        assert(all.drop_last() =~= all_numbered(items.drop_last(), f));
        lemma_windows_from(fewer, raw, payload, items.drop_last(), line, f);
        assert(items.last() == items[items.len() - 1]);
        lemma_window(windows.last(), raw, payload, line, f);
        assert(fewer.push(windows.last()) =~= windows);
    }
}

proof fn lemma_all_windows(segments: Seq<SegmentView>, raw: bool, line: u64, f: Reading)
    requires
        reads_integers(f),
        raw ==> forall|i: int| 0 <= i < segments.len() ==> is_parsed(#[trigger] segments[i]),
    ensures
        windows_of(all_numbered(all_window_trees(segments, raw), f), line) == Ok::<
            Seq<WindowDefinition>,
            Seq<char>,
        >(windows_in(segments)),
    decreases segments.len(),
{
    if segments.len() > 0 {
        let before = all_window_trees(segments.drop_last(), raw);
        let s = segments.last();
        let items = window_trees(s, raw);
        lemma_all_windows(segments.drop_last(), raw, line, f);
        assert(raw ==> is_parsed(segments[segments.len() - 1]));
        lemma_windows_from(windows_at(s), raw, s.payload, items, line, f);
        lemma_windows_append(all_numbered(before, f), all_numbered(items, f), line);
        assert(all_numbered(before + items, f) =~= all_numbered(before, f) + all_numbered(
            items,
            f,
        ));
    }
}

proof fn lemma_palettes_append(a: Seq<Read>, b: Seq<Read>, line: u64)
    requires
        palettes_of(a, line) is Ok,
        palettes_of(b, line) is Ok,
    ensures
        palettes_of(a + b, line) == Ok::<Seq<PdsView>, Seq<char>>(
            palettes_of(a, line)->Ok_0 + palettes_of(b, line)->Ok_0,
        ),
    decreases b.len(),
{
    if b.len() == 0 {
        assert(a + b =~= a);
        assert(palettes_of(a, line)->Ok_0 + palettes_of(b, line)->Ok_0 =~= palettes_of(
            a,
            line,
        )->Ok_0);
    } else {
        lemma_palettes_append(a, b.drop_last(), line);
        assert((a + b).drop_last() =~= a + b.drop_last());
        assert(palettes_of(a, line)->Ok_0 + palettes_of(b, line)->Ok_0 =~= (palettes_of(
            a,
            line,
        )->Ok_0 + palettes_of(b.drop_last(), line)->Ok_0).push(palette_of(b.last(), line)->Ok_0));
    }
}

proof fn lemma_all_palettes(segments: Seq<SegmentView>, raw: bool, line: u64, f: Reading)
    requires
        reads_integers(f),
        raw ==> forall|i: int| 0 <= i < segments.len() ==> is_parsed(#[trigger] segments[i]),
    ensures
        palettes_of(all_numbered(all_palette_trees(segments, raw), f), line) == Ok::<
            Seq<PdsView>,
            Seq<char>,
        >(palettes_in(segments)),
    decreases segments.len(),
{
    if segments.len() > 0 {
        let before = all_palette_trees(segments.drop_last(), raw);
        let s = segments.last();
        let items = palette_trees(s, raw);
        lemma_all_palettes(segments.drop_last(), raw, line, f);
        assert(raw ==> is_parsed(segments[segments.len() - 1]));
        let read = all_numbered(items, f);
        if palettes_at(s).len() > 0 {
            let p = palettes_at(s)[0];
            lemma_palette(p, raw, s.payload, line, f);
            assert(read.drop_last() =~= Seq::empty());
            assert(Seq::empty().push(p) =~= palettes_at(s));
            reveal_with_fuel(palettes_of, 2);
        } else {
            assert(read =~= Seq::empty());
            assert(palettes_at(s) =~= Seq::empty());
        }
        lemma_palettes_append(all_numbered(before, f), read, line);
        assert(all_numbered(before + items, f) =~= all_numbered(before, f) + read);
    }
}

/// Whether the pixels of an object can be had.
pub open spec fn is_drawable(o: ObjectView) -> bool {
    match o.first {
        Some(f) => match (f.width, f.height) {
            (Some(w), Some(h)) => decoded(o.rle, w as nat, h as nat) is Some,
            _ => false,
        },
        None => false,
    }
}

/// The bitmap of an object whose pixels can be had.
pub open spec fn bitmap_of(o: ObjectView) -> BitmapView
    recommends
        is_drawable(o),
{
    let f = o.first->0;
    BitmapView {
        id: f.id,
        version: f.version,
        width: f.width->0,
        height: f.height->0,
        pixels: decoded(o.rle, f.width->0 as nat, f.height->0 as nat)->0,
    }
}

proof fn lemma_object(o: ObjectView, raw: bool, line: u64, f: Reading)
    requires
        reads_integers(f),
        is_drawable(o),
    ensures
        object_of(numbered(object_tree(o, raw), f), line) == Ok::<BitmapView, Seq<char>>(
            bitmap_of(o),
        ),
{
    lemma_keys();
    let first = o.first->0;
    let b = bitmap_of(o);
    let fields = object_tree(o, raw)->Object_0;
    assert(fields[0].0 == "id"@ && fields[1].0 == "version"@ && fields[2].0 == "sequence"@
        && fields[3].0 == "data_length"@ && fields[4].0 == "width"@ && fields[5].0 == "height"@
        && fields[6].0 == "bitmap"@);
    lemma_number_field(fields, 0, "id"@, first.id as nat, line, f);
    lemma_number_field(fields, 1, "version"@, first.version as nat, line, f);
    lemma_number_field(fields, 4, "width"@, b.width as nat, line, f);
    lemma_number_field(fields, 5, "height"@, b.height as nat, line, f);
    lemma_field(fields, 6, "bitmap"@, f);
    base64_decode_of_encode(b.pixels);
    decoded_size(o.rle, b.width as nat, b.height as nat);
}

/// The bitmaps of objects.
pub open spec fn bitmaps(objects: Seq<ObjectView>) -> Seq<BitmapView> {
    Seq::new(objects.len(), |i: int| bitmap_of(objects[i]))
}

proof fn lemma_all_objects(objects: Seq<ObjectView>, raw: bool, line: u64, f: Reading)
    requires
        reads_integers(f),
        forall|i: int| 0 <= i < objects.len() ==> is_drawable(#[trigger] objects[i]),
    ensures
        bitmaps_of(
            all_numbered(Seq::new(objects.len(), |i: int| object_tree(objects[i], raw)), f),
            line,
        ) == Ok::<Seq<BitmapView>, Seq<char>>(bitmaps(objects)),
    decreases objects.len(),
{
    let items = Seq::new(objects.len(), |i: int| object_tree(objects[i], raw));
    let all = all_numbered(items, f);
    if objects.len() == 0 {
        assert(bitmaps(objects) =~= Seq::empty());
    } else {
        let fewer = objects.drop_last();
        let some = Seq::new(fewer.len(), |i: int| object_tree(fewer[i], raw));
        assert(all.drop_last() =~= all_numbered(some, f));
        lemma_all_objects(fewer, raw, line, f);
        assert(is_drawable(objects[objects.len() - 1]));
        lemma_object(objects.last(), raw, line, f);
        assert(bitmaps(fewer).push(bitmap_of(objects.last())) =~= bitmaps(objects));
    }
}

/// What the segments of a display set say, in the shape from which a display
/// set is built.
pub open spec fn contents(ds: DisplaySetView, p: PcsView, raw: bool) -> BuilderView {
    BuilderView {
        pts: ds.pts,
        dts: 0,
        pcs: Some(p),
        wds: if windows_in(ds.segments).len() > 0 {
            Some(windows_in(ds.segments))
        } else {
            None
        },
        palettes: palettes_in(ds.segments),
        objects: bitmaps(objects_of(ds.segments, raw)),
    }
}

proof fn lemma_line_fields(track_id: u32, index: u64, ds: DisplaySetView, raw: bool, f: Reading)
    ensures
        ({
            let j = numbered(display_set_tree(track_id, index, ds, raw), f);
            &&& field(j, "type"@) == Some(Json::<Number>::Str("display_set"@))
            &&& field(j, "track_id"@) == Some(Json::Num(f(decimal(track_id as nat))))
            &&& field(j, "pts"@) == Some(Json::Num(f(decimal(ds.pts as nat))))
            &&& field(j, "composition"@) == Some(numbered(composition_tree(ds.segments, raw), f))
            &&& field(j, "windows"@) == Some(
                numbered(Json::Array(all_window_trees(ds.segments, raw)), f),
            )
            &&& field(j, "palettes"@) == Some(
                numbered(Json::Array(all_palette_trees(ds.segments, raw)), f),
            )
            &&& field(j, "objects"@) == Some(
                numbered(Json::Array(all_object_trees(ds.segments, raw)), f),
            )
        }),
{
    let fields = display_set_tree(track_id, index, ds, raw)->Object_0;
    lemma_keys();
    assert(fields[0].0 == "type"@ && fields[1].0 == "track_id"@ && fields[2].0 == "index"@
        && fields[3].0 == "pts"@ && fields[4].0 == "pts_ms"@ && fields[5].0 == "composition"@
        && fields[6].0 == "windows"@ && fields[7].0 == "palettes"@ && fields[8].0 == "objects"@);
    lemma_field(fields, 0, "type"@, f);
    lemma_field(fields, 1, "track_id"@, f);
    lemma_field(fields, 3, "pts"@, f);
    lemma_field(fields, 5, "composition"@, f);
    lemma_field(fields, 6, "windows"@, f);
    lemma_field(fields, 7, "palettes"@, f);
    lemma_field(fields, 8, "objects"@, f);
}

proof fn lemma_regular(objects: Seq<BitmapView>)
    requires
        forall|i: int| 0 <= i < objects.len() ==> bitmap_regular(#[trigger] objects[i]),
    ensures
        first_irregular(objects) is None,
    decreases objects.len(),
{
    if objects.len() > 0 {
        assert(bitmap_regular(objects[0]));
        assert forall|i: int| 0 <= i < objects.skip(1).len() implies bitmap_regular(
            #[trigger] objects.skip(1)[i],
        ) by {
            assert(objects.skip(1)[i] == objects[i + 1]);
        }
        lemma_regular(objects.skip(1));
    }
}

/// The line for a display set is encoded as a display set of the same track
/// with the same timestamp, composition, windows, palettes and bitmaps.
///
/// All payloads have to be well-formed (those of windows and palettes only if
/// payloads are written), the pixels of all objects decodable, and the
/// timestamp within the limit.
pub proof fn encode_of_stream(
    track_id: u32,
    index: u64,
    ds: DisplaySetView,
    p: PcsView,
    raw: bool,
    line: u64,
    f: Reading,
)
    requires
        reads_integers(f),
        ds.pts <= EXACT_LIMIT,
        first_composition(ds.segments) matches Some(s) && pcs_parsed(s.payload) == Some(p),
        raw ==> forall|i: int|
            0 <= i < ds.segments.len() ==> is_parsed(#[trigger] ds.segments[i]),
        forall|i: int|
            0 <= i < objects_of(ds.segments, raw).len() ==> is_drawable(
                #[trigger] objects_of(ds.segments, raw)[i],
            ),
    ensures
        built(contents(ds, p, raw)) is Ok,
        line_of(numbered(display_set_tree(track_id, index, ds, raw), f), line) == Ok::<
            LineView,
            ErrorView,
        >(LineView::Described(track_id as u64, built(contents(ds, p, raw))->Ok_0)),
{
    let j = numbered(display_set_tree(track_id, index, ds, raw), f);
    lemma_line_fields(track_id, index, ds, raw, f);
    lemma_keys();
    assert(f(decimal(track_id as nat)).whole == track_id);
    assert(f(decimal(ds.pts as nat)).whole == ds.pts);
    let s = first_composition(ds.segments)->0;
    lemma_composition(p, raw, s.payload, line, f);
    lemma_numbered_array(all_window_trees(ds.segments, raw), f);
    lemma_all_windows(ds.segments, raw, line, f);
    lemma_numbered_array(all_palette_trees(ds.segments, raw), f);
    lemma_all_palettes(ds.segments, raw, line, f);
    let objects = objects_of(ds.segments, raw);
    lemma_numbered_array(all_object_trees(ds.segments, raw), f);
    lemma_all_objects(objects, raw, line, f);
    assert(all_object_trees(ds.segments, raw) =~= Seq::new(
        objects.len(),
        |i: int| object_tree(objects[i], raw),
    ));
    assert(items_of(j, "windows"@) == all_numbered(all_window_trees(ds.segments, raw), f));
    assert(items_of(j, "palettes"@) == all_numbered(all_palette_trees(ds.segments, raw), f));
    assert(items_of(j, "objects"@) == all_numbered(all_object_trees(ds.segments, raw), f));
    assert(pts_of_line(j, line) == Ok::<u64, Seq<char>>(ds.pts));
    assert(track_of_line(j) == track_id as u64);
    let composition = numbered(composition_tree(ds.segments, raw), f);
    assert forall|i: int| 0 <= i < objects.len() implies bitmap_regular(
        #[trigger] bitmaps(objects)[i],
    ) by {
        let o = objects[i];
        assert(is_drawable(o));
        decoded_size(o.rle, bitmap_of(o).width as nat, bitmap_of(o).height as nat);
    }
    lemma_regular(bitmaps(objects));
    assert(builder_of(j, composition, line) == Ok::<BuilderView, Seq<char>>(contents(ds, p, raw)));
}

} // verus!
