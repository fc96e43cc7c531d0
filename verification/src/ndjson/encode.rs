//! The display set that a JSON value describes.
use vstd::prelude::*;
use vstd::utf8::encode_utf8;
use crate::error::{ErrorView, PgsError};
use crate::ndjson::base64::{base64_bytes, base64_decode};
use crate::ndjson::json::{at_most, field, trees, Json, JsonValue, Number};
use crate::ndjson::lines::state_text;
use crate::pgs::display_set::{
    bitmap_views, built, palette_views, BitmapView, BuilderView, DisplaySet, DisplaySetBuilder,
    DisplaySetView, ObjectBitmap,
};
use crate::pgs::payload::{
    CompositionObject, CropInfo, PaletteEntry, PcsData, PcsView, PdsData, PdsView, WdsData,
    WindowDefinition,
};
use crate::pgs::segment::CompositionState;
use crate::text::{decimal, push_decimal};

verus! {

/// A JSON value whose numbers have been read.
pub type Read = Json<Number>;

/// A value, or a complaint.
pub type Checked<T> = Result<T, Seq<char>>;

/// A message about a line.
pub open spec fn about_line(line: u64, message: Seq<char>) -> Seq<char> {
    "line "@ + decimal(line as nat) + ": "@ + message
}

/// The complaint about a field that is missing.
pub open spec fn missing_field(line: u64, key: Seq<char>) -> Seq<char> {
    about_line(line, "missing field '"@ + key + "'"@)
}

/// The complaint about a field that is not a number.
pub open spec fn not_a_number(line: u64, key: Seq<char>) -> Seq<char> {
    about_line(line, "field '"@ + key + "' is not a number"@)
}

/// The value of a field that has to be there.
pub open spec fn required(j: Read, key: Seq<char>, line: u64) -> Checked<Read> {
    match field(j, key) {
        Some(v) => Ok(v),
        None => Err(missing_field(line, key)),
    }
}

/// A field that has to be a 16-bit number; a larger one counts as the largest.
pub open spec fn required_u16(j: Read, key: Seq<char>, line: u64) -> Checked<u16> {
    match required(j, key, line) {
        Err(e) => Err(e),
        Ok(Json::Num(n)) => Ok(at_most(n.whole, 0xFFFF) as u16),
        Ok(_) => Err(not_a_number(line, key)),
    }
}

/// A field that has to be an 8-bit number; a larger one counts as the largest.
pub open spec fn required_u8(j: Read, key: Seq<char>, line: u64) -> Checked<u8> {
    match required(j, key, line) {
        Err(e) => Err(e),
        Ok(Json::Num(n)) => Ok(at_most(n.whole, 0xFF) as u8),
        Ok(_) => Err(not_a_number(line, key)),
    }
}

/// The composition state with a name.
pub open spec fn state_named(name: Seq<char>) -> Option<CompositionState> {
    if name == "normal"@ {
        Some(CompositionState::Normal)
    } else if name == "acquisition_point"@ {
        Some(CompositionState::AcquisitionPoint)
    } else if name == "epoch_start"@ {
        Some(CompositionState::EpochStart)
    } else {
        None
    }
}

/// The name of a composition state names that state.
pub proof fn state_name_is_read_back(s: CompositionState)
    ensures
        state_named(state_text(s)) == Some(s),
{
    reveal_strlit("normal");
    reveal_strlit("acquisition_point");
    reveal_strlit("epoch_start");
    assert("normal"@.len() == 6 && "acquisition_point"@.len() == 17 && "epoch_start"@.len() == 11);
}

/// The state of a composition.
pub open spec fn state_of(j: Read, line: u64) -> Checked<CompositionState> {
    match required(j, "state"@, line) {
        Err(e) => Err(e),
        Ok(Json::Str(name)) => match state_named(name) {
            Some(state) => Ok(state),
            None => Err(about_line(line, "unknown composition state '"@ + name + "'"@)),
        },
        Ok(_) => Err(about_line(line, "'state' is not a string"@)),
    }
}

/// The cropping rectangle of a placement. One that is missing or null is none.
pub open spec fn crop_of(j: Read, line: u64) -> Checked<Option<CropInfo>> {
    match field(j, "crop"@) {
        None | Some(Json::Null) => Ok(None),
        Some(c) => match (
            required_u16(c, "x"@, line),
            required_u16(c, "y"@, line),
            required_u16(c, "width"@, line),
            required_u16(c, "height"@, line),
        ) {
            (Err(e), _, _, _) => Err(e),
            (_, Err(e), _, _) => Err(e),
            (_, _, Err(e), _) => Err(e),
            (_, _, _, Err(e)) => Err(e),
            (Ok(x), Ok(y), Ok(width), Ok(height)) => Ok(Some(CropInfo { x, y, width, height })),
        },
    }
}

/// A placement of an object.
pub open spec fn placement_of(j: Read, line: u64) -> Checked<CompositionObject> {
    match (
        crop_of(j, line),
        required_u16(j, "object_id"@, line),
        required_u8(j, "window_id"@, line),
        required_u16(j, "x"@, line),
        required_u16(j, "y"@, line),
    ) {
        (Err(e), _, _, _, _) => Err(e),
        (_, Err(e), _, _, _) => Err(e),
        (_, _, Err(e), _, _) => Err(e),
        (_, _, _, Err(e), _) => Err(e),
        (_, _, _, _, Err(e)) => Err(e),
        (Ok(crop), Ok(object_id), Ok(window_id), Ok(x), Ok(y)) => Ok(
            CompositionObject { object_id, window_id, x, y, crop },
        ),
    }
}

/// The placements, or the complaint about the first that is wrong.
pub open spec fn placements_of(items: Seq<Read>, line: u64) -> Checked<Seq<CompositionObject>>
    decreases items.len(),
{
    if items.len() == 0 {
        Ok(Seq::empty())
    } else {
        match (placements_of(items.drop_last(), line), placement_of(items.last(), line)) {
            (Err(e), _) => Err(e),
            (_, Err(e)) => Err(e),
            (Ok(some), Ok(one)) => Ok(some.push(one)),
        }
    }
}

/// The items of a field that is an array; a field that is none has no items.
pub open spec fn items_of(j: Read, key: Seq<char>) -> Seq<Read> {
    match field(j, key) {
        Some(Json::Array(items)) => items,
        _ => Seq::empty(),
    }
}

/// A field that has to be a boolean.
pub open spec fn palette_only_of(j: Read, line: u64) -> Checked<bool> {
    match required(j, "palette_only"@, line) {
        Err(e) => Err(e),
        Ok(Json::Bool(b)) => Ok(b),
        Ok(_) => Err(about_line(line, "'palette_only' is not a boolean"@)),
    }
}

/// A composition.
pub open spec fn composition_of(j: Read, line: u64) -> Checked<PcsView> {
    match (
        state_of(j, line),
        placements_of(items_of(j, "objects"@), line),
        required_u16(j, "video_width"@, line),
        required_u16(j, "video_height"@, line),
        required_u16(j, "number"@, line),
        palette_only_of(j, line),
        required_u8(j, "palette_id"@, line),
    ) {
        (Err(e), _, _, _, _, _, _) => Err(e),
        (_, Err(e), _, _, _, _, _) => Err(e),
        (_, _, Err(e), _, _, _, _) => Err(e),
        (_, _, _, Err(e), _, _, _) => Err(e),
        (_, _, _, _, Err(e), _, _) => Err(e),
        (_, _, _, _, _, Err(e), _) => Err(e),
        (_, _, _, _, _, _, Err(e)) => Err(e),
        (
            Ok(composition_state),
            Ok(objects),
            Ok(video_width),
            Ok(video_height),
            Ok(composition_number),
            Ok(palette_only),
            Ok(palette_id),
        ) => Ok(
            PcsView {
                video_width,
                video_height,
                composition_number,
                composition_state,
                palette_only,
                palette_id,
                objects,
            },
        ),
    }
}

/// A window.
pub open spec fn window_of(j: Read, line: u64) -> Checked<WindowDefinition> {
    match (
        required_u8(j, "id"@, line),
        required_u16(j, "x"@, line),
        required_u16(j, "y"@, line),
        required_u16(j, "width"@, line),
        required_u16(j, "height"@, line),
    ) {
        (Err(e), _, _, _, _) => Err(e),
        (_, Err(e), _, _, _) => Err(e),
        (_, _, Err(e), _, _) => Err(e),
        (_, _, _, Err(e), _) => Err(e),
        (_, _, _, _, Err(e)) => Err(e),
        (Ok(id), Ok(x), Ok(y), Ok(width), Ok(height)) => Ok(
            WindowDefinition { id, x, y, width, height },
        ),
    }
}

/// The windows, or the complaint about the first that is wrong.
pub open spec fn windows_of(items: Seq<Read>, line: u64) -> Checked<Seq<WindowDefinition>>
    decreases items.len(),
{
    if items.len() == 0 {
        Ok(Seq::empty())
    } else {
        match (windows_of(items.drop_last(), line), window_of(items.last(), line)) {
            (Err(e), _) => Err(e),
            (_, Err(e)) => Err(e),
            (Ok(some), Ok(one)) => Ok(some.push(one)),
        }
    }
}

/// A palette entry.
pub open spec fn entry_of(j: Read, line: u64) -> Checked<PaletteEntry> {
    match (
        required_u8(j, "id"@, line),
        required_u8(j, "luminance"@, line),
        required_u8(j, "cr"@, line),
        required_u8(j, "cb"@, line),
        required_u8(j, "alpha"@, line),
    ) {
        (Err(e), _, _, _, _) => Err(e),
        (_, Err(e), _, _, _) => Err(e),
        (_, _, Err(e), _, _) => Err(e),
        (_, _, _, Err(e), _) => Err(e),
        (_, _, _, _, Err(e)) => Err(e),
        (Ok(id), Ok(luminance), Ok(cr), Ok(cb), Ok(alpha)) => Ok(
            PaletteEntry { id, luminance, cr, cb, alpha },
        ),
    }
}

/// The palette entries, or the complaint about the first that is wrong.
pub open spec fn entries_of(items: Seq<Read>, line: u64) -> Checked<Seq<PaletteEntry>>
    decreases items.len(),
{
    if items.len() == 0 {
        Ok(Seq::empty())
    } else {
        match (entries_of(items.drop_last(), line), entry_of(items.last(), line)) {
            (Err(e), _) => Err(e),
            (_, Err(e)) => Err(e),
            (Ok(some), Ok(one)) => Ok(some.push(one)),
        }
    }
}

/// A palette.
pub open spec fn palette_of(j: Read, line: u64) -> Checked<PdsView> {
    match required(j, "entries"@, line) {
        Err(e) => Err(e),
        Ok(Json::Array(items)) => match (
            entries_of(items, line),
            required_u8(j, "id"@, line),
            required_u8(j, "version"@, line),
        ) {
            (Err(e), _, _) => Err(e),
            (_, Err(e), _) => Err(e),
            (_, _, Err(e)) => Err(e),
            (Ok(entries), Ok(id), Ok(version)) => Ok(PdsView { id, version, entries }),
        },
        Ok(_) => Err(about_line(line, "'entries' is not an array"@)),
    }
}

/// The palettes, or the complaint about the first that is wrong.
pub open spec fn palettes_of(items: Seq<Read>, line: u64) -> Checked<Seq<PdsView>>
    decreases items.len(),
{
    if items.len() == 0 {
        Ok(Seq::empty())
    } else {
        match (palettes_of(items.drop_last(), line), palette_of(items.last(), line)) {
            (Err(e), _) => Err(e),
            (_, Err(e)) => Err(e),
            (Ok(some), Ok(one)) => Ok(some.push(one)),
        }
    }
}

/// A message about an object on a line.
pub open spec fn about_object(line: u64, id: u16, message: Seq<char>) -> Seq<char> {
    about_line(line, "object "@ + decimal(id as nat) + message)
}

/// The complaint about a bitmap with the wrong number of pixels.
pub open spec fn size_mismatch(line: u64, id: u16, got: nat, width: u16, height: u16) -> Seq<
    char,
> {
    about_object(
        line,
        id,
        " bitmap size mismatch: got "@ + decimal(got) + " bytes, expected "@ + decimal(
            (width * height) as nat,
        ) + " ("@ + decimal(width as nat) + "x"@ + decimal(height as nat) + ")"@,
    )
}

/// The pixels of an object.
pub open spec fn pixels_of(j: Read, line: u64, id: u16, width: u16, height: u16) -> Checked<
    Seq<u8>,
> {
    match required(j, "bitmap"@, line) {
        Err(e) => Err(e),
        Ok(Json::Null) => Err(about_object(line, id, " has null bitmap, cannot encode"@)),
        Ok(Json::Str(text)) => match base64_bytes(encode_utf8(text)) {
            Err(e) => Err(about_object(line, id, " bitmap decode failed: "@ + e)),
            Ok(pixels) => if pixels.len() == width * height {
                Ok(pixels)
            } else {
                Err(size_mismatch(line, id, pixels.len(), width, height))
            },
        },
        Ok(_) => Err(about_line(line, "'bitmap' is not a string"@)),
    }
}

/// An object.
pub open spec fn object_of(j: Read, line: u64) -> Checked<BitmapView> {
    match (
        required_u16(j, "id"@, line),
        required_u8(j, "version"@, line),
        required_u16(j, "width"@, line),
        required_u16(j, "height"@, line),
    ) {
        (Err(e), _, _, _) => Err(e),
        (_, Err(e), _, _) => Err(e),
        (_, _, Err(e), _) => Err(e),
        (_, _, _, Err(e)) => Err(e),
        (Ok(id), Ok(version), Ok(width), Ok(height)) => match pixels_of(
            j,
            line,
            id,
            width,
            height,
        ) {
            Err(e) => Err(e),
            Ok(pixels) => Ok(BitmapView { id, version, width, height, pixels }),
        },
    }
}

/// The objects, or the complaint about the first that is wrong.
pub open spec fn bitmaps_of(items: Seq<Read>, line: u64) -> Checked<Seq<BitmapView>>
    decreases items.len(),
{
    if items.len() == 0 {
        Ok(Seq::empty())
    } else {
        match (bitmaps_of(items.drop_last(), line), object_of(items.last(), line)) {
            (Err(e), _) => Err(e),
            (_, Err(e)) => Err(e),
            (Ok(some), Ok(one)) => Ok(some.push(one)),
        }
    }
}

/// The timestamp of a display set: `pts`, or `pts_ms` if that is missing.
pub open spec fn pts_of_line(j: Read, line: u64) -> Checked<u64> {
    match field(j, "pts"@) {
        Some(Json::Num(n)) => Ok(n.whole),
        Some(_) => Err(about_line(line, "'pts' is not a number"@)),
        None => match field(j, "pts_ms"@) {
            Some(Json::Num(n)) => Ok(n.ticks),
            Some(_) => Err(about_line(line, "'pts_ms' is not a number"@)),
            None => Err(about_line(line, "missing 'pts' or 'pts_ms'"@)),
        },
    }
}

/// The track of a display set, 0 if it has none.
pub open spec fn track_of_line(j: Read) -> u64 {
    match field(j, "track_id"@) {
        Some(Json::Num(n)) => n.whole,
        _ => 0,
    }
}

/// What a display set is built from, given its composition.
pub open spec fn builder_of(j: Read, composition: Read, line: u64) -> Checked<BuilderView> {
    match (
        pts_of_line(j, line),
        composition_of(composition, line),
        windows_of(items_of(j, "windows"@), line),
        palettes_of(items_of(j, "palettes"@), line),
        bitmaps_of(items_of(j, "objects"@), line),
    ) {
        (Err(e), _, _, _, _) => Err(e),
        (_, Err(e), _, _, _) => Err(e),
        (_, _, Err(e), _, _) => Err(e),
        (_, _, _, Err(e), _) => Err(e),
        (_, _, _, _, Err(e)) => Err(e),
        (Ok(pts), Ok(pcs), Ok(windows), Ok(palettes), Ok(objects)) => Ok(
            BuilderView {
                pts,
                dts: 0,
                pcs: Some(pcs),
                wds: if windows.len() > 0 {
                    Some(windows)
                } else {
                    None
                },
                palettes,
                objects,
            },
        ),
    }
}

/// What a line says.
pub enum LineView {
    /// It describes tracks.
    Tracks,
    /// It is of another type.
    Unknown(Seq<char>),
    /// It describes a display set without a composition.
    NoComposition,
    /// It describes a display set of a track.
    Described(u64, DisplaySetView),
}

/// What a line that describes a display set says.
pub open spec fn set_line(j: Read, line: u64) -> Result<LineView, ErrorView> {
    match (pts_of_line(j, line), field(j, "composition"@)) {
        (Err(e), _) => Err(ErrorView::EncodingError(e)),
        (_, None) => Ok(LineView::NoComposition),
        (_, Some(Json::Null)) => Ok(LineView::NoComposition),
        (_, Some(composition)) => match builder_of(j, composition, line) {
            Err(e) => Err(ErrorView::EncodingError(e)),
            Ok(b) => match built(b) {
                Err(e) => Err(e),
                Ok(ds) => Ok(LineView::Described(track_of_line(j), ds)),
            },
        },
    }
}

/// What a line says, by its type.
pub open spec fn line_of(j: Read, line: u64) -> Result<LineView, ErrorView> {
    match field(j, "type"@) {
        Some(Json::Str(t)) => if t == "tracks"@ {
            Ok(LineView::Tracks)
        } else if t == "display_set"@ {
            set_line(j, line)
        } else {
            Ok(LineView::Unknown(t))
        },
        _ => Err(ErrorView::EncodingError(about_line(line, "missing 'type' field"@))),
    }
}

/// Whether a result is what it should be.
pub open spec fn checked_as<T>(r: Result<T, String>, c: Checked<T>) -> bool {
    match (r, c) {
        (Ok(v), Ok(w)) => v == w,
        (Err(e), Err(t)) => e@ == t,
        _ => false,
    }
}

/// Whether a result's view is what it should be.
pub open spec fn viewed_as<T: View>(r: Result<T, String>, c: Checked<T::V>) -> bool {
    match (r, c) {
        (Ok(v), Ok(w)) => v@ == w,
        (Err(e), Err(t)) => e@ == t,
        _ => false,
    }
}

fn line_message(line: u64, message: &str) -> (r: String)
    ensures
        r@ == about_line(line, message@),
{
    let mut e = "line ".to_owned();
    push_decimal(&mut e, line);
    e.push_str(": ");
    e.push_str(message);
    e
}

/// The value of a field that has to be there.
pub fn require_field<'a>(obj: &'a JsonValue<Number>, key: &str, line: u64) -> (r: Result<
    &'a JsonValue<Number>,
    String,
>)
    ensures
        match (r, required(obj.tree(), key@, line)) {
            (Ok(v), Ok(t)) => v.tree() == t,
            (Err(e), Err(t)) => e@ == t,
            _ => false,
        },
{
    match obj.get(key) {
        Some(v) => Ok(v),
        None => {
            let mut m = "missing field '".to_owned();
            m.push_str(key);
            m.push_str("'");
            Err(line_message(line, m.as_str()))
        },
    }
}

fn number_message(line: u64, key: &str) -> (r: String)
    ensures
        r@ == not_a_number(line, key@),
{
    let mut m = "field '".to_owned();
    m.push_str(key);
    m.push_str("' is not a number");
    line_message(line, m.as_str())
}

/// A field that has to be a 16-bit number.
pub fn require_u16(obj: &JsonValue<Number>, key: &str, line: u64) -> (r: Result<u16, String>)
    ensures
        checked_as(r, required_u16(obj.tree(), key@, line)),
{
    match require_field(obj, key, line) {
        Err(e) => Err(e),
        Ok(v) => match v.as_u16() {
            Some(n) => Ok(n),
            None => Err(number_message(line, key)),
        },
    }
}

/// A field that has to be an 8-bit number.
pub fn require_u8(obj: &JsonValue<Number>, key: &str, line: u64) -> (r: Result<u8, String>)
    ensures
        checked_as(r, required_u8(obj.tree(), key@, line)),
{
    match require_field(obj, key, line) {
        Err(e) => Err(e),
        Ok(v) => match v.as_u8() {
            Some(n) => Ok(n),
            None => Err(number_message(line, key)),
        },
    }
}

/// The composition state with a name.
pub fn parse_composition_state_str(s: &str) -> (r: Option<CompositionState>)
    ensures
        r == state_named(s@),
{
    let name = s.to_owned();
    if name == "normal".to_owned() {
        Some(CompositionState::Normal)
    } else if name == "acquisition_point".to_owned() {
        Some(CompositionState::AcquisitionPoint)
    } else if name == "epoch_start".to_owned() {
        Some(CompositionState::EpochStart)
    } else {
        None
    }
}

/// A placement of an object.
fn parse_placement(j: &JsonValue<Number>, line: u64) -> (r: Result<CompositionObject, String>)
    ensures
        checked_as(r, placement_of(j.tree(), line)),
{
    let crop: Option<CropInfo> = match parse_crop(j, line) {
        Ok(c) => c,
        Err(e) => {
            return Err(e);
        },
    };
    let object_id: u16 = match require_u16(j, "object_id", line) {
        Ok(v) => v,
        Err(e) => {
            return Err(e);
        },
    };
    let window_id: u8 = match require_u8(j, "window_id", line) {
        Ok(v) => v,
        Err(e) => {
            return Err(e);
        },
    };
    let x: u16 = match require_u16(j, "x", line) {
        Ok(v) => v,
        Err(e) => {
            return Err(e);
        },
    };
    let y: u16 = match require_u16(j, "y", line) {
        Ok(v) => v,
        Err(e) => {
            return Err(e);
        },
    };
    Ok(CompositionObject { object_id, window_id, x, y, crop })
}

/// The cropping rectangle of a placement.
fn parse_crop(j: &JsonValue<Number>, line: u64) -> (r: Result<Option<CropInfo>, String>)
    ensures
        checked_as(r, crop_of(j.tree(), line)),
{
    let c = match j.get("crop") {
        Some(c) => c,
        None => {
            return Ok(None);
        },
    };
    if c.is_null() {
        return Ok(None);
    }
    let x: u16 = match require_u16(c, "x", line) {
        Ok(v) => v,
        Err(e) => {
            return Err(e);
        },
    };
    let y: u16 = match require_u16(c, "y", line) {
        Ok(v) => v,
        Err(e) => {
            return Err(e);
        },
    };
    let width: u16 = match require_u16(c, "width", line) {
        Ok(v) => v,
        Err(e) => {
            return Err(e);
        },
    };
    let height: u16 = match require_u16(c, "height", line) {
        Ok(v) => v,
        Err(e) => {
            return Err(e);
        },
    };
    Ok(Some(CropInfo { x, y, width, height }))
}

/// The items of a field that is an array, and none otherwise.
fn array_items<'a>(j: &'a JsonValue<Number>, key: &str) -> (r: &'a [JsonValue<Number>])
    ensures
        trees(r@) == items_of(j.tree(), key@),
{
    if let Some(v) = j.get(key) {
        if let Some(items) = v.as_array() {
            return items;
        }
    }
    let none: &[JsonValue<Number>] = &[];
    assert(trees(none@) =~= Seq::empty());
    none
}

proof fn lemma_placements_of_stops(items: Seq<Read>, n: int, line: u64)
    requires
        0 <= n <= items.len(),
        placements_of(items.take(n), line) is Err,
    ensures
        placements_of(items, line) == placements_of(items.take(n), line),
    decreases items.len(),
{
    if n == items.len() {
        assert(items.take(n) =~= items);
    } else {
        assert(items.drop_last().take(n) =~= items.take(n));
        lemma_placements_of_stops(items.drop_last(), n, line);
    }
}

/// The placements of objects.
fn parse_placements(
    arr: &[JsonValue<Number>],
    line: u64,
) -> (r: Result<Vec<CompositionObject>, String>)
    ensures
        match (r, placements_of(trees(arr@), line)) {
            (Ok(v), Ok(w)) => v@ == w,
            (Err(e), Err(t)) => e@ == t,
            _ => false,
        },
{
    let ghost all = trees(arr@);
    let mut items: Vec<CompositionObject> = Vec::new();
    let mut i: usize = 0;
    assert(all.take(0) =~= Seq::empty());
    assert(items@ =~= Seq::empty());
    while i < arr.len()
        invariant
            i <= arr@.len(),
            all == trees(arr@),
            placements_of(all.take(i as int), line) == Ok::<_, Seq<char>>(items@),
        decreases arr@.len() - i,
    {
        proof {
            assert(all.take(i + 1).drop_last() =~= all.take(i as int));
            assert(all.take(i + 1).last() == arr@[i as int].tree());
        }
        let one = match parse_placement(&arr[i], line) {
            Ok(v) => v,
            Err(e) => {
                proof {
                    lemma_placements_of_stops(all, i + 1, line);
                }
                return Err(e);
            },
        };
        let ghost before = items@;
        items.push(one);
        assert(items@ =~= before.push(one));
        i += 1;
    }
    assert(all.take(i as int) =~= all);
    Ok(items)
}

/// A composition.
pub fn parse_pcs_json(val: &JsonValue<Number>, line: u64) -> (r: Result<PcsData, String>)
    ensures
        viewed_as(r, composition_of(val.tree(), line)),
{
    let state = match require_field(val, "state", line) {
        Ok(v) => v,
        Err(e) => {
            return Err(e);
        },
    };
    let name = match state.as_str() {
        Some(s) => s,
        None => {
            return Err(line_message(line, "'state' is not a string"));
        },
    };
    let composition_state = match parse_composition_state_str(name) {
        Some(s) => s,
        None => {
            let mut m = "unknown composition state '".to_owned();
            m.push_str(name);
            m.push_str("'");
            return Err(line_message(line, m.as_str()));
        },
    };
    let objects = match parse_placements(array_items(val, "objects"), line) {
        Ok(v) => v,
        Err(e) => {
            return Err(e);
        },
    };
    let video_width: u16 = match require_u16(val, "video_width", line) {
        Ok(v) => v,
        Err(e) => {
            return Err(e);
        },
    };
    let video_height: u16 = match require_u16(val, "video_height", line) {
        Ok(v) => v,
        Err(e) => {
            return Err(e);
        },
    };
    let composition_number: u16 = match require_u16(val, "number", line) {
        Ok(v) => v,
        Err(e) => {
            return Err(e);
        },
    };
    let flag = match require_field(val, "palette_only", line) {
        Ok(v) => v,
        Err(e) => {
            return Err(e);
        },
    };
    let palette_only = match flag.as_bool() {
        Some(b) => b,
        None => {
            return Err(line_message(line, "'palette_only' is not a boolean"));
        },
    };
    let palette_id: u8 = match require_u8(val, "palette_id", line) {
        Ok(v) => v,
        Err(e) => {
            return Err(e);
        },
    };
    Ok(
        PcsData {
            video_width,
            video_height,
            composition_number,
            composition_state,
            palette_only,
            palette_id,
            objects,
        },
    )
}

/// A window.
fn parse_window(j: &JsonValue<Number>, line: u64) -> (r: Result<WindowDefinition, String>)
    ensures
        checked_as(r, window_of(j.tree(), line)),
{
    let id: u8 = match require_u8(j, "id", line) {
        Ok(v) => v,
        Err(e) => {
            return Err(e);
        },
    };
    let x: u16 = match require_u16(j, "x", line) {
        Ok(v) => v,
        Err(e) => {
            return Err(e);
        },
    };
    let y: u16 = match require_u16(j, "y", line) {
        Ok(v) => v,
        Err(e) => {
            return Err(e);
        },
    };
    let width: u16 = match require_u16(j, "width", line) {
        Ok(v) => v,
        Err(e) => {
            return Err(e);
        },
    };
    let height: u16 = match require_u16(j, "height", line) {
        Ok(v) => v,
        Err(e) => {
            return Err(e);
        },
    };
    Ok(WindowDefinition { id, x, y, width, height })
}

proof fn lemma_windows_of_stops(items: Seq<Read>, n: int, line: u64)
    requires
        0 <= n <= items.len(),
        windows_of(items.take(n), line) is Err,
    ensures
        windows_of(items, line) == windows_of(items.take(n), line),
    decreases items.len(),
{
    if n == items.len() {
        assert(items.take(n) =~= items);
    } else {
        assert(items.drop_last().take(n) =~= items.take(n));
        lemma_windows_of_stops(items.drop_last(), n, line);
    }
}

/// The windows.
fn parse_windows(arr: &[JsonValue<Number>], line: u64) -> (r: Result<Vec<WindowDefinition>, String>)
    ensures
        match (r, windows_of(trees(arr@), line)) {
            (Ok(v), Ok(w)) => v@ == w,
            (Err(e), Err(t)) => e@ == t,
            _ => false,
        },
{
    let ghost all = trees(arr@);
    let mut items: Vec<WindowDefinition> = Vec::new();
    let mut i: usize = 0;
    assert(all.take(0) =~= Seq::empty());
    assert(items@ =~= Seq::empty());
    while i < arr.len()
        invariant
            i <= arr@.len(),
            all == trees(arr@),
            windows_of(all.take(i as int), line) == Ok::<_, Seq<char>>(items@),
        decreases arr@.len() - i,
    {
        proof {
            assert(all.take(i + 1).drop_last() =~= all.take(i as int));
            assert(all.take(i + 1).last() == arr@[i as int].tree());
        }
        let one = match parse_window(&arr[i], line) {
            Ok(v) => v,
            Err(e) => {
                proof {
                    lemma_windows_of_stops(all, i + 1, line);
                }
                return Err(e);
            },
        };
        let ghost before = items@;
        items.push(one);
        assert(items@ =~= before.push(one));
        i += 1;
    }
    assert(all.take(i as int) =~= all);
    Ok(items)
}

/// The windows of a display set.
pub fn parse_wds_json(arr: &[JsonValue<Number>], line: u64) -> (r: Result<WdsData, String>)
    ensures
        viewed_as(r, windows_of(trees(arr@), line)),
{
    match parse_windows(arr, line) {
        Ok(windows) => Ok(WdsData { windows }),
        Err(e) => Err(e),
    }
}

/// A palette entry.
fn parse_entry(j: &JsonValue<Number>, line: u64) -> (r: Result<PaletteEntry, String>)
    ensures
        checked_as(r, entry_of(j.tree(), line)),
{
    let id: u8 = match require_u8(j, "id", line) {
        Ok(v) => v,
        Err(e) => {
            return Err(e);
        },
    };
    let luminance: u8 = match require_u8(j, "luminance", line) {
        Ok(v) => v,
        Err(e) => {
            return Err(e);
        },
    };
    let cr: u8 = match require_u8(j, "cr", line) {
        Ok(v) => v,
        Err(e) => {
            return Err(e);
        },
    };
    let cb: u8 = match require_u8(j, "cb", line) {
        Ok(v) => v,
        Err(e) => {
            return Err(e);
        },
    };
    let alpha: u8 = match require_u8(j, "alpha", line) {
        Ok(v) => v,
        Err(e) => {
            return Err(e);
        },
    };
    Ok(PaletteEntry { id, luminance, cr, cb, alpha })
}

proof fn lemma_entries_of_stops(items: Seq<Read>, n: int, line: u64)
    requires
        0 <= n <= items.len(),
        entries_of(items.take(n), line) is Err,
    ensures
        entries_of(items, line) == entries_of(items.take(n), line),
    decreases items.len(),
{
    if n == items.len() {
        assert(items.take(n) =~= items);
    } else {
        assert(items.drop_last().take(n) =~= items.take(n));
        lemma_entries_of_stops(items.drop_last(), n, line);
    }
}

/// The entries of a palette.
fn parse_entries(arr: &[JsonValue<Number>], line: u64) -> (r: Result<Vec<PaletteEntry>, String>)
    ensures
        match (r, entries_of(trees(arr@), line)) {
            (Ok(v), Ok(w)) => v@ == w,
            (Err(e), Err(t)) => e@ == t,
            _ => false,
        },
{
    let ghost all = trees(arr@);
    let mut items: Vec<PaletteEntry> = Vec::new();
    let mut i: usize = 0;
    assert(all.take(0) =~= Seq::empty());
    assert(items@ =~= Seq::empty());
    while i < arr.len()
        invariant
            i <= arr@.len(),
            all == trees(arr@),
            entries_of(all.take(i as int), line) == Ok::<_, Seq<char>>(items@),
        decreases arr@.len() - i,
    {
        proof {
            assert(all.take(i + 1).drop_last() =~= all.take(i as int));
            assert(all.take(i + 1).last() == arr@[i as int].tree());
        }
        let one = match parse_entry(&arr[i], line) {
            Ok(v) => v,
            Err(e) => {
                proof {
                    lemma_entries_of_stops(all, i + 1, line);
                }
                return Err(e);
            },
        };
        let ghost before = items@;
        items.push(one);
        assert(items@ =~= before.push(one));
        i += 1;
    }
    assert(all.take(i as int) =~= all);
    Ok(items)
}

/// A palette.
fn parse_palette(j: &JsonValue<Number>, line: u64) -> (r: Result<PdsData, String>)
    ensures
        viewed_as(r, palette_of(j.tree(), line)),
{
    let value = match require_field(j, "entries", line) {
        Ok(v) => v,
        Err(e) => {
            return Err(e);
        },
    };
    let items = match value.as_array() {
        Some(items) => items,
        None => {
            return Err(line_message(line, "'entries' is not an array"));
        },
    };
    let entries = match parse_entries(items, line) {
        Ok(v) => v,
        Err(e) => {
            return Err(e);
        },
    };
    let id: u8 = match require_u8(j, "id", line) {
        Ok(v) => v,
        Err(e) => {
            return Err(e);
        },
    };
    let version: u8 = match require_u8(j, "version", line) {
        Ok(v) => v,
        Err(e) => {
            return Err(e);
        },
    };
    Ok(PdsData { id, version, entries })
}

proof fn lemma_palettes_of_stops(items: Seq<Read>, n: int, line: u64)
    requires
        0 <= n <= items.len(),
        palettes_of(items.take(n), line) is Err,
    ensures
        palettes_of(items, line) == palettes_of(items.take(n), line),
    decreases items.len(),
{
    if n == items.len() {
        assert(items.take(n) =~= items);
    } else {
        assert(items.drop_last().take(n) =~= items.take(n));
        lemma_palettes_of_stops(items.drop_last(), n, line);
    }
}

/// The palettes of a display set.
pub fn parse_pds_json(arr: &[JsonValue<Number>], line: u64) -> (r: Result<Vec<PdsData>, String>)
    ensures
        match (r, palettes_of(trees(arr@), line)) {
            (Ok(v), Ok(w)) => palette_views(v@) == w,
            (Err(e), Err(t)) => e@ == t,
            _ => false,
        },
{
    let ghost all = trees(arr@);
    let mut items: Vec<PdsData> = Vec::new();
    let mut i: usize = 0;
    assert(all.take(0) =~= Seq::empty());
    assert(palette_views(items@) =~= Seq::empty());
    while i < arr.len()
        invariant
            i <= arr@.len(),
            all == trees(arr@),
            palettes_of(all.take(i as int), line) == Ok::<_, Seq<char>>(palette_views(items@)),
        decreases arr@.len() - i,
    {
        proof {
            assert(all.take(i + 1).drop_last() =~= all.take(i as int));
            assert(all.take(i + 1).last() == arr@[i as int].tree());
        }
        let one = match parse_palette(&arr[i], line) {
            Ok(v) => v,
            Err(e) => {
                proof {
                    lemma_palettes_of_stops(all, i + 1, line);
                }
                return Err(e);
            },
        };
        let ghost before = palette_views(items@);
        items.push(one);
        assert(palette_views(items@) =~= before.push(one@));
        i += 1;
    }
    assert(all.take(i as int) =~= all);
    Ok(items)
}

/// The pixels of an object.
fn parse_pixels(j: &JsonValue<Number>, line: u64, id: u16, width: u16, height: u16) -> (r: Result<
    Vec<u8>,
    String,
>)
    ensures
        viewed_as(r, pixels_of(j.tree(), line, id, width, height)),
{
    let value = match require_field(j, "bitmap", line) {
        Ok(v) => v,
        Err(e) => {
            return Err(e);
        },
    };
    if value.is_null() {
        return Err(object_message(line, id, " has null bitmap, cannot encode"));
    }
    let text = match value.as_str() {
        Some(s) => s,
        None => {
            return Err(line_message(line, "'bitmap' is not a string"));
        },
    };
    let pixels = match base64_decode(text) {
        Ok(v) => v,
        Err(e) => {
            let mut m = " bitmap decode failed: ".to_owned();
            m.push_str(e.as_str());
            return Err(object_message(line, id, m.as_str()));
        },
    };
    assert(0 <= width * height <= 0xFFFF * 0xFFFF) by (nonlinear_arith)
        requires
            0 <= width <= 0xFFFF,
            0 <= height <= 0xFFFF,
    ;
    let expected: u64 = width as u64 * height as u64;
    if pixels.len() as u64 != expected {
        let mut m = " bitmap size mismatch: got ".to_owned();
        push_decimal(&mut m, pixels.len() as u64);
        m.push_str(" bytes, expected ");
        push_decimal(&mut m, expected);
        m.push_str(" (");
        push_decimal(&mut m, width as u64);
        m.push_str("x");
        push_decimal(&mut m, height as u64);
        m.push_str(")");
        return Err(object_message(line, id, m.as_str()));
    }
    Ok(pixels)
}

fn object_message(line: u64, id: u16, message: &str) -> (r: String)
    ensures
        r@ == about_object(line, id, message@),
{
    let mut m = "object ".to_owned();
    push_decimal(&mut m, id as u64);
    m.push_str(message);
    line_message(line, m.as_str())
}

/// An object with its pixels.
pub fn parse_object_json(val: &JsonValue<Number>, line: u64) -> (r: Result<ObjectBitmap, String>)
    ensures
        viewed_as(r, object_of(val.tree(), line)),
{
    let id: u16 = match require_u16(val, "id", line) {
        Ok(v) => v,
        Err(e) => {
            return Err(e);
        },
    };
    let version: u8 = match require_u8(val, "version", line) {
        Ok(v) => v,
        Err(e) => {
            return Err(e);
        },
    };
    let width: u16 = match require_u16(val, "width", line) {
        Ok(v) => v,
        Err(e) => {
            return Err(e);
        },
    };
    let height: u16 = match require_u16(val, "height", line) {
        Ok(v) => v,
        Err(e) => {
            return Err(e);
        },
    };
    match parse_pixels(val, line, id, width, height) {
        Ok(pixels) => Ok(ObjectBitmap { id, version, width, height, pixels }),
        Err(e) => Err(e),
    }
}

proof fn lemma_bitmaps_of_stops(items: Seq<Read>, n: int, line: u64)
    requires
        0 <= n <= items.len(),
        bitmaps_of(items.take(n), line) is Err,
    ensures
        bitmaps_of(items, line) == bitmaps_of(items.take(n), line),
    decreases items.len(),
{
    if n == items.len() {
        assert(items.take(n) =~= items);
    } else {
        assert(items.drop_last().take(n) =~= items.take(n));
        lemma_bitmaps_of_stops(items.drop_last(), n, line);
    }
}

/// The objects of a display set.
fn parse_objects(arr: &[JsonValue<Number>], line: u64) -> (r: Result<Vec<ObjectBitmap>, String>)
    ensures
        match (r, bitmaps_of(trees(arr@), line)) {
            (Ok(v), Ok(w)) => bitmap_views(v@) == w,
            (Err(e), Err(t)) => e@ == t,
            _ => false,
        },
{
    let ghost all = trees(arr@);
    let mut items: Vec<ObjectBitmap> = Vec::new();
    let mut i: usize = 0;
    assert(all.take(0) =~= Seq::empty());
    assert(bitmap_views(items@) =~= Seq::empty());
    while i < arr.len()
        invariant
            i <= arr@.len(),
            all == trees(arr@),
            bitmaps_of(all.take(i as int), line) == Ok::<_, Seq<char>>(bitmap_views(items@)),
        decreases arr@.len() - i,
    {
        proof {
            assert(all.take(i + 1).drop_last() =~= all.take(i as int));
            assert(all.take(i + 1).last() == arr@[i as int].tree());
        }
        let one = match parse_object_json(&arr[i], line) {
            Ok(v) => v,
            Err(e) => {
                proof {
                    lemma_bitmaps_of_stops(all, i + 1, line);
                }
                return Err(e);
            },
        };
        let ghost before = bitmap_views(items@);
        items.push(one);
        assert(bitmap_views(items@) =~= before.push(one@));
        i += 1;
    }
    assert(all.take(i as int) =~= all);
    Ok(items)
}

/// The timestamp of a display set.
fn parse_pts(j: &JsonValue<Number>, line: u64) -> (r: Result<u64, String>)
    ensures
        checked_as(r, pts_of_line(j.tree(), line)),
{
    if let Some(v) = j.get("pts") {
        return match v {
            JsonValue::Num(n) => Ok(n.whole),
            _ => Err(line_message(line, "'pts' is not a number")),
        };
    }
    match j.get("pts_ms") {
        Some(JsonValue::Num(n)) => Ok(n.ticks),
        Some(_) => Err(line_message(line, "'pts_ms' is not a number")),
        None => Err(line_message(line, "missing 'pts' or 'pts_ms'")),
    }
}

/// What a line says.
pub enum EncodedLine {
    /// It describes tracks.
    Tracks,
    /// It is of another type.
    Unknown(String),
    /// It describes a display set without a composition.
    NoComposition,
    /// It describes a display set of a track.
    Described(u64, DisplaySet),
}

impl View for EncodedLine {
    type V = LineView;

    open spec fn view(&self) -> LineView {
        match self {
            EncodedLine::Tracks => LineView::Tracks,
            EncodedLine::Unknown(t) => LineView::Unknown(t@),
            EncodedLine::NoComposition => LineView::NoComposition,
            EncodedLine::Described(id, ds) => LineView::Described(*id, ds@),
        }
    }
}

/// What a display set is built from.
fn parse_builder(j: &JsonValue<Number>, composition: &JsonValue<Number>, pts: u64, line: u64) -> (r:
    Result<DisplaySetBuilder, String>)
    requires
        pts_of_line(j.tree(), line) == Ok::<u64, Seq<char>>(pts),
    ensures
        viewed_as(r, builder_of(j.tree(), composition.tree(), line)),
{
    let pcs = match parse_pcs_json(composition, line) {
        Ok(p) => p,
        Err(e) => {
            return Err(e);
        },
    };
    let mut builder = DisplaySetBuilder::new(pts).pcs(pcs);
    let wds = match parse_wds_json(array_items(j, "windows"), line) {
        Ok(w) => w,
        Err(e) => {
            return Err(e);
        },
    };
    let palettes = match parse_pds_json(array_items(j, "palettes"), line) {
        Ok(p) => p,
        Err(e) => {
            return Err(e);
        },
    };
    let objects = match parse_objects(array_items(j, "objects"), line) {
        Ok(o) => o,
        Err(e) => {
            return Err(e);
        },
    };
    if wds.windows.len() > 0 {
        builder = builder.wds(wds);
    }
    let ghost start = builder@;
    assert(palette_views(palettes@).take(0) =~= Seq::empty());
    for p in it: palettes
        invariant
            it.seq() == palettes@,
            start.palettes == Seq::<PdsView>::empty(),
            builder@ == (BuilderView {
                palettes: palette_views(palettes@).take(it.index() as int),
                ..start
            }),
    {
        builder = builder.palette(p);
        assert(palette_views(palettes@).take(it.index() + 1) =~= palette_views(palettes@).take(
            it.index() as int,
        ).push(p@));
    }
    let ghost middle = builder@;
    assert(middle.palettes =~= palette_views(palettes@));
    assert(bitmap_views(objects@).take(0) =~= Seq::empty());
    for o in it: objects
        invariant
            it.seq() == objects@,
            middle.objects == Seq::<BitmapView>::empty(),
            builder@ == (BuilderView {
                objects: bitmap_views(objects@).take(it.index() as int),
                ..middle
            }),
    {
        builder = builder.object(o);
        assert(bitmap_views(objects@).take(it.index() + 1) =~= bitmap_views(objects@).take(
            it.index() as int,
        ).push(o@));
    }
    assert(builder@.objects =~= bitmap_views(objects@));
    Ok(builder)
}

/// What a line says, given the JSON value on it and its number.
pub fn encode_line(json: &JsonValue<Number>, line: u64) -> (r: Result<EncodedLine, PgsError>)
    ensures
        match (r, line_of(json.tree(), line)) {
            (Ok(l), Ok(v)) => l@ == v,
            (Err(e), Err(v)) => e@ == v,
            _ => false,
        },
{
    let kind: Option<&str> = match json.get("type") {
        Some(v) => v.as_str(),
        None => None,
    };
    let name = match kind {
        Some(t) => t.to_owned(),
        None => {
            return Err(PgsError::EncodingError(line_message(line, "missing 'type' field")));
        },
    };
    if name == "tracks".to_owned() {
        return Ok(EncodedLine::Tracks);
    }
    if !(name == "display_set".to_owned()) {
        return Ok(EncodedLine::Unknown(name));
    }
    let pts: u64 = match parse_pts(json, line) {
        Ok(p) => p,
        Err(e) => {
            return Err(PgsError::EncodingError(e));
        },
    };
    let track_id: u64 = match json.get("track_id") {
        Some(JsonValue::Num(n)) => n.whole,
        _ => 0,
    };
    let composition = match json.get("composition") {
        Some(c) => c,
        None => {
            return Ok(EncodedLine::NoComposition);
        },
    };
    if composition.is_null() {
        return Ok(EncodedLine::NoComposition);
    }
    let builder = match parse_builder(json, composition, pts, line) {
        Ok(b) => b,
        Err(e) => {
            return Err(PgsError::EncodingError(e));
        },
    };
    match builder.build() {
        Ok(ds) => Ok(EncodedLine::Described(track_id, ds)),
        Err(e) => Err(e),
    }
}

} // verus!
