//! JSON values, base64, and the lines made of them.
use libpgs::ndjson::base64::{base64_decode, base64_encode};
use libpgs::ndjson::encode::{
    encode_line, parse_composition_state_str, parse_object_json, parse_pcs_json, parse_pds_json,
    parse_wds_json, EncodedLine,
};
use libpgs::ndjson::grouping::EncodedTracks;
use libpgs::ndjson::json::{push_json, push_quoted, JsonValue, Number};
use libpgs::ndjson::lines::{display_set_line, tracks_line};
use libpgs::ndjson::parse::{json_parse, json_skip_ws};
use libpgs::ndjson::session::EncodeSession;
use libpgs::ndjson::stream::NdjsonStream;
use libpgs::pgs::{
    CompositionObject, CompositionState, CropInfo, DisplaySet, DisplaySetBuilder, ObjectBitmap,
    PaletteEntry, PcsData, PdsData, PgsSegment, SegmentType, WdsData, WindowDefinition,
};
use libpgs::sup::write::sup_file_bytes;
use libpgs::{ContainerFormat, PgsTrackInfo, TrackDisplaySet};

fn numbered(v: JsonValue<String>) -> JsonValue<Number> {
    match v {
        JsonValue::Null => JsonValue::Null,
        JsonValue::Bool(b) => JsonValue::Bool(b),
        JsonValue::Str(s) => JsonValue::Str(s),
        JsonValue::Num(t) => {
            let n: f64 = t.parse().unwrap();
            JsonValue::Num(Number { whole: n as u64, ticks: (n * 90.0).round() as u64 })
        }
        JsonValue::Array(items) => JsonValue::Array(items.into_iter().map(numbered).collect()),
        JsonValue::Object(pairs) => {
            JsonValue::Object(pairs.into_iter().map(|(k, v)| (k, numbered(v))).collect())
        }
    }
}

fn read(text: &str) -> JsonValue<Number> {
    numbered(json_parse(text).unwrap())
}

fn rendered(v: &JsonValue<String>) -> String {
    let mut s = String::new();
    push_json(&mut s, v);
    s
}

fn sample() -> DisplaySet {
    DisplaySetBuilder::new(311_580)
        .pcs(PcsData {
            video_width: 1920,
            video_height: 1080,
            composition_number: 1,
            composition_state: CompositionState::EpochStart,
            palette_only: false,
            palette_id: 0,
            objects: vec![CompositionObject {
                object_id: 0,
                window_id: 0,
                x: 773,
                y: 108,
                crop: Some(CropInfo { x: 1, y: 2, width: 3, height: 4 }),
            }],
        })
        .wds(WdsData {
            windows: vec![WindowDefinition { id: 0, x: 773, y: 108, width: 377, height: 43 }],
        })
        .palette(PdsData {
            id: 0,
            version: 0,
            entries: vec![PaletteEntry { id: 0, luminance: 16, cr: 128, cb: 128, alpha: 0 }],
        })
        .object(ObjectBitmap { id: 0, version: 0, width: 2, height: 1, pixels: vec![1, 2] })
        .build()
        .unwrap()
}

const SAMPLE_LINE: &str = "{\"type\":\"display_set\",\"track_id\":3,\"index\":0,\"pts\":311580,\"pts_ms\":3462.0000,\
     \"composition\":{\"number\":1,\"state\":\"epoch_start\",\"video_width\":1920,\
     \"video_height\":1080,\"palette_only\":false,\"palette_id\":0,\"objects\":[{\"object_id\":0,\
     \"window_id\":0,\"x\":773,\"y\":108,\"crop\":{\"x\":1,\"y\":2,\"width\":3,\"height\":4}}]},\
     \"windows\":[{\"id\":0,\"x\":773,\"y\":108,\"width\":377,\"height\":43}],\
     \"palettes\":[{\"id\":0,\"version\":0,\"entries\":[{\"id\":0,\"luminance\":16,\"cr\":128,\
     \"cb\":128,\"alpha\":0}]}],\"objects\":[{\"id\":0,\"version\":0,\"sequence\":\"complete\",\
     \"data_length\":8,\"width\":2,\"height\":1,\"bitmap\":\"AQI=\"}]}";

#[test]
fn base64_of_known_bytes() {
    assert_eq!(base64_encode(b""), "");
    assert_eq!(base64_encode(b"f"), "Zg==");
    assert_eq!(base64_encode(b"fo"), "Zm8=");
    assert_eq!(base64_encode(b"foo"), "Zm9v");
    assert_eq!(base64_encode(b"foobar"), "Zm9vYmFy");
    assert_eq!(base64_encode(&[0xFB, 0xFF, 0xBF]), "+/+/");
}

#[test]
fn base64_comes_back() {
    for n in 0..70usize {
        let data: Vec<u8> = (0..n).map(|i| (i * 37 + n) as u8).collect();
        assert_eq!(base64_decode(&base64_encode(&data)).unwrap(), data);
    }
}

#[test]
fn base64_padding_and_strays() {
    assert_eq!(base64_decode("Zm8").unwrap(), b"fo");
    assert_eq!(base64_decode("Z=m=8=").unwrap(), b"fo");
    assert_eq!(base64_decode("Z").unwrap(), vec![0x64]);
    assert_eq!(base64_decode("Zm 9v").unwrap_err(), "invalid base64 character: ' '");
    assert_eq!(base64_decode("-").unwrap_err(), "invalid base64 character: '-'");
    assert_eq!(base64_decode("\u{e9}").unwrap_err(), "invalid base64 character: '\u{c3}'");
}

#[test]
fn json_values_are_read() {
    let v = read(" { \"a\" : [ 1 , -2.5e1 , true , false , null , \"x\\n\\\"\\\\\\/\\q\" ] , \"b\" : { } } tail");
    let a = v.get("a").unwrap().as_array().unwrap();
    assert_eq!(a.len(), 6);
    assert_eq!(a[0].as_u64(), Some(1));
    assert_eq!(a[1].as_u64(), Some(0));
    assert_eq!(a[2].as_bool(), Some(true));
    assert_eq!(a[3].as_bool(), Some(false));
    assert!(a[4].is_null());
    assert_eq!(a[5].as_str(), Some("x\n\"\\/\\q"));
    assert!(matches!(v.get("b"), Some(JsonValue::Object(p)) if p.is_empty()));
    assert!(v.get("c").is_none());
    assert!(a[0].get("x").is_none());
    assert_eq!(read("70000").as_u16(), Some(65535));
    assert_eq!(read("70000").as_u8(), Some(255));
    assert_eq!(read("[]").as_array().unwrap().len(), 0);
    assert_eq!(read("\"\u{e9}\"").as_str(), Some("\u{c3}\u{a9}"));
    assert_eq!(json_skip_ws(b" \t\r\nx", 0), 4);
}

#[test]
fn json_complaints() {
    let complaint = |s: &str| json_parse(s).unwrap_err();
    assert_eq!(complaint(""), "empty JSON input");
    assert_eq!(complaint("  \n"), "empty JSON input");
    assert_eq!(complaint("nul"), "expected 'null' at offset 0");
    assert_eq!(complaint(" trux"), "expected 'true' at offset 1");
    assert_eq!(complaint("falsy"), "expected 'false' at offset 0");
    assert_eq!(complaint("?"), "unexpected character '?' at offset 0");
    assert_eq!(complaint("\"abc"), "unterminated string");
    assert_eq!(complaint("\"abc\\"), "unterminated string escape");
    assert_eq!(complaint("1.2.3"), "invalid number '1.2.3' at offset 0");
    assert_eq!(complaint("-"), "invalid number '-' at offset 0");
    assert_eq!(complaint("[1"), "unterminated array");
    assert_eq!(complaint("[1 2]"), "expected ',' or ']' at offset 3");
    assert_eq!(complaint("[1,"), "unexpected end of input");
    assert_eq!(complaint("{\"a\" 1}"), "expected ':' after key 'a' at offset 5");
    assert_eq!(complaint("{\"a\":1"), "unterminated object");
    assert_eq!(complaint("{\"a\":1 \"b\"}"), "expected ',' or '}' at offset 7");
    assert_eq!(complaint("{a:1}"), "expected '\"' at offset 1");
    assert_eq!(complaint("{"), "unexpected end of input");
}

#[test]
fn numbers_are_what_floats_are() {
    for good in ["0", "-0", "12", "1.", "-.5", "1e5", "1E-5", "1.5e+10", "00"] {
        assert!(good.parse::<f64>().is_ok());
        assert!(json_parse(good).is_ok(), "{good}");
    }
    for bad in ["-", "1e", "1e+", "1.e5.", "1-2", "-.", "--1", "1e5e5"] {
        assert!(bad.parse::<f64>().is_err());
        assert!(json_parse(bad).is_err(), "{bad}");
    }
}

#[test]
fn json_comes_back() {
    let v: JsonValue<String> = JsonValue::Object(vec![
        ("a\t\"".to_string(), JsonValue::Array(vec![])),
        (
            "b".to_string(),
            JsonValue::Array(vec![
                JsonValue::Num("1.5".to_string()),
                JsonValue::Str("\\ \n\r\u{1}".to_string()),
                JsonValue::Null,
                JsonValue::Bool(true),
                JsonValue::Bool(false),
                JsonValue::Object(vec![]),
            ]),
        ),
    ]);
    let text = rendered(&v);
    assert_eq!(
        text,
        "{\"a\\t\\\"\":[],\"b\":[1.5,\"\\\\ \\n\\r\u{1}\",null,true,false,{}]}"
    );
    assert_eq!(rendered(&json_parse(&text).unwrap()), text);
    let mut q = String::new();
    push_quoted(&mut q, "say \"hi\"");
    assert_eq!(q, "\"say \\\"hi\\\"\"");
}

#[test]
fn tracks_are_described() {
    let track = PgsTrackInfo {
        track_id: 3,
        language: Some("en".to_string()),
        container: ContainerFormat::Matroska,
        name: Some("English Subtitles".to_string()),
        flag_default: Some(true),
        flag_forced: Some(false),
        display_set_count: Some(1234),
        has_cues: Some(true),
    };
    let bare = PgsTrackInfo {
        track_id: 4608,
        language: None,
        container: ContainerFormat::M2ts,
        name: None,
        flag_default: None,
        flag_forced: None,
        display_set_count: None,
        has_cues: None,
    };
    assert_eq!(
        tracks_line(&[track]),
        "{\"type\":\"tracks\",\"tracks\":[{\"track_id\":3,\"language\":\"en\",\
         \"container\":\"Matroska\",\"name\":\"English Subtitles\",\"is_default\":true,\
         \"is_forced\":false,\"display_set_count\":1234,\"indexed\":true}]}"
    );
    assert_eq!(
        tracks_line(&[bare]),
        "{\"type\":\"tracks\",\"tracks\":[{\"track_id\":4608,\"language\":null,\
         \"container\":\"M2TS\",\"name\":null,\"is_default\":null,\
         \"is_forced\":null,\"display_set_count\":null,\"indexed\":null}]}"
    );
    assert_eq!(tracks_line(&[]), "{\"type\":\"tracks\",\"tracks\":[]}");
}

#[test]
fn a_display_set_is_described() {
    assert_eq!(display_set_line(3, 0, &sample(), false), SAMPLE_LINE);
}

#[test]
fn milliseconds_are_rounded_to_four_places() {
    for pts in [0u64, 1, 44, 45, 89, 90, 91, 311_580, 92_863_981, 8_589_934_591] {
        let ds = DisplaySet { pts, composition_state: CompositionState::Normal, segments: vec![] };
        let line = display_set_line(0, 0, &ds, false);
        let want = format!("\"pts\":{},\"pts_ms\":{:.4},", pts, pts as f64 / 90.0);
        assert!(line.contains(&want), "{line}");
    }
}

#[test]
fn payloads_are_described_if_wanted() {
    let line = display_set_line(3, 0, &sample(), true);
    let json = read(&line);
    let ds = sample();
    let payload = |v: &JsonValue<Number>| {
        base64_decode(v.get("payload").unwrap().as_str().unwrap()).unwrap()
    };
    assert_eq!(payload(json.get("composition").unwrap()), ds.segments[0].payload);
    assert_eq!(payload(&json.get("windows").unwrap().as_array().unwrap()[0]), ds.segments[1].payload);
    assert_eq!(
        payload(&json.get("palettes").unwrap().as_array().unwrap()[0]),
        ds.segments[2].payload
    );
    assert_eq!(payload(&json.get("objects").unwrap().as_array().unwrap()[0]), ds.segments[3].payload);
}

#[test]
fn malformed_payloads_are_null_beside_their_bytes() {
    let seg = |segment_type: SegmentType| PgsSegment {
        pts: 0,
        dts: 0,
        segment_type,
        payload: vec![9],
    };
    let ds = DisplaySet {
        pts: 0,
        composition_state: CompositionState::Normal,
        segments: vec![
            seg(SegmentType::PresentationComposition),
            seg(SegmentType::WindowDefinition),
            seg(SegmentType::PaletteDefinition),
            seg(SegmentType::ObjectDefinition),
        ],
    };
    let plain = read(&display_set_line(0, 0, &ds, false));
    assert!(plain.get("composition").unwrap().is_null());
    for key in ["windows", "palettes", "objects"] {
        assert!(plain.get(key).unwrap().as_array().unwrap().is_empty());
    }
    let raw = read(&display_set_line(0, 0, &ds, true));
    let comp = raw.get("composition").unwrap();
    assert!(comp.get("state").unwrap().is_null());
    assert_eq!(comp.get("payload").unwrap().as_str(), Some("CQ=="));
    for key in ["windows", "palettes", "objects"] {
        let items = raw.get(key).unwrap().as_array().unwrap();
        assert_eq!(items.len(), 1);
        assert!(items[0].get("id").unwrap().is_null());
        assert_eq!(items[0].get("payload").unwrap().as_str(), Some("CQ=="));
    }
}

#[test]
fn fragments_are_reassembled() {
    let pixels: Vec<u8> = (0..1920 * 100).map(|i| (i % 251 + 1) as u8).collect();
    let ds = DisplaySetBuilder::new(0)
        .pcs(PcsData {
            video_width: 1920,
            video_height: 1080,
            composition_number: 0,
            composition_state: CompositionState::EpochStart,
            palette_only: false,
            palette_id: 0,
            objects: vec![],
        })
        .object(ObjectBitmap { id: 4, version: 2, width: 1920, height: 100, pixels: pixels.clone() })
        .build()
        .unwrap();
    assert!(ds.segments.len() > 3);
    let json = read(&display_set_line(0, 0, &ds, false));
    let objects = json.get("objects").unwrap().as_array().unwrap();
    assert_eq!(objects.len(), 1);
    assert_eq!(objects[0].get("sequence").unwrap().as_str(), Some("reassembled"));
    let bitmap = base64_decode(objects[0].get("bitmap").unwrap().as_str().unwrap()).unwrap();
    assert_eq!(bitmap, pixels);
}

#[test]
fn a_lone_last_fragment_has_no_bitmap() {
    let ds = DisplaySet {
        pts: 0,
        composition_state: CompositionState::Normal,
        segments: vec![PgsSegment {
            pts: 0,
            dts: 0,
            segment_type: SegmentType::ObjectDefinition,
            payload: vec![0, 7, 1, 0x40, 5],
        }],
    };
    assert!(display_set_line(0, 0, &ds, false).ends_with(
        "\"objects\":[{\"id\":7,\"version\":1,\"sequence\":\"last\",\"data_length\":0,\
         \"bitmap\":null}]}"
    ));
}

#[test]
fn lines_are_numbered_within_tracks() {
    let mut stream = NdjsonStream::new(false);
    let mut seen = Vec::new();
    for id in [3u32, 5, 3, 3, 5] {
        let set = TrackDisplaySet {
            track_id: id,
            language: None,
            container: ContainerFormat::Sup,
            display_set: sample(),
        };
        let json = read(&stream.line(&set));
        seen.push((id, json.get("index").unwrap().as_u64().unwrap()));
    }
    assert_eq!(seen, vec![(3, 0), (5, 0), (3, 1), (3, 2), (5, 1)]);
    assert_eq!(stream.described(3), 3);
    assert_eq!(stream.described(9), 0);
}

#[test]
fn a_streamed_display_set_is_encoded_unchanged() {
    for raw in [false, true] {
        let line = display_set_line(3, 0, &sample(), raw);
        match encode_line(&read(&line), 1).unwrap() {
            EncodedLine::Described(id, ds) => {
                assert_eq!(id, 3);
                assert_eq!(sup_file_bytes(&[ds]), sup_file_bytes(&[sample()]));
            }
            _ => panic!("no display set"),
        }
    }
}

fn encoded(line: &str) -> EncodedLine {
    encode_line(&read(line), 7).unwrap()
}

fn complaint(line: &str) -> String {
    encode_line(&read(line), 7).err().unwrap().message()
}

#[test]
fn lines_of_other_kinds() {
    assert!(matches!(encoded("{\"type\":\"tracks\"}"), EncodedLine::Tracks));
    assert!(matches!(encoded("{\"type\":\"note\"}"), EncodedLine::Unknown(t) if t == "note"));
    assert!(matches!(
        encoded("{\"type\":\"display_set\",\"pts\":1}"),
        EncodedLine::NoComposition
    ));
    assert!(matches!(
        encoded("{\"type\":\"display_set\",\"pts\":1,\"composition\":null}"),
        EncodedLine::NoComposition
    ));
}

const COMPOSITION: &str = "\"composition\":{\"number\":1,\"state\":\"normal\",\"video_width\":2,\
    \"video_height\":3,\"palette_only\":true,\"palette_id\":4}";

#[test]
fn timestamps_of_lines() {
    let pts = |fields: &str| {
        let line = format!("{{\"type\":\"display_set\",{fields}{COMPOSITION}}}");
        match encoded(&line) {
            EncodedLine::Described(id, ds) => {
                assert_eq!(id, 0);
                assert_eq!(ds.segments.len(), 2);
                ds.pts
            }
            _ => panic!("no display set"),
        }
    };
    assert_eq!(pts("\"pts\":90000,"), 90000);
    assert_eq!(pts("\"pts\":90000,\"pts_ms\":5,"), 90000);
    assert_eq!(pts("\"pts_ms\":3462.0,"), 311_580);
}

#[test]
fn complaints_about_lines() {
    let set = |rest: &str| complaint(&format!("{{\"type\":\"display_set\",\"pts\":1,{rest}}}"));
    assert_eq!(complaint("{}"), "encoding error: line 7: missing 'type' field");
    assert_eq!(complaint("{\"type\":1}"), "encoding error: line 7: missing 'type' field");
    assert_eq!(
        complaint("{\"type\":\"display_set\"}"),
        "encoding error: line 7: missing 'pts' or 'pts_ms'"
    );
    assert_eq!(
        complaint("{\"type\":\"display_set\",\"pts\":null}"),
        "encoding error: line 7: 'pts' is not a number"
    );
    assert_eq!(
        complaint("{\"type\":\"display_set\",\"pts_ms\":\"1\"}"),
        "encoding error: line 7: 'pts_ms' is not a number"
    );
    assert_eq!(set("\"composition\":{}"), "encoding error: line 7: missing field 'state'");
    assert_eq!(
        set("\"composition\":{\"state\":1}"),
        "encoding error: line 7: 'state' is not a string"
    );
    assert_eq!(
        set("\"composition\":{\"state\":\"odd\"}"),
        "encoding error: line 7: unknown composition state 'odd'"
    );
    assert_eq!(
        set("\"composition\":{\"state\":\"normal\",\"objects\":[{\"crop\":{\"x\":true}}]}"),
        "encoding error: line 7: field 'x' is not a number"
    );
    assert_eq!(
        set("\"composition\":{\"state\":\"normal\",\"video_width\":1,\"video_height\":1,\
             \"number\":1,\"palette_only\":0}"),
        "encoding error: line 7: 'palette_only' is not a boolean"
    );
    let object = |fields: &str| {
        set(&format!("{COMPOSITION},\"objects\":[{{\"id\":5,\"version\":0,\"width\":2,\"height\":1{fields}}}]"))
    };
    assert_eq!(object(""), "encoding error: line 7: missing field 'bitmap'");
    assert_eq!(
        object(",\"bitmap\":null"),
        "encoding error: line 7: object 5 has null bitmap, cannot encode"
    );
    assert_eq!(object(",\"bitmap\":1"), "encoding error: line 7: 'bitmap' is not a string");
    assert_eq!(
        object(",\"bitmap\":\"?\""),
        "encoding error: line 7: object 5 bitmap decode failed: invalid base64 character: '?'"
    );
    assert_eq!(
        object(",\"bitmap\":\"AQID\""),
        "encoding error: line 7: object 5 bitmap size mismatch: got 3 bytes, expected 2 (2x1)"
    );
}

#[test]
fn parts_of_lines() {
    let windows = read("[{\"id\":1,\"x\":2,\"y\":3,\"width\":4,\"height\":5}]");
    let wds = parse_wds_json(windows.as_array().unwrap(), 1).unwrap();
    assert_eq!(wds.windows, vec![WindowDefinition { id: 1, x: 2, y: 3, width: 4, height: 5 }]);
    let palettes = read("[{\"id\":1,\"version\":2,\"entries\":[]}]");
    let pds = parse_pds_json(palettes.as_array().unwrap(), 1).unwrap();
    assert_eq!((pds[0].id, pds[0].version, pds[0].entries.len()), (1, 2, 0));
    let bad = read("[{\"id\":1,\"version\":2,\"entries\":{}}]");
    assert_eq!(
        parse_pds_json(bad.as_array().unwrap(), 1).unwrap_err(),
        "line 1: 'entries' is not an array"
    );
    let object = read("{\"id\":1,\"version\":2,\"width\":1,\"height\":1,\"bitmap\":\"BQ==\"}");
    assert_eq!(parse_object_json(&object, 1).unwrap().pixels, vec![5]);
    let pcs = read(&format!("{{{COMPOSITION}}}"));
    let pcs = parse_pcs_json(pcs.get("composition").unwrap(), 1).unwrap();
    assert_eq!((pcs.composition_number, pcs.video_width, pcs.video_height), (1, 2, 3));
    assert!(pcs.palette_only);
    assert_eq!(parse_composition_state_str("epoch_start"), Some(CompositionState::EpochStart));
    assert_eq!(parse_composition_state_str("Normal"), None);
}

#[test]
fn encoded_sets_are_grouped_by_track() {
    let mut tracks = EncodedTracks::new();
    for id in [7u64, 2, 7] {
        tracks.push(id, sample());
    }
    assert_eq!(tracks.len(), 2);
    assert_eq!((tracks.track_id(0), tracks.display_sets(0).len()), (7, 2));
    assert_eq!((tracks.track_id(1), tracks.display_sets(1).len()), (2, 1));
}

#[test]
fn sessions_say_what_they_leave_out() {
    let mut session = EncodeSession::new();
    assert_eq!(session.accept(EncodedLine::Tracks, 1), None);
    assert_eq!(session.accept(EncodedLine::Described(4, sample()), 2), None);
    assert_eq!(
        session.accept(EncodedLine::Unknown("note".to_string()), 3).as_deref(),
        Some("line 3: skipping unknown type 'note'")
    );
    assert_eq!(
        session.accept(EncodedLine::NoComposition, 4).as_deref(),
        Some("line 4: skipping display set with null composition")
    );
    assert_eq!(session.skipped(), 1);
    assert_eq!(session.tracks().len(), 1);
    assert_eq!(session.tracks().track_id(0), 4);
}

#[test]
fn names_outside_ascii_do_not_break_the_tracks_line() {
    let track = PgsTrackInfo {
        track_id: 1,
        language: None,
        container: ContainerFormat::Matroska,
        name: Some("\u{65e5}\u{672c}\u{8a9e} \"\u{1F600}\"\\".to_string()),
        flag_default: None,
        flag_forced: None,
        display_set_count: None,
        has_cues: None,
    };
    let line = tracks_line(&[track]);
    assert!(matches!(encode_line(&read(&line), 1).unwrap(), EncodedLine::Tracks));
}
