//! Whole files: extraction, streaming as JSON lines and encoding.
use flate2::write::ZlibEncoder;
use flate2::Compression;
use libpgs::extractor::detect_format;
use libpgs::io::{MemorySource, SeekBufReader};
use libpgs::m2ts::probe::probe_for_pgs;
use libpgs::m2ts::seeking::find_time_start;
use libpgs::m2ts::ts_packet::PacketFormat;
use libpgs::mkv::indexed::extract_blocks_for_cues;
use libpgs::mkv::{list_pgs_tracks_mkv, prepare_mkv_metadata};
use libpgs::mkv::tracks::ContentCompAlgo;
use libpgs::ndjson::base64::base64_decode;
use libpgs::ndjson::encode::{encode_line, EncodedLine};
use libpgs::ndjson::grouping::EncodedTracks;
use libpgs::ndjson::json::{JsonValue, Number};
use libpgs::ndjson::lines::{composition_state_name, container_name, tracks_line};
use libpgs::ndjson::parse::json_parse;
use libpgs::ndjson::stream::NdjsonStream;
use libpgs::pgs::{
    decode_rle, CompositionObject, CompositionState, DisplaySet, DisplaySetBuilder, ObjectBitmap,
    OdsData, PaletteEntry, PcsData, PdsData, SegmentType, WdsData, WindowDefinition,
};
use libpgs::range::TimeRange;
use libpgs::ranged::RangedExtractor;
use libpgs::sup::write::sup_file_bytes;
use libpgs::{
    extract_all_display_sets, extract_all_display_sets_with_stats, extract_display_sets,
    extract_display_sets_with_stats, list_pgs_tracks, ContainerFormat, Extractor, MkvStrategy,
    PgsTrackInfo, TrackDisplaySet, TrackDisplaySets,
};
use std::collections::{BTreeMap, HashMap};
use std::io::Write;

// --- Display sets ---

const SETS_PER_TRACK: usize = 18;

/// The display set with number `i` of a track. Every third one clears the
/// screen.
fn sample_set(track: u8, i: usize) -> DisplaySet {
    let pts = 90_000 + 90 * 1000 * i as u64 + 90 * track as u64;
    let clear = i % 3 == 2;
    let pcs = PcsData {
        video_width: 1920,
        video_height: 1080,
        composition_number: i as u16,
        composition_state: if clear {
            CompositionState::Normal
        } else {
            CompositionState::EpochStart
        },
        palette_only: false,
        palette_id: 0,
        objects: if clear {
            vec![]
        } else {
            vec![CompositionObject { object_id: 7, window_id: 0, x: 100, y: 900, crop: None }]
        },
    };
    let builder = DisplaySetBuilder::new(pts).pcs(pcs).wds(WdsData {
        windows: vec![WindowDefinition { id: 0, x: 100, y: 900, width: 20, height: 6 }],
    });
    if clear {
        return builder.build().unwrap();
    }
    let pixels = (0..20 * 6).map(|k| ((k * 7 + i + track as usize) % 5) as u8).collect();
    builder
        .palette(PdsData {
            id: 0,
            version: 0,
            entries: vec![
                PaletteEntry { id: 0, luminance: 16, cr: 128, cb: 128, alpha: 0 },
                PaletteEntry { id: 1, luminance: 235, cr: 100, cb: 150, alpha: 255 },
            ],
        })
        .object(ObjectBitmap { id: 7, version: 1, width: 20, height: 6, pixels })
        .build()
        .unwrap()
}

/// The segments of a display set without their headers' magic and timestamps.
fn bare_segments(ds: &DisplaySet) -> Vec<u8> {
    let mut out = Vec::new();
    for seg in &ds.segments {
        out.extend_from_slice(&seg.to_bytes()[10..]);
    }
    out
}

// --- Matroska ---

fn element(id: u32, data: &[u8]) -> Vec<u8> {
    let mut out: Vec<u8> = id.to_be_bytes().iter().copied().skip_while(|b| *b == 0).collect();
    out.push(0x01);
    out.extend_from_slice(&(data.len() as u64).to_be_bytes()[1..]);
    out.extend_from_slice(data);
    out
}

fn uint(id: u32, n: u64) -> Vec<u8> {
    element(id, &n.to_be_bytes())
}

fn track_entry(number: u8, uid: u64, lang: &str, name: &str, zlib: bool) -> Vec<u8> {
    let mut d = uint(0xD7, number as u64);
    d.extend(uint(0x73C5, uid));
    d.extend(uint(0x83, 0x11));
    d.extend(element(0x86, b"S_HDMV/PGS"));
    d.extend(element(0x22B59C, lang.as_bytes()));
    d.extend(element(0x536E, name.as_bytes()));
    d.extend(uint(0x88, 1));
    d.extend(uint(0x55AA, 0));
    if zlib {
        let algo = uint(0x4254, 0);
        d.extend(element(0x6D80, &element(0x6240, &element(0x5034, &algo))));
    }
    element(0xAE, &d)
}

fn simple_block(track: u8, relative: i16, data: &[u8]) -> Vec<u8> {
    let mut d = vec![0x80 | track];
    d.extend_from_slice(&relative.to_be_bytes());
    d.push(0x80);
    d.extend_from_slice(data);
    element(0xA3, &d)
}

fn zlib(data: &[u8]) -> Vec<u8> {
    let mut e = ZlibEncoder::new(Vec::new(), Compression::default());
    e.write_all(data).unwrap();
    e.finish().unwrap()
}

/// A Matroska file with a video track and the PGS tracks 3 and 5. The blocks of
/// track 5 are compressed.
fn matroska(cues: bool) -> Vec<u8> {
    let mut header = element(0x4282, b"matroska");
    header.extend(uint(0x4287, 4));
    let mut file = element(0x1A45DFA3, &header);

    let info = element(0x1549A966, &uint(0x2AD7B1, 1_000_000));
    let mut video = uint(0xD7, 1);
    video.extend(uint(0x83, 1));
    video.extend(element(0x86, b"V_MPEG4/ISO/AVC"));
    let mut tracks = element(0xAE, &video);
    tracks.extend(track_entry(3, 33, "eng", "English", false));
    tracks.extend(track_entry(5, 55, "fre", "Fran\u{e7}ais", true));
    let tracks = element(0x1654AE6B, &tracks);

    let mut count = element(0x4587, b"NUMBER_OF_FRAMES");
    count.extend(element(0x4487, SETS_PER_TRACK.to_string().as_bytes()));
    let mut tag = element(0x63C0, &uint(0x63C5, 33));
    tag.extend(element(0x67C8, &count));
    let tags = element(0x1254C367, &element(0x7373, &tag));

    let mut clusters = Vec::new();
    let mut places = Vec::new();
    for i in 0..SETS_PER_TRACK {
        let time = 1000 + 1000 * i as u64;
        let mut body = uint(0xE7, time);
        body.extend(simple_block(1, 0, &[0xAA; 100]));
        let first = body.len();
        body.extend(simple_block(3, 3, &bare_segments(&sample_set(3, i))));
        let second = body.len();
        body.extend(simple_block(5, 5, &zlib(&bare_segments(&sample_set(5, i)))));
        places.push((time, clusters.len(), [(3u64, first), (5u64, second)]));
        clusters.extend(element(0x1F43B675, &body));
    }

    let mut segment = info;
    segment.extend(tracks);
    segment.extend(tags);
    if cues {
        // One entry has a fixed size: the clusters start behind all of them.
        let entries = |start: usize| {
            let mut out = Vec::new();
            for (time, at, blocks) in &places {
                for (track, relative) in blocks {
                    let mut p = uint(0xF7, *track);
                    p.extend(uint(0xF1, (start + at) as u64));
                    p.extend(uint(0xF0, *relative as u64));
                    // The time of the block itself: each is as far behind its
                    // cluster as its track number says.
                    let mut point = uint(0xB3, *time + *track);
                    point.extend(element(0xB7, &p));
                    out.extend(element(0xBB, &point));
                }
            }
            element(0x1C53BB6B, &out)
        };
        let start = segment.len() + entries(0).len();
        segment.extend(entries(start));
    }
    segment.extend(clusters);
    file.extend(element(0x18538067, &segment));
    file
}

// --- Transport streams ---

/// Splits data into transport packets of one identifier, with stuffing in the
/// last one.
fn ts_packets(pid: u16, data: &[u8]) -> Vec<[u8; 188]> {
    let mut out = Vec::new();
    let mut rest = data;
    let mut first = true;
    while !rest.is_empty() {
        let mut p = [0xFFu8; 188];
        p[0] = 0x47;
        p[1] = if first { 0x40 } else { 0x00 } | (pid >> 8) as u8;
        p[2] = pid as u8;
        if rest.len() >= 184 {
            p[3] = 0x10;
            p[4..].copy_from_slice(&rest[..184]);
            rest = &rest[184..];
        } else {
            p[3] = 0x30;
            let stuffing = 183 - rest.len();
            p[4] = stuffing as u8;
            if stuffing > 0 {
                p[5] = 0x00;
            }
            p[5 + stuffing..].copy_from_slice(rest);
            rest = &[];
        }
        first = false;
        out.push(p);
    }
    out
}

fn pes(pts: u64, data: &[u8]) -> Vec<u8> {
    let mut out = vec![0x00, 0x00, 0x01, 0xBD];
    out.extend_from_slice(&((data.len() + 8) as u16).to_be_bytes());
    out.extend_from_slice(&[0x80, 0x80, 0x05]);
    out.push(0x21 | ((pts >> 29) as u8 & 0x0E));
    out.push((pts >> 22) as u8);
    out.push(((pts >> 14) as u8) | 1);
    out.push((pts >> 7) as u8);
    out.push(((pts << 1) as u8) | 1);
    out.extend_from_slice(data);
    out
}

/// A transport stream with the PGS packet identifiers 0x1200 and 0x1201.
fn transport(m2ts: bool) -> Vec<u8> {
    let pat = [
        0x00, 0x00, 0xB0, 0x0D, 0x00, 0x01, 0xC1, 0x00, 0x00, 0x00, 0x01, 0xE1, 0x00, 0, 0, 0, 0,
    ];
    let pmt = [
        0x00, 0x02, 0xB0, 0x1D, 0x00, 0x01, 0xC1, 0x00, 0x00, 0xE0, 0x41, 0xF0, 0x00, 0x90, 0xF2,
        0x00, 0xF0, 0x06, 0x0A, 0x04, b'e', b'n', b'g', 0x00, 0x90, 0xF2, 0x01, 0xF0, 0x00, 0, 0, 0,
        0,
    ];
    let mut packets = ts_packets(0, &pat);
    packets.extend(ts_packets(0x100, &pmt));
    for _ in 0..8 {
        packets.extend(ts_packets(0x1011, &[0xAB; 184]));
    }
    for i in 0..SETS_PER_TRACK {
        for (pid, track) in [(0x1200, 3), (0x1201, 5)] {
            let ds = sample_set(track, i);
            packets.extend(ts_packets(pid, &pes(ds.pts, &bare_segments(&ds))));
            packets.extend(ts_packets(0x1011, &[0xAB; 184]));
        }
    }
    let mut out = Vec::new();
    for p in packets {
        if m2ts {
            out.extend_from_slice(&[0, 0, 0, 0]);
        }
        out.extend_from_slice(&p);
    }
    out
}

// --- Files ---

/// Two-track files in all containers that can hold them.
fn fixtures() -> Vec<(&'static str, Vec<u8>)> {
    vec![
        ("matroska-with-cues.mkv", matroska(true)),
        ("matroska-no-cues.mkv", matroska(false)),
        ("mpeg-transport-stream.m2ts", transport(true)),
        ("mpeg-transport-stream.ts", transport(false)),
    ]
}

fn open(file: &[u8]) -> Extractor<MemorySource> {
    Extractor::open(MemorySource::new(file.to_vec()), &HashMap::new()).expect("open")
}

fn batch_baseline(file: &[u8]) -> Vec<TrackDisplaySets> {
    extract_all_display_sets(MemorySource::new(file.to_vec()), &HashMap::new())
        .expect("batch extraction should succeed")
}

fn tracks_of(file: &[u8]) -> Vec<PgsTrackInfo> {
    list_pgs_tracks(MemorySource::new(file.to_vec()), &HashMap::new())
        .expect("list_pgs_tracks should succeed")
}

fn drain(extractor: &mut Extractor<MemorySource>) -> Vec<TrackDisplaySet> {
    let mut out = Vec::new();
    while let Some(result) = extractor.next() {
        out.push(result.expect("streaming item should be Ok"));
    }
    out
}

// --- Streaming ---

#[test]
fn streaming_matches_batch_totals() {
    for (fixture, file) in fixtures() {
        let batch = batch_baseline(&file);
        let batch_total: usize = batch.iter().map(|t| t.display_sets.len()).sum();
        assert_eq!(batch_total, 2 * SETS_PER_TRACK);

        let mut extractor = open(&file);
        let mut count = 0usize;
        let mut track_counts: HashMap<u32, usize> = HashMap::new();
        let mut track_segments: HashMap<u32, usize> = HashMap::new();

        for tds in drain(&mut extractor) {
            count += 1;
            *track_counts.entry(tds.track_id).or_default() += 1;
            *track_segments.entry(tds.track_id).or_default() += tds.display_set.segments.len();
        }

        assert_eq!(
            count, batch_total,
            "{fixture}: streaming total ({count}) != batch total ({batch_total})"
        );

        for bt in &batch {
            let stream_count = track_counts.get(&bt.track.track_id).copied().unwrap_or(0);
            assert_eq!(
                stream_count,
                bt.display_sets.len(),
                "{fixture}: track {} display set mismatch: streaming={stream_count}, batch={}",
                bt.track.track_id,
                bt.display_sets.len()
            );

            let batch_segs: usize = bt.display_sets.iter().map(|ds| ds.segments.len()).sum();
            let stream_segs = track_segments.get(&bt.track.track_id).copied().unwrap_or(0);
            assert_eq!(
                stream_segs, batch_segs,
                "{fixture}: track {} segment mismatch: streaming={stream_segs}, batch={batch_segs}",
                bt.track.track_id
            );
        }
    }
}

#[test]
fn history_accumulates_correctly() {
    for (fixture, file) in fixtures() {
        let mut extractor = open(&file);

        let mut total = 0usize;
        while let Some(result) = extractor.next() {
            result.expect("should be Ok");
            total += 1;

            assert_eq!(extractor.history().len(), total);
        }

        let track_ids: Vec<u32> = extractor.tracks().iter().map(|t| t.track_id).collect();
        let mut sum = 0usize;
        for &tid in &track_ids {
            sum += extractor.history_for_track(tid).len();
        }
        assert_eq!(sum, total, "{fixture}: sum of per-track history != total history");
    }
}

#[test]
fn with_history_false_skips_catalog_but_yields_same_data() {
    for (fixture, file) in fixtures() {
        let control: Vec<(u32, u64)> = drain(&mut open(&file))
            .iter()
            .map(|tds| (tds.track_id, tds.display_set.pts))
            .collect();

        let mut ext = open(&file).with_history(false);
        let mut seen: Vec<(u32, u64)> = Vec::new();
        while let Some(r) = ext.next() {
            let tds = r.expect("ok");
            seen.push((tds.track_id, tds.display_set.pts));
            assert!(
                ext.history().is_empty(),
                "{fixture}: history must stay empty when disabled"
            );
        }
        assert!(ext.drain_history().is_empty());
        ext.clear_history();
        let mut seen_sorted = seen.clone();
        let mut control_sorted = control.clone();
        seen_sorted.sort();
        control_sorted.sort();
        assert_eq!(
            seen_sorted, control_sorted,
            "{fixture}: yielded data must match regardless of history flag"
        );
    }
}

#[test]
fn drain_history_clears_and_returns() {
    for (_, file) in fixtures() {
        let mut extractor = open(&file);

        for _ in 0..10 {
            extractor.next().expect("should have items").expect("Ok");
        }
        assert_eq!(extractor.history().len(), 10);

        let drained = extractor.drain_history();
        assert_eq!(drained.len(), 10);
        assert!(
            extractor.history().is_empty(),
            "history should be empty after drain"
        );

        let remaining = drain(&mut extractor).len();
        assert_eq!(extractor.history().len(), remaining);
    }
}

#[test]
fn early_termination_with_take() {
    for (_, file) in fixtures() {
        let mut extractor = open(&file);

        let mut first_five = Vec::new();
        while first_five.len() < 5 {
            first_five.push(extractor.next().expect("should have items").expect("Ok"));
        }
        assert_eq!(first_five.len(), 5);

        let partial_bytes = extractor.stats().bytes_read;
        assert!(partial_bytes > 0, "should have read some bytes");

        assert_eq!(extractor.history().len(), 5);
    }
}

#[test]
fn track_filter_restricts_output() {
    for (fixture, file) in fixtures() {
        let batch = batch_baseline(&file);
        let target = &batch[0];
        let tid = target.track.track_id;

        let mut extractor = open(&file).with_track_filter(&[tid]);

        let mut count = 0usize;
        let mut seg_count = 0usize;
        for tds in drain(&mut extractor) {
            assert_eq!(tds.track_id, tid, "should only yield filtered track");
            count += 1;
            seg_count += tds.display_set.segments.len();
        }

        let batch_segs: usize = target.display_sets.iter().map(|ds| ds.segments.len()).sum();
        assert_eq!(
            count,
            target.display_sets.len(),
            "{fixture}: display set count mismatch for filtered track"
        );
        assert_eq!(
            seg_count, batch_segs,
            "{fixture}: segment count mismatch for filtered track"
        );
    }
}

#[test]
fn stats_update_during_streaming() {
    for (_, file) in fixtures() {
        let mut extractor = open(&file);

        let initial_bytes = extractor.stats().bytes_read;

        extractor.next().expect("should have items").expect("Ok");
        let after_one = extractor.stats().bytes_read;
        assert!(
            after_one > initial_bytes,
            "bytes_read should increase after yielding a display set"
        );

        drain(&mut extractor);
        let final_bytes = extractor.stats().bytes_read;
        assert!(final_bytes >= after_one, "bytes_read should not decrease");
        assert!(extractor.stats().file_size > 0, "file_size should be set");
        assert_eq!(extractor.stats().file_size, file.len() as u64);
    }
}

#[test]
fn collect_by_track_matches_batch() {
    for (fixture, file) in fixtures() {
        let batch = batch_baseline(&file);
        let collected = open(&file).collect_by_track().expect("collect_by_track should succeed");

        assert_eq!(collected.len(), batch.len(), "{fixture}: track count mismatch");

        let batch_map: HashMap<u32, usize> =
            batch.iter().map(|t| (t.track.track_id, t.display_sets.len())).collect();

        for t in &collected {
            let expected = batch_map.get(&t.track.track_id).copied().unwrap_or(0);
            assert_eq!(
                t.display_sets.len(),
                expected,
                "{fixture}: collect_by_track: track {} has {} ds, batch has {}",
                t.track.track_id,
                t.display_sets.len(),
                expected
            );
        }
    }
}

#[test]
fn all_fixtures_produce_same_totals() {
    let mut results: Vec<(&str, usize, usize, usize, Vec<usize>)> = Vec::new();

    for (fixture, file) in fixtures() {
        let by_track = batch_baseline(&file);
        let track_count = by_track.len();
        let total_ds: usize = by_track.iter().map(|t| t.display_sets.len()).sum();
        let total_segs: usize = by_track
            .iter()
            .map(|t| t.display_sets.iter().map(|ds| ds.segments.len()).sum::<usize>())
            .sum();
        let mut per_track: Vec<usize> = by_track.iter().map(|t| t.display_sets.len()).collect();
        per_track.sort();

        results.push((fixture, total_ds, total_segs, track_count, per_track));
    }

    let (ref_fixture, ref_ds, ref_segs, ref_tracks, ref_per_track) = &results[0];

    for (fixture, total_ds, total_segs, track_count, per_track) in &results[1..] {
        assert_eq!(
            track_count, ref_tracks,
            "{fixture} has {track_count} tracks, but {ref_fixture} has {ref_tracks}"
        );
        assert_eq!(
            total_ds, ref_ds,
            "{fixture} has {total_ds} display sets, but {ref_fixture} has {ref_ds}"
        );
        assert_eq!(
            total_segs, ref_segs,
            "{fixture} has {total_segs} segments, but {ref_fixture} has {ref_segs}"
        );
        assert_eq!(
            per_track, ref_per_track,
            "{fixture} per-track display set distribution differs from {ref_fixture}"
        );
    }
}

#[test]
fn sup_roundtrip_from_mkv() {
    let batch = batch_baseline(&matroska(true));
    assert!(!batch.is_empty(), "should have at least one track");

    let source = &batch[0];
    let sup = sup_file_bytes(&source.display_sets);

    let mut extractor = open(&sup);
    assert_eq!(extractor.tracks().len(), 1);
    assert_eq!(extractor.tracks()[0].track_id, 0);
    assert_eq!(extractor.tracks()[0].container, ContainerFormat::Sup);

    let mut ds_count = 0usize;
    let mut seg_count = 0usize;
    for tds in drain(&mut extractor) {
        assert_eq!(tds.track_id, 0);
        ds_count += 1;
        seg_count += tds.display_set.segments.len();
    }

    assert_eq!(
        ds_count,
        source.display_sets.len(),
        "roundtrip display set count mismatch"
    );

    let source_segs: usize = source.display_sets.iter().map(|ds| ds.segments.len()).sum();
    assert_eq!(seg_count, source_segs, "roundtrip segment count mismatch");

    let mut extractor2 = open(&sup);
    for (i, (tds, orig_ds)) in
        drain(&mut extractor2).iter().zip(source.display_sets.iter()).enumerate()
    {
        assert_eq!(
            tds.display_set.pts, orig_ds.pts,
            "roundtrip PTS mismatch at display set {i}"
        );
        assert_eq!(
            tds.display_set.segments.len(),
            orig_ds.segments.len(),
            "roundtrip segment count mismatch at display set {i}"
        );
    }
}

// --- JSON lines ---

/// Reads the numbers of a JSON value.
fn numbered(v: JsonValue<String>) -> JsonValue<Number> {
    match v {
        JsonValue::Null => JsonValue::Null,
        JsonValue::Bool(b) => JsonValue::Bool(b),
        JsonValue::Str(s) => JsonValue::Str(s),
        JsonValue::Num(t) => {
            let n: f64 = t.parse().unwrap();
            JsonValue::Num(Number { whole: n as u64, ticks: (n * 90.0).round() as u64 })
        }
        JsonValue::Array(items) => JsonValue::Array(items.into_iter().map(numbered).collect()),
        JsonValue::Object(pairs) => {
            JsonValue::Object(pairs.into_iter().map(|(k, v)| (k, numbered(v))).collect())
        }
    }
}

fn parse_json(line: &str) -> JsonValue<Number> {
    numbered(json_parse(line).unwrap())
}

fn run_stream(file: &[u8], track_filter: Option<u32>, raw: bool) -> Vec<String> {
    let mut extractor = open(file);
    if let Some(id) = track_filter {
        extractor = extractor.with_track_filter(&[id]);
    }
    let mut lines = vec![tracks_line(extractor.tracks())];
    let mut stream = NdjsonStream::new(raw);
    for set in drain(&mut extractor) {
        lines.push(stream.line(&set));
    }
    lines
}

#[test]
fn ndjson_tracks_header_matches_api() {
    for (fixture, file) in fixtures() {
        let tracks = tracks_of(&file);
        let lines = run_stream(&file, None, false);
        assert!(!lines.is_empty(), "{fixture}: no output from stream command");

        let header = parse_json(&lines[0]);
        assert_eq!(header.get("type").unwrap().as_str().unwrap(), "tracks");

        let json_tracks = header.get("tracks").unwrap().as_array().unwrap();
        assert_eq!(json_tracks.len(), tracks.len(), "{fixture}: track count mismatch");

        for (json, track) in json_tracks.iter().zip(tracks.iter()) {
            assert_eq!(
                json.get("track_id").unwrap().as_u64().unwrap() as u32,
                track.track_id,
                "{fixture}: track_id mismatch"
            );
            let json_lang = json.get("language").unwrap();
            match &track.language {
                Some(lang) => assert_eq!(json_lang.as_str().unwrap(), lang.as_str()),
                None => assert!(json_lang.is_null()),
            }
            assert_eq!(
                json.get("container").unwrap().as_str().unwrap(),
                container_name(track.container)
            );
            let json_name = json.get("name").unwrap();
            match &track.name {
                // Text is read byte by byte.
                Some(name) => assert_eq!(
                    json_name.as_str().unwrap(),
                    name.bytes().map(|b| b as char).collect::<String>(),
                    "{fixture}: name mismatch"
                ),
                None => assert!(json_name.is_null(), "{fixture}: expected null name"),
            }
            let json_default = json.get("is_default").unwrap();
            match track.flag_default {
                Some(v) => assert_eq!(
                    json_default.as_bool().unwrap(),
                    v,
                    "{fixture}: is_default mismatch"
                ),
                None => assert!(json_default.is_null(), "{fixture}: expected null is_default"),
            }
            let json_forced = json.get("is_forced").unwrap();
            match track.flag_forced {
                Some(v) => {
                    assert_eq!(json_forced.as_bool().unwrap(), v, "{fixture}: is_forced mismatch")
                }
                None => assert!(json_forced.is_null(), "{fixture}: expected null is_forced"),
            }
            let json_count = json.get("display_set_count").unwrap();
            match track.display_set_count {
                Some(v) => assert_eq!(
                    json_count.as_u64().unwrap(),
                    v,
                    "{fixture}: display_set_count mismatch"
                ),
                None => {
                    assert!(json_count.is_null(), "{fixture}: expected null display_set_count")
                }
            }
            let json_indexed = json.get("indexed").unwrap();
            match track.has_cues {
                Some(v) => {
                    assert_eq!(json_indexed.as_bool().unwrap(), v, "{fixture}: indexed mismatch")
                }
                None => assert!(json_indexed.is_null(), "{fixture}: expected null indexed"),
            }
        }
    }
}

#[test]
fn ndjson_display_sets_match_batch_extraction() {
    for (fixture, file) in fixtures() {
        let batch = batch_baseline(&file);
        let lines = run_stream(&file, None, false);
        let ds_lines: Vec<&str> = lines[1..].iter().map(|s| s.as_str()).collect();

        let batch_total: usize = batch.iter().map(|t| t.display_sets.len()).sum();
        assert_eq!(
            ds_lines.len(),
            batch_total,
            "{fixture}: display set count mismatch (NDJSON={}, batch={batch_total})",
            ds_lines.len()
        );

        let mut batch_by_key: HashMap<(u32, u64), &DisplaySet> = HashMap::new();
        for t in &batch {
            for ds in &t.display_sets {
                batch_by_key.insert((t.track.track_id, ds.pts), ds);
            }
        }

        let mut matched_keys: Vec<(u32, u64)> = Vec::new();
        let mut track_index_counters: HashMap<u32, u64> = HashMap::new();

        for (i, line) in ds_lines.iter().enumerate() {
            let json = parse_json(line);
            assert_eq!(json.get("type").unwrap().as_str().unwrap(), "display_set");

            let tid = json.get("track_id").unwrap().as_u64().unwrap() as u32;
            let pts = json.get("pts").unwrap().as_u64().unwrap();
            let key = (tid, pts);
            let ds = batch_by_key.get(&key).unwrap_or_else(|| {
                panic!("{fixture} line {i}: no batch match for track={tid} pts={pts}")
            });

            let json_index = json.get("index").unwrap().as_u64().unwrap();
            let expected_index = track_index_counters.entry(tid).or_insert(0);
            assert_eq!(
                json_index, *expected_index,
                "{fixture} line {i}: index mismatch for track {tid}"
            );
            *expected_index += 1;

            assert_eq!(pts, ds.pts, "{fixture} line {i}: pts mismatch");

            let comp = json.get("composition").unwrap();
            if !comp.is_null() {
                assert_eq!(
                    comp.get("state").unwrap().as_str().unwrap(),
                    composition_state_name(ds.composition_state),
                    "{fixture} line {i}: composition state mismatch"
                );
            }

            assert!(json.get("windows").is_some(), "{fixture} line {i}: missing windows");
            assert!(json.get("palettes").is_some(), "{fixture} line {i}: missing palettes");
            assert!(json.get("objects").is_some(), "{fixture} line {i}: missing objects");

            let of_type = |t: SegmentType| {
                ds.segments.iter().filter(move |s| s.segment_type == t)
            };
            let pcs_count = of_type(SegmentType::PresentationComposition).count();
            let wds_window_count: usize = of_type(SegmentType::WindowDefinition)
                .filter_map(|s| s.parse_wds())
                .map(|w| w.windows.len())
                .sum();
            let pds_count = of_type(SegmentType::PaletteDefinition).count();
            let mut ods_ids: Vec<u16> = Vec::new();
            for seg in of_type(SegmentType::ObjectDefinition) {
                if let Some(ods) = seg.parse_ods() {
                    if !ods_ids.contains(&ods.id) {
                        ods_ids.push(ods.id);
                    }
                }
            }
            let ods_count = ods_ids.len();

            if pcs_count > 0 {
                assert!(!comp.is_null(), "{fixture} line {i}: composition should not be null");
            }
            assert_eq!(
                json.get("windows").unwrap().as_array().unwrap_or(&[]).len(),
                wds_window_count,
                "{fixture} line {i}: window count mismatch"
            );
            assert_eq!(
                json.get("palettes").unwrap().as_array().unwrap_or(&[]).len(),
                pds_count,
                "{fixture} line {i}: palette count mismatch"
            );
            assert_eq!(
                json.get("objects").unwrap().as_array().unwrap_or(&[]).len(),
                ods_count,
                "{fixture} line {i}: object count mismatch"
            );

            matched_keys.push(key);
        }

        assert_eq!(
            matched_keys.len(),
            batch_by_key.len(),
            "{fixture}: matched {} display sets but batch has {}",
            matched_keys.len(),
            batch_by_key.len()
        );
    }
}

#[test]
fn ndjson_track_filter_matches_api() {
    for (fixture, file) in fixtures() {
        let batch = batch_baseline(&file);
        let target = &batch[0];
        let tid = target.track.track_id;

        let lines = run_stream(&file, Some(tid), false);
        let header = parse_json(&lines[0]);
        let json_tracks = header.get("tracks").unwrap().as_array().unwrap();

        assert_eq!(json_tracks.len(), 1, "{fixture}: expected 1 track in filtered output");
        assert_eq!(json_tracks[0].get("track_id").unwrap().as_u64().unwrap(), tid as u64);

        let ds_lines = &lines[1..];
        assert_eq!(
            ds_lines.len(),
            target.display_sets.len(),
            "{fixture}: filtered display set count mismatch"
        );

        for line in ds_lines {
            let json = parse_json(line);
            assert_eq!(json.get("track_id").unwrap().as_u64().unwrap(), tid as u64);
        }
    }
}

#[test]
fn ndjson_raw_payloads_includes_base64() {
    for (fixture, file) in fixtures() {
        let lines = run_stream(&file, None, true);
        let json = parse_json(&lines[1]);
        assert_eq!(json.get("type").unwrap().as_str().unwrap(), "display_set");

        let comp = json.get("composition").unwrap();
        if !comp.is_null() {
            let payload = comp.get("payload");
            assert!(
                payload.is_some(),
                "{fixture}: composition missing payload in --raw-payloads mode"
            );
            assert!(
                payload.unwrap().as_str().is_some(),
                "{fixture}: composition payload should be a string"
            );
        }

        let objects = json.get("objects").unwrap().as_array().unwrap();
        for obj in objects {
            let payload = obj.get("payload");
            assert!(
                payload.is_some(),
                "{fixture}: object missing payload in --raw-payloads mode"
            );
        }
    }
}

#[test]
fn ndjson_default_mode_no_payload() {
    for (fixture, file) in fixtures() {
        let lines = run_stream(&file, None, false);
        let json = parse_json(&lines[1]);
        let comp = json.get("composition").unwrap();
        if !comp.is_null() {
            assert!(
                comp.get("payload").is_none(),
                "{fixture}: composition should not have payload in default mode"
            );
        }

        let objects = json.get("objects").unwrap().as_array().unwrap();
        for obj in objects {
            assert!(
                obj.get("payload").is_none(),
                "{fixture}: object should not have payload in default mode"
            );
        }
    }
}

#[test]
fn ndjson_bitmap_field_present() {
    for (fixture, file) in fixtures() {
        let lines = run_stream(&file, None, false);
        let mut checked = 0;

        for line in &lines[1..] {
            let json = parse_json(line);
            let objects = json.get("objects").unwrap().as_array().unwrap();
            for obj in objects {
                let bitmap = obj.get("bitmap");
                assert!(bitmap.is_some(), "{fixture}: object missing bitmap field");

                let w = obj.get("width");
                let h = obj.get("height");
                if let (Some(w), Some(h)) = (w, h) {
                    let w = w.as_u64().unwrap() as usize;
                    let h = h.as_u64().unwrap() as usize;
                    let bm = bitmap.unwrap();
                    if !bm.is_null() {
                        let decoded = base64_decode(bm.as_str().unwrap()).unwrap();
                        assert_eq!(
                            decoded.len(),
                            w * h,
                            "{fixture}: bitmap size mismatch: got {} expected {}",
                            decoded.len(),
                            w * h,
                        );
                        checked += 1;
                    }
                }
            }
        }

        assert!(checked > 0, "{fixture}: expected at least one decoded bitmap");
    }
}

// --- Encoding ---

/// Encodes JSON lines, with the number of display sets that were left out.
fn encode(lines: &[String]) -> (EncodedTracks, usize) {
    let mut tracks = EncodedTracks::new();
    let mut skipped = 0;
    for (i, line) in lines.iter().enumerate() {
        match encode_line(&parse_json(line), i as u64 + 1).unwrap() {
            EncodedLine::Described(id, ds) => tracks.push(id, ds),
            EncodedLine::NoComposition => skipped += 1,
            _ => {}
        }
    }
    (tracks, skipped)
}

/// Collects decoded bitmaps grouped by object identifier.
fn collect_bitmaps(ods_list: &[OdsData]) -> Vec<(u16, Vec<u8>)> {
    let mut groups: Vec<(u16, Option<u16>, Option<u16>, Vec<u8>)> = Vec::new();
    for ods in ods_list {
        if let Some(group) = groups.iter_mut().find(|(id, _, _, _)| *id == ods.id) {
            group.3.extend_from_slice(&ods.rle_data);
        } else {
            groups.push((ods.id, ods.width, ods.height, ods.rle_data.clone()));
        }
    }

    let mut result = Vec::new();
    for (id, width, height, rle_data) in groups {
        if let (Some(w), Some(h)) = (width, height) {
            if let Some(pixels) = decode_rle(&rle_data, w, h) {
                result.push((id, pixels));
            }
        }
    }
    result
}

#[test]
fn stream_encode_roundtrip_preserves_structure() {
    for (fixture, file) in fixtures() {
        let original_tracks = open(&file).collect_by_track().unwrap();
        let (encoded, skipped) = encode(&run_stream(&file, None, false));
        assert_eq!(skipped, 0);
        assert_eq!(encoded.len(), original_tracks.len());

        for (k, original) in original_tracks.iter().enumerate() {
            assert_eq!(encoded.track_id(k), original.track.track_id as u64);
            let sup = sup_file_bytes(encoded.display_sets(k));
            let re_extracted = drain(&mut open(&sup));

            let orig_ds = &original.display_sets;
            assert_eq!(
                re_extracted.len(),
                orig_ds.len(),
                "{fixture}: display set count mismatch"
            );

            for (i, (re, orig)) in re_extracted.iter().zip(orig_ds.iter()).enumerate() {
                assert_eq!(re.display_set.pts, orig.pts, "{fixture} ds[{i}]: PTS mismatch");
                assert_eq!(
                    re.display_set.composition_state, orig.composition_state,
                    "{fixture} ds[{i}]: composition state mismatch"
                );

                let re_pds: Vec<_> =
                    re.display_set.segments.iter().filter_map(|s| s.parse_pds()).collect();
                let orig_pds: Vec<_> =
                    orig.segments.iter().filter_map(|s| s.parse_pds()).collect();
                assert_eq!(
                    re_pds.len(),
                    orig_pds.len(),
                    "{fixture} ds[{i}]: palette count mismatch"
                );
                for (pi, (rp, op)) in re_pds.iter().zip(orig_pds.iter()).enumerate() {
                    assert_eq!(
                        rp.entries.len(),
                        op.entries.len(),
                        "{fixture} ds[{i}] palette[{pi}]: entry count mismatch"
                    );
                    for (ei, (re_entry, orig_entry)) in
                        rp.entries.iter().zip(op.entries.iter()).enumerate()
                    {
                        assert_eq!(
                            re_entry.id, orig_entry.id,
                            "{fixture} ds[{i}] palette[{pi}] entry[{ei}]: id mismatch"
                        );
                        assert_eq!(
                            re_entry.luminance, orig_entry.luminance,
                            "{fixture} ds[{i}] palette[{pi}] entry[{ei}]: luminance mismatch"
                        );
                        assert_eq!(
                            re_entry.alpha, orig_entry.alpha,
                            "{fixture} ds[{i}] palette[{pi}] entry[{ei}]: alpha mismatch"
                        );
                    }
                }

                let re_ods: Vec<_> =
                    re.display_set.segments.iter().filter_map(|s| s.parse_ods()).collect();
                let orig_ods: Vec<_> =
                    orig.segments.iter().filter_map(|s| s.parse_ods()).collect();
                let re_bitmaps = collect_bitmaps(&re_ods);
                let orig_bitmaps = collect_bitmaps(&orig_ods);

                assert_eq!(
                    re_bitmaps.len(),
                    orig_bitmaps.len(),
                    "{fixture} ds[{i}]: object count mismatch"
                );
                for (obj_id, re_pixels) in &re_bitmaps {
                    let orig_pixels = orig_bitmaps
                        .iter()
                        .find(|(id, _)| id == obj_id)
                        .map(|(_, p)| p)
                        .unwrap_or_else(|| panic!("{fixture} ds[{i}]: missing object {obj_id}"));
                    assert_eq!(
                        re_pixels.len(),
                        orig_pixels.len(),
                        "{fixture} ds[{i}] object {obj_id}: pixel count mismatch"
                    );
                    assert_eq!(
                        re_pixels, orig_pixels,
                        "{fixture} ds[{i}] object {obj_id}: pixel data mismatch"
                    );
                }
            }
        }
    }
}

#[test]
fn encode_empty_input_produces_no_output() {
    let (tracks, skipped) = encode(&[]);
    assert_eq!(tracks.len(), 0);
    assert_eq!(skipped, 0);
}

#[test]
fn encode_tracks_only_input_produces_no_output() {
    let (tracks, skipped) = encode(&["{\"type\":\"tracks\",\"tracks\":[]}\n".to_string()]);
    assert_eq!(tracks.len(), 0, "encode should succeed with tracks-only input");
    assert_eq!(skipped, 0);
}

// --- Transforming ---

/// Scale a palette-indexed bitmap 2x using nearest-neighbor interpolation.
fn scale_2x(pixels: &[u8], w: usize, h: usize) -> Vec<u8> {
    let new_w = w * 2;
    let new_h = h * 2;
    let mut out = vec![0u8; new_w * new_h];
    for y in 0..new_h {
        for x in 0..new_w {
            out[y * new_w + x] = pixels[(y / 2) * w + (x / 2)];
        }
    }
    out
}

/// Swaps Cr and Cb (hue rotation) and inverts luminance.
fn shift_palette(entry: &PaletteEntry) -> PaletteEntry {
    PaletteEntry {
        id: entry.id,
        luminance: 255 - entry.luminance,
        cr: entry.cb,
        cb: entry.cr,
        alpha: entry.alpha,
    }
}

#[test]
fn extract_transform_write_reread() {
    let mut files = fixtures();
    let sup: Vec<DisplaySet> = (0..SETS_PER_TRACK).map(|i| sample_set(3, i)).collect();
    files.push(("raw-pgs.sup", sup_file_bytes(&sup)));

    for (_, file) in files {
        let all_tracks = batch_baseline(&file);
        let track = all_tracks.iter().find(|t| !t.display_sets.is_empty()).unwrap();
        let mut transformed = Vec::new();

        for ds in &track.display_sets {
            let pcs_seg = ds
                .segments
                .iter()
                .find(|s| s.segment_type == SegmentType::PresentationComposition)
                .expect("display set must have PCS");
            let pcs = pcs_seg.parse_pcs().expect("PCS should parse");

            let wds_opt = ds
                .segments
                .iter()
                .find(|s| s.segment_type == SegmentType::WindowDefinition)
                .and_then(|s| s.parse_wds());

            let palettes: Vec<PdsData> = ds
                .segments
                .iter()
                .filter(|s| s.segment_type == SegmentType::PaletteDefinition)
                .filter_map(|s| s.parse_pds())
                .map(|pds| PdsData {
                    id: pds.id,
                    version: pds.version,
                    entries: pds.entries.iter().map(shift_palette).collect(),
                })
                .collect();

            let mut ods_by_id: BTreeMap<u16, (Option<u16>, Option<u16>, Vec<u8>)> =
                BTreeMap::new();
            for ods in ds.segments.iter().filter_map(|s| s.parse_ods()) {
                let entry = ods_by_id.entry(ods.id).or_insert_with(|| (None, None, Vec::new()));
                if let Some(w) = ods.width {
                    entry.0 = Some(w);
                }
                if let Some(h) = ods.height {
                    entry.1 = Some(h);
                }
                entry.2.extend_from_slice(&ods.rle_data);
            }

            let mut objects = Vec::new();
            for (id, (w_opt, h_opt, rle_data)) in &ods_by_id {
                let w = w_opt.expect("ODS must have width");
                let h = h_opt.expect("ODS must have height");
                // The scaled object stays within the video frame.
                let co = pcs.objects.iter().find(|o| o.object_id == *id);
                let (ox, oy) = co.map_or((0u16, 0u16), |c| (c.x, c.y));
                let max_w = pcs.video_width.saturating_sub(ox);
                let max_h = pcs.video_height.saturating_sub(oy);
                let new_w = (w * 2).min(max_w);
                let new_h = (h * 2).min(max_h);

                let pixels = decode_rle(rle_data, w, h).expect("RLE decode should succeed");
                let scaled_full = scale_2x(&pixels, w as usize, h as usize);
                let cropped = if new_w == w * 2 && new_h == h * 2 {
                    scaled_full
                } else {
                    let full_w = (w * 2) as usize;
                    let mut cropped = vec![0u8; new_w as usize * new_h as usize];
                    for row in 0..new_h as usize {
                        let src_start = row * full_w;
                        let dst_start = row * new_w as usize;
                        cropped[dst_start..dst_start + new_w as usize]
                            .copy_from_slice(&scaled_full[src_start..src_start + new_w as usize]);
                    }
                    cropped
                };
                objects.push(ObjectBitmap {
                    id: *id,
                    version: 0,
                    width: new_w,
                    height: new_h,
                    pixels: cropped,
                });
            }

            let new_pcs = PcsData {
                video_width: pcs.video_width,
                video_height: pcs.video_height,
                composition_number: pcs.composition_number,
                composition_state: pcs.composition_state,
                palette_only: pcs.palette_only,
                palette_id: pcs.palette_id,
                objects: pcs.objects.clone(),
            };
            let new_wds = wds_opt.map(|wds| WdsData {
                windows: wds
                    .windows
                    .iter()
                    .map(|win| WindowDefinition {
                        id: win.id,
                        x: win.x,
                        y: win.y,
                        width: (win.width * 2).min(pcs.video_width.saturating_sub(win.x)),
                        height: (win.height * 2).min(pcs.video_height.saturating_sub(win.y)),
                    })
                    .collect(),
            });

            let mut builder = DisplaySetBuilder::new(ds.pts).pcs(new_pcs);
            if let Some(wds) = new_wds {
                builder = builder.wds(wds);
            }
            for pds in palettes {
                builder = builder.palette(pds);
            }
            for obj in objects {
                builder = builder.object(obj);
            }
            transformed.push(builder.build().expect("builder should succeed"));
        }

        let written = sup_file_bytes(&transformed);
        assert!(!written.is_empty(), "output .sup file should not be empty");

        let reread = batch_baseline(&written);
        assert_eq!(reread.len(), 1, "SUP file should have exactly 1 track");

        let reread_ds = &reread[0].display_sets;
        assert_eq!(
            reread_ds.len(),
            transformed.len(),
            "re-read display set count should match written count"
        );

        for (i, (orig, reread)) in transformed.iter().zip(reread_ds.iter()).enumerate() {
            assert_eq!(orig.pts, reread.pts, "DS {i}: PTS mismatch");
            assert_eq!(
                orig.composition_state, reread.composition_state,
                "DS {i}: composition state mismatch"
            );
            assert_eq!(
                orig.segments.len(),
                reread.segments.len(),
                "DS {i}: segment count mismatch"
            );

            let orig_pcs = orig.segments[0].parse_pcs().unwrap();
            let reread_pcs = reread.segments[0].parse_pcs().unwrap();
            assert_eq!(orig_pcs.video_width, reread_pcs.video_width, "DS {i}: video width");
            assert_eq!(orig_pcs.video_height, reread_pcs.video_height, "DS {i}: video height");
            assert_eq!(orig_pcs.objects.len(), reread_pcs.objects.len(), "DS {i}: object count");

            let ods_count = |ds: &DisplaySet| {
                ds.segments
                    .iter()
                    .filter(|s| s.segment_type == SegmentType::ObjectDefinition)
                    .count()
            };
            assert_eq!(ods_count(orig), ods_count(reread), "DS {i}: ODS segment count");

            let orig_pds: Vec<_> = orig.segments.iter().filter_map(|s| s.parse_pds()).collect();
            let reread_pds: Vec<_> =
                reread.segments.iter().filter_map(|s| s.parse_pds()).collect();
            assert_eq!(orig_pds.len(), reread_pds.len(), "DS {i}: PDS count");
            for (j, (op, rp)) in orig_pds.iter().zip(reread_pds.iter()).enumerate() {
                assert_eq!(op.entries.len(), rp.entries.len(), "DS {i} PDS {j}: entry count");
                for (k, (oe, re)) in op.entries.iter().zip(rp.entries.iter()).enumerate() {
                    assert_eq!(oe.luminance, re.luminance, "DS {i} PDS {j} entry {k}: luminance");
                    assert_eq!(oe.cr, re.cr, "DS {i} PDS {j} entry {k}: Cr");
                    assert_eq!(oe.cb, re.cb, "DS {i} PDS {j} entry {k}: Cb");
                    assert_eq!(oe.alpha, re.alpha, "DS {i} PDS {j} entry {k}: alpha");
                }
            }
        }
    }
}

// --- Exact contents ---

fn as_bytes(ds: &DisplaySet) -> Vec<u8> {
    sup_file_bytes(std::slice::from_ref(ds))
}

#[test]
fn every_container_gives_back_the_segments() {
    for (fixture, file) in fixtures() {
        let by_track = batch_baseline(&file);
        let ids: Vec<u32> = by_track.iter().map(|t| t.track.track_id).collect();
        if fixture.ends_with(".mkv") {
            assert_eq!(ids, vec![3, 5]);
        } else {
            assert_eq!(ids, vec![0x1200, 0x1201]);
        }
        for (t, track) in by_track.iter().zip([3u8, 5]) {
            for (i, ds) in t.display_sets.iter().enumerate() {
                assert_eq!(as_bytes(ds), as_bytes(&sample_set(track, i)), "{fixture} {i}");
            }
        }
    }
}

#[test]
fn track_metadata_of_matroska() {
    for cues in [true, false] {
        let tracks = tracks_of(&matroska(cues));
        assert_eq!(tracks.len(), 2);
        assert_eq!(tracks[0].language.as_deref(), Some("en"));
        assert_eq!(tracks[0].name.as_deref(), Some("English"));
        assert_eq!(tracks[0].flag_default, Some(true));
        assert_eq!(tracks[0].flag_forced, Some(false));
        assert_eq!(tracks[0].display_set_count, Some(SETS_PER_TRACK as u64));
        assert_eq!(tracks[0].has_cues, Some(cues));
        assert_eq!(tracks[1].language.as_deref(), Some("fr"));
        assert_eq!(tracks[1].name.as_deref(), Some("Fran\u{e7}ais"));
        assert_eq!(tracks[1].display_set_count, None);
    }
}

#[test]
fn track_metadata_of_transport_streams() {
    let tracks = tracks_of(&transport(true));
    assert_eq!(tracks[0].container, ContainerFormat::M2ts);
    assert_eq!(tracks[0].language.as_deref(), Some("en"));
    assert_eq!(tracks[1].language, None);
    assert_eq!(tracks[0].has_cues, None);
    let tracks = tracks_of(&transport(false));
    assert_eq!(tracks[0].container, ContainerFormat::TransportStream);
}

#[test]
fn clip_languages_fill_in_what_the_stream_lacks() {
    let mut languages = HashMap::new();
    languages.insert(0x1200u16, "ja".to_string());
    languages.insert(0x1201u16, "de".to_string());
    let tracks =
        list_pgs_tracks(MemorySource::new(transport(true)), &languages).unwrap();
    assert_eq!(tracks[0].language.as_deref(), Some("en"));
    assert_eq!(tracks[1].language.as_deref(), Some("de"));
}

#[test]
fn strategies_give_the_same_display_sets() {
    let file = matroska(true);
    let auto: Vec<Vec<u8>> =
        drain(&mut open(&file)).iter().map(|t| as_bytes(&t.display_set)).collect();
    let mut sequential = open(&file).with_mkv_strategy(MkvStrategy::Sequential);
    let scanned: Vec<Vec<u8>> =
        drain(&mut sequential).iter().map(|t| as_bytes(&t.display_set)).collect();
    assert_eq!(auto, scanned);
}

#[test]
fn the_index_saves_reading() {
    let file = matroska(true);
    let mut auto = open(&file);
    drain(&mut auto);
    let mut sequential = open(&file).with_mkv_strategy(MkvStrategy::Sequential);
    drain(&mut sequential);
    assert!(auto.stats().bytes_read > 0);
    assert!(auto.stats().bytes_read <= auto.stats().file_size);

    // What was read is what opening the file and following the index reads.
    let mut reader = SeekBufReader::new(MemorySource::new(file.clone()));
    detect_format(&mut reader).unwrap();
    let metadata = prepare_mkv_metadata(&mut reader).unwrap();
    let cues = metadata.cue_points.unwrap();
    extract_blocks_for_cues(&mut reader, &cues, &metadata.pgs_track_numbers).unwrap();
    assert_eq!(auto.stats().bytes_read, reader.bytes_read());
}

#[test]
fn time_range_of_matroska_keeps_wanted_entries() {
    let file = matroska(true);
    let mut extractor = open(&file);
    let timing = extractor.mkv_timing().unwrap();
    assert_eq!(timing.timestamp_scale, 1_000_000);
    extractor.set_mkv_time_range(Some(5000), Some(7005), None);
    let times: Vec<u64> =
        drain(&mut extractor).iter().map(|t| t.display_set.pts / 90 / 1000).collect();
    assert!(times.contains(&5) && times.contains(&7));
    assert!(!times.contains(&12));
}

#[test]
fn single_track_extraction() {
    let file = matroska(true);
    let source = || MemorySource::new(file.clone());
    let first = extract_display_sets(source(), &HashMap::new(), None).unwrap();
    assert_eq!(first.len(), SETS_PER_TRACK);
    assert_eq!(as_bytes(&first[0]), as_bytes(&sample_set(3, 0)));
    let (second, stats) =
        extract_display_sets_with_stats(source(), &HashMap::new(), Some(5)).unwrap();
    assert_eq!(as_bytes(&second[1]), as_bytes(&sample_set(5, 1)));
    assert_eq!(stats.file_size, file.len() as u64);
    let none = extract_display_sets(source(), &HashMap::new(), Some(99)).unwrap();
    assert!(none.is_empty());
    let (all, stats) = extract_all_display_sets_with_stats(source(), &HashMap::new()).unwrap();
    assert_eq!(all.len(), 2);
    assert!(stats.bytes_read > 0);
}

#[test]
fn a_filter_leaves_out_the_track_of_a_sup_file() {
    let sup = sup_file_bytes(&[sample_set(3, 0)]);
    let mut extractor = open(&sup).with_track_filter(&[1]);
    assert!(extractor.tracks().is_empty());
    assert!(extractor.next().is_none());
    let mut extractor = open(&sup).with_track_filter(&[0]);
    assert_eq!(drain(&mut extractor).len(), 1);
    let mut extractor = open(&sup).with_track_filter(&[]);
    assert_eq!(drain(&mut extractor).len(), 1);
}

#[test]
fn parallel_parts_make_up_the_whole() {
    let file = matroska(true);
    let extractor = open(&file);
    let (chunks, tracks) = extractor.parallel_chunks(4).unwrap();
    assert!(chunks.len() > 1 && chunks.len() <= 4);
    assert_eq!(tracks, vec![3, 5]);
    let mut blocks = Vec::new();
    for chunk in chunks.iter().rev() {
        let mut reader = SeekBufReader::new(MemorySource::new(file.clone()));
        blocks.extend(extract_blocks_for_cues(&mut reader, chunk, &tracks).unwrap());
    }
    let merged = extractor.collect_merged(blocks);
    assert_eq!(merged.len(), 2);
    for (t, track) in merged.iter().zip([3u8, 5]) {
        assert_eq!(t.display_sets.len(), SETS_PER_TRACK);
        for (i, ds) in t.display_sets.iter().enumerate() {
            assert_eq!(as_bytes(ds), as_bytes(&sample_set(track, i)));
        }
    }
    assert!(extractor.parallel_chunks(1).is_none());
}

#[test]
fn unknown_and_short_files_are_refused() {
    let open = |bytes: &[u8]| {
        Extractor::open(MemorySource::new(bytes.to_vec()), &HashMap::new())
            .err()
            .unwrap()
            .message()
    };
    assert_eq!(open(b"RIFF...."), "unknown container format");
    assert_eq!(open(b"PG"), "I/O error: failed to fill whole buffer");
    assert_eq!(open(&[0x1A, 0x45, 0xDF, 0xA3, 0x00, 0x00]), "malformed EBML VINT");
}

#[test]
fn a_broken_sup_file_ends_with_its_error() {
    let mut sup = sup_file_bytes(&[sample_set(3, 0)]);
    sup.extend_from_slice(b"XY0000000000000");
    let mut extractor = open(&sup);
    assert!(extractor.next().unwrap().is_ok());
    let e = extractor.next().unwrap().err().unwrap();
    assert_eq!(e.message(), "invalid PGS: expected PG magic (0x5047), got 0x5859");
    assert!(extractor.next().is_none());
}

#[test]
fn sup_files_can_be_entered_near_a_time() {
    let sets: Vec<DisplaySet> = (0..SETS_PER_TRACK).map(|i| sample_set(3, i)).collect();
    let sup = sup_file_bytes(&sets);
    let mut extractor = open(&sup);
    let last = sets[SETS_PER_TRACK - 1].pts;
    assert_eq!(extractor.sup_pts_span(), Some((sets[0].pts, last)));
    extractor.sup_seek(sup.len() as u64 / 2);
    let rest = drain(&mut extractor);
    assert!(rest.len() <= SETS_PER_TRACK);
    assert_eq!(rest.last().unwrap().display_set.pts, last);
    assert_eq!(open(&matroska(true)).sup_pts_span(), None);
}

#[test]
fn a_probe_of_a_transport_stream_finds_the_packets() {
    let file = transport(false);
    let mut reader = SeekBufReader::new(MemorySource::new(file.clone()));
    let result =
        probe_for_pgs(&mut reader, PacketFormat::RawTs, &[0x1200], file.len() as u64).unwrap();
    assert!(!result.active_regions.is_empty());
    assert!(result.active_regions.iter().all(|(start, end)| start < end && *end <= file.len() as u64));
    let mut reader = SeekBufReader::new(MemorySource::new(file.clone()));
    let none =
        probe_for_pgs(&mut reader, PacketFormat::RawTs, &[0x0042], file.len() as u64).unwrap();
    assert!(none.active_regions.is_empty());
}

#[test]
fn matroska_tracks_by_number() {
    let mut reader = SeekBufReader::new(MemorySource::new(matroska(true)));
    let tracks = list_pgs_tracks_mkv(&mut reader).unwrap();
    assert_eq!(tracks.iter().map(|t| t.track_number).collect::<Vec<_>>(), vec![3, 5]);
    assert_eq!(tracks[0].track_uid, Some(33));
    assert!(tracks[0].compression.is_none());
    assert!(matches!(tracks[1].compression, Some(ContentCompAlgo::Zlib)));
}

/// A minute of a transport stream, in the middle of which a video stream gives the
/// time once a second, with a display set every two seconds.
fn minute(m2ts: bool) -> Vec<u8> {
    let mut out = transport(m2ts);
    let size = if m2ts { 192 } else { 188 };
    let mut push = |p: &[u8; 188]| {
        if m2ts {
            out.extend_from_slice(&[0, 0, 0, 0]);
        }
        out.extend_from_slice(p);
    };
    for second in 0..60u64 {
        let pts = 90_000 * (100 + second);
        for p in ts_packets(0x1011, &pes(pts, &[0xAB; 100])) {
            push(&p);
        }
        if second % 2 == 0 {
            let data = bare_segments(&sample_set(3, 1));
            for p in ts_packets(0x1200, &pes(pts + 45_000, &data)) {
                push(&p);
            }
        }
        for _ in 0..1000 {
            push(&ts_packets(0x1011, &[0xAB; 184])[0]);
            push(&ts_packets(0x1FFF, &[0xFF; 184])[0]);
        }
    }
    assert_eq!(out.len() % size, 0);
    out
}

#[test]
fn seeking_in_a_transport_stream_reads_less() {
    for m2ts in [true, false] {
        let file = minute(m2ts);
        let start = 90_000 * 140;
        let times = |seek: bool| {
            let mut extractor = open(&file);
            if seek {
                extractor.m2ts_seek(start);
            }
            let ids: Vec<u32> = extractor.tracks().iter().map(|t| t.track_id).collect();
            let mut seen = Vec::new();
            let mut read = 0;
            while let Some(r) = extractor.next() {
                let set = r.unwrap();
                if set.display_set.pts >= start {
                    seen.push((set.track_id, set.display_set.pts));
                }
                read = extractor.stats().bytes_read;
            }
            assert_eq!(ids.len(), 2);
            (seen, read)
        };
        let (all, whole) = times(false);
        let (found, part) = times(true);
        assert_eq!(all.len(), 10);
        assert_eq!(found, all);
        assert!(whole >= file.len() as u64);
        assert!(part < whole * 2 / 3, "{part} of {whole}");
    }
    // Other files are left alone.
    for file in [matroska(true), matroska(false)] {
        let mut moved = open(&file);
        moved.m2ts_seek(90_000 * 1000);
        assert_eq!(drain(&mut moved).len(), drain(&mut open(&file)).len());
    }
}

#[test]
fn a_search_for_a_time_ends_close_in_front_of_it() {
    let file = minute(false);
    for (start, expected) in [(0u64, 0u64), (90_000 * 112, 100), (90_000 * 150, 140)] {
        let mut reader = SeekBufReader::new(MemorySource::new(file.clone()));
        let end = file.len() as u64;
        let at = find_time_start(&mut reader, 0, end, start, PacketFormat::RawTs);
        assert!(reader.bytes_read() <= 20 * 524_288);
        if expected < 101 {
            // The search does not come below its margin.
            assert!(at <= 4 * 1024 * 1024);
        } else {
            // The last second in front of the lead, and at most the margin less.
            let second = |n: u64| file.len() as u64 - (60 - n) * 2001 * 188;
            assert_eq!(at % 188, 0);
            assert!(at <= second(expected - 100 + 1));
            assert!(at + 2_097_152 + 524_288 >= second(expected - 100));
        }
    }
    let mut reader = SeekBufReader::new(MemorySource::new(vec![0u8; 8_000_000]));
    assert_eq!(find_time_start(&mut reader, 7, 8_000_000, 1 << 40, PacketFormat::M2ts), 7);
}

#[test]
fn a_time_range_keeps_what_lies_in_it() {
    for (fixture, file) in fixtures() {
        let all: Vec<(u32, u64)> = drain(&mut open(&file))
            .iter()
            .map(|t| (t.track_id, t.display_set.pts))
            .collect();
        let (start, end) = (90_000 * 5, 90_000 * 9);
        let extractor = open(&file);
        let ids: Vec<u32> = extractor.tracks().iter().map(|t| t.track_id).collect();
        let range = TimeRange::new(Some(start), Some(end), &ids);
        let mut ranged = RangedExtractor::new(extractor, range);
        assert_eq!(ranged.tracks().len(), 2);
        let mut seen = Vec::new();
        while let Some(r) = ranged.next() {
            let set = r.unwrap();
            seen.push((set.track_id, set.display_set.pts));
        }
        let wanted: Vec<(u32, u64)> =
            all.iter().copied().filter(|(_, pts)| (start..=end).contains(pts)).collect();
        assert!(!wanted.is_empty());
        assert_eq!(seen, wanted, "{fixture}");
        assert!(ranged.next().is_none());

        let open_range = TimeRange::new(None, None, &ids);
        let mut whole = RangedExtractor::new(open(&file), open_range);
        let mut count = 0;
        while let Some(r) = whole.next() {
            r.unwrap();
            count += 1;
        }
        assert_eq!(count, all.len());
    }
}
