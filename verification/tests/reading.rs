//! The buffered reader, block decoding and error texts.
use flate2::write::ZlibEncoder;
use flate2::Compression;
use libpgs::error::{IoError, PgsError};
use libpgs::io::{MemorySource, SeekBufReader};
use libpgs::lang::normalize_language;
use libpgs::listing::{
    count_track, output_names, parse_track_ids, track_file_name, track_listing, track_totals_line,
};
use libpgs::m2ts::clpi::resolve_clpi_path;
use libpgs::mkv::cues::PgsCuePoint;
use libpgs::mkv::decode::{
    decode_block_data, decode_block_data_with, mkv_timestamp_to_pts, parse_block_segments,
    try_decode_block_data,
};
use libpgs::mkv::indexed::partition_by_cluster;
use libpgs::mkv::order::sort_cues;
use libpgs::mkv::tracks::ContentCompAlgo;
use libpgs::pgs::{CompositionState, DisplaySet, PgsSegment, SegmentType};
use libpgs::range::{TimeRange, Verdict};
use libpgs::text::{parse_u64, trim_text};
use libpgs::{ContainerFormat, PgsTrackInfo, TrackDisplaySet};
use std::io::Write;

fn over(bytes: &[u8], capacity: usize) -> SeekBufReader<MemorySource> {
    SeekBufReader::with_capacity(capacity, MemorySource::new(bytes.to_vec()))
}

#[test]
fn bytes_come_in_order_whatever_the_buffer() {
    let data: Vec<u8> = (0..100).collect();
    for capacity in [1usize, 2, 7, 64, 1000] {
        let mut r = over(&data, capacity);
        assert_eq!(r.read_bytes(3).unwrap(), vec![0, 1, 2]);
        assert_eq!(r.read_u16_be().unwrap(), 0x0304);
        assert_eq!(r.read_u32_be().unwrap(), 0x05060708);
        assert_eq!(r.read_u64_be().unwrap(), 0x090A_0B0C_0D0E_0F10);
        assert_eq!(r.position(), 17);
        assert_eq!(r.bytes_read(), 17);
        r.skip(3).unwrap();
        assert_eq!(r.read_uint_be(1).unwrap(), 20);
        r.seek_to(2).unwrap();
        let mut two = [0u8; 2];
        r.read_exact(&mut two).unwrap();
        assert_eq!(two, [2, 3]);
        r.drain(10).unwrap();
        assert_eq!(r.position(), 14);
        assert_eq!(r.file_size().unwrap(), 100);
    }
}

#[test]
fn the_end_is_noticed() {
    let mut r = over(&[1, 2, 3], 2);
    let mut five = [0u8; 5];
    assert!(matches!(r.read_exact(&mut five), Err(PgsError::Io(IoError::UnexpectedEof))));
    let mut r = over(&[1, 2, 3], 2);
    assert!(matches!(r.try_read_exact(&mut five), Err(PgsError::Io(IoError::PartialRead))));
    let mut r = over(&[1, 2, 3], 2);
    let mut three = [0u8; 3];
    assert!(r.try_read_exact(&mut three).unwrap());
    assert!(!r.try_read_exact(&mut three).unwrap());
    assert!(matches!(r.drain(1), Err(PgsError::Io(IoError::DrainEof))));
    assert!(matches!(r.read_uint_be(9), Err(PgsError::Io(IoError::IntegerTooLong))));
    r.skip(u64::MAX - 3).unwrap();
    assert!(matches!(r.skip(1), Err(PgsError::Io(IoError::InvalidPosition))));
}

#[test]
fn strings_are_utf8() {
    let mut r = over("h\u{e9}llo".as_bytes(), 3);
    assert_eq!(r.read_string(6).unwrap(), "h\u{e9}llo");
    let mut r = over(&[0xFF, 0xFE], 3);
    assert!(matches!(r.read_string(2), Err(PgsError::Io(IoError::InvalidUtf8 { .. }))));
}

fn deflated(data: &[u8]) -> Vec<u8> {
    let mut e = ZlibEncoder::new(Vec::new(), Compression::best());
    e.write_all(data).unwrap();
    e.finish().unwrap()
}

#[test]
fn blocks_are_decoded() {
    let data = vec![7u8; 5000];
    let packed = deflated(&data);
    assert_ne!(packed, data);
    assert_eq!(try_decode_block_data(&packed, Some(&ContentCompAlgo::Zlib)), Some(data.clone()));
    assert_eq!(decode_block_data(&packed, Some(&ContentCompAlgo::Zlib)), data);
    assert_eq!(try_decode_block_data(b"abc", None), Some(b"abc".to_vec()));
    let strip = ContentCompAlgo::HeaderStripping(vec![1, 2]);
    assert_eq!(try_decode_block_data(&[3], Some(&strip)), Some(vec![1, 2, 3]));
    assert_eq!(try_decode_block_data(b"junk", Some(&ContentCompAlgo::Zlib)), None);
    assert_eq!(decode_block_data(b"junk", Some(&ContentCompAlgo::Zlib)), b"junk".to_vec());
    let cut = &packed[..packed.len() - 6];
    assert_eq!(try_decode_block_data(cut, Some(&ContentCompAlgo::Zlib)), None);
}

#[test]
fn what_was_inflated_is_taken_as_it_is() {
    let zlib = ContentCompAlgo::Zlib;
    assert_eq!(
        decode_block_data_with(b"in", Some(&zlib), Some(b"out".to_vec())),
        Some(b"out".to_vec())
    );
    assert_eq!(decode_block_data_with(b"in", Some(&zlib), None), None);
    assert_eq!(
        decode_block_data_with(b"in", None, Some(b"out".to_vec())),
        Some(b"in".to_vec())
    );
}

#[test]
fn timestamps_become_ticks() {
    assert_eq!(mkv_timestamp_to_pts(1000, 1_000_000), 90_000);
    assert_eq!(mkv_timestamp_to_pts(1, 1_000_000), 90);
    assert_eq!(mkv_timestamp_to_pts(0, 1_000_000), 0);
    assert_eq!(mkv_timestamp_to_pts(1, 11_111), 0);
    assert_eq!(mkv_timestamp_to_pts(1, 11_112), 1);
}

#[test]
fn blocks_hold_bare_segments() {
    let segments = parse_block_segments(&[0x14, 0, 2, 5, 6, 0x80, 0, 0], 77);
    assert_eq!(segments.len(), 2);
    assert_eq!(segments[0].payload, vec![5, 6]);
    assert_eq!(segments[1].segment_type, SegmentType::EndOfDisplaySet);
    assert_eq!(segments[1].pts, 77);
}

fn cue(time: u64, cluster: u64) -> PgsCuePoint {
    PgsCuePoint { time, cluster_position: cluster, relative_position: None, track_number: 3 }
}

#[test]
fn index_entries_are_shared_out_by_cluster() {
    let cues: Vec<PgsCuePoint> = (0..40).map(|i| cue(40 - i, (40 - i) / 3 * 100)).collect();
    let sorted = sort_cues(&cues);
    assert!(sorted.windows(2).all(|w| w[0].cluster_position <= w[1].cluster_position));
    let chunks = partition_by_cluster(&sorted, 4);
    assert!(chunks.len() <= 4 && chunks.len() > 1);
    let joined: Vec<u64> = chunks.iter().flatten().map(|c| c.cluster_position).collect();
    assert_eq!(joined, sorted.iter().map(|c| c.cluster_position).collect::<Vec<_>>());
    for (i, a) in chunks.iter().enumerate() {
        for b in &chunks[i + 1..] {
            for x in a {
                assert!(b.iter().all(|y| y.cluster_position != x.cluster_position));
            }
        }
    }
}

#[test]
fn error_texts() {
    let text = |e: PgsError| e.message();
    assert_eq!(text(PgsError::Io(IoError::UnexpectedEof)), "I/O error: failed to fill whole buffer");
    assert_eq!(text(PgsError::InvalidEbml("x".to_string())), "invalid EBML: x");
    assert_eq!(text(PgsError::InvalidVint), "malformed EBML VINT");
    assert_eq!(text(PgsError::InvalidMkv("x".to_string())), "invalid MKV: x");
    assert_eq!(text(PgsError::InvalidTs("x".to_string())), "invalid TS: x");
    assert_eq!(text(PgsError::InvalidPgs("x".to_string())), "invalid PGS: x");
    assert_eq!(text(PgsError::NoPgsTracks), "no PGS tracks found");
    assert_eq!(text(PgsError::TrackNotFound(12)), "track 12 not found");
    assert_eq!(text(PgsError::UnknownFormat), "unknown container format");
    assert_eq!(text(PgsError::EncodingError("x".to_string())), "encoding error: x");
    assert_eq!(PgsError::from(IoError::DrainEof).message(), "I/O error: unexpected EOF during drain");
}

#[test]
fn normalizing_twice_is_normalizing_once() {
    for code in ["eng", "fre", "zho-Hans", "QAA", "x", "", "PT-br"] {
        let once = normalize_language(code);
        assert_eq!(normalize_language(&once), once);
    }
}

#[test]
fn numbers_and_spaces_in_text() {
    assert_eq!(parse_u64("+12"), Some(12));
    assert_eq!(parse_u64("18446744073709551615"), Some(u64::MAX));
    assert_eq!(parse_u64("18446744073709551616"), None);
    assert_eq!(parse_u64(""), None);
    assert_eq!(parse_u64("1 "), None);
    assert_eq!(trim_text(" \t a b \n"), "a b");
}

#[test]
fn lists_of_track_identifiers() {
    assert_eq!(parse_track_ids("3"), Ok(vec![3]));
    assert_eq!(parse_track_ids("3, 5 ,8"), Ok(vec![3, 5, 8]));
    assert_eq!(parse_track_ids("3,x ,y"), Err("x".to_string()));
    assert_eq!(parse_track_ids("3,"), Err(String::new()));
    assert_eq!(parse_track_ids("4294967296"), Err("4294967296".to_string()));
    assert_eq!(track_file_name("movie", 5, "sup"), "movie_track5.sup");
    assert_eq!(output_names("movie", &[5], "sup"), None);
    assert_eq!(
        output_names("movie", &[5, 6], "pgs"),
        Some(vec!["movie_track5.pgs".to_string(), "movie_track6.pgs".to_string()])
    );
}

#[test]
fn track_lines() {
    let mut t = PgsTrackInfo {
        track_id: 3,
        language: Some("en".to_string()),
        container: ContainerFormat::M2ts,
        name: Some("A".to_string()),
        flag_default: Some(true),
        flag_forced: Some(true),
        display_set_count: Some(7),
        has_cues: Some(false),
    };
    assert_eq!(
        track_listing(&t),
        "  Track 3: language=en, format=M2ts, name=\"A\", default, forced, display_sets=7, \
         has_cues=false"
    );
    t.language = None;
    t.name = None;
    t.flag_default = Some(false);
    t.flag_forced = None;
    t.display_set_count = None;
    t.has_cues = None;
    assert_eq!(track_listing(&t), "  Track 3: language=unknown, format=M2ts");
}

#[test]
fn totals_of_a_track() {
    let set = |id: u32, n: usize| TrackDisplaySet {
        track_id: id,
        language: None,
        container: ContainerFormat::Sup,
        display_set: DisplaySet {
            pts: 0,
            composition_state: CompositionState::Normal,
            segments: vec![PgsSegment::end_segment(0, 0); n],
        },
    };
    let sets = vec![set(1, 2), set(2, 5), set(1, 3)];
    assert_eq!(count_track(&sets, 1), (2, 5));
    assert_eq!(count_track(&sets, 2), (1, 5));
    assert_eq!(count_track(&sets, 3), (0, 0));
    let info = |id: u32| PgsTrackInfo {
        track_id: id,
        language: Some("de".to_string()),
        container: ContainerFormat::Sup,
        name: None,
        flag_default: None,
        flag_forced: None,
        display_set_count: None,
        has_cues: None,
    };
    assert_eq!(
        track_totals_line(&info(1), &sets).as_deref(),
        Some("  Track 1 (de): 2 display sets, 5 segments")
    );
    assert_eq!(track_totals_line(&info(3), &sets), None);
}

#[test]
fn clip_information_beside_a_stream() {
    let (first, second) = resolve_clpi_path("/d/BDMV/stream/00042.m2ts").unwrap();
    assert_eq!(first, "/d/BDMV/CLIPINF/00042.clpi");
    assert!(second.ends_with("00042.clpi"));
    assert!(resolve_clpi_path("00042.m2ts").is_none());
}

#[test]
fn display_sets_in_a_time_range() {
    let mut range = TimeRange::new(Some(100), Some(200), &[1, 2]);
    assert_eq!(range.judge(1, 99), Verdict::Skip);
    assert_eq!(range.judge(1, 100), Verdict::Keep);
    assert_eq!(range.judge(1, 200), Verdict::Keep);
    assert_eq!(range.judge(1, 201), Verdict::Skip);
    assert_eq!(range.judge(2, 150), Verdict::Keep);
    assert_eq!(range.judge(2, 300), Verdict::Stop);
    let mut open = TimeRange::new(None, None, &[1]);
    assert_eq!(open.judge(1, u64::MAX), Verdict::Keep);
}
