//! What is found and how much is read for it.
use libpgs::error::{IoError, PgsError};
use libpgs::io::{MemorySource, SeekBufReader};
use libpgs::lang::normalize_language;
use libpgs::m2ts::ts_packet::{read_next_packet, resync, PacketFormat};
use libpgs::mkv::cluster::{
    read_block_at_position, scan_cluster_for_pgs, scan_cluster_for_pgs_sequential,
};
use libpgs::mkv::cues::PgsCuePoint;
use libpgs::mkv::indexed::extract_blocks_for_cues;
use libpgs::mkv::tags::parse_tags_frame_counts;
use libpgs::mkv::tracks::parse_tracks;
use libpgs::pgs::{decode_rle, PgsSegment, SegmentType};
use libpgs::sup::count::{count_display_sets, SupDisplaySetCounts};
use libpgs::sup::stream::SupExtractorState;
use libpgs::{extract_all_display_sets_with_stats, extract_display_sets_with_stats, Extractor};
use std::collections::HashMap;

fn over(bytes: &[u8]) -> SeekBufReader<MemorySource> {
    SeekBufReader::new(MemorySource::new(bytes.to_vec()))
}

fn id_bytes(id: u32) -> Vec<u8> {
    let all = id.to_be_bytes();
    let skip = all.iter().take_while(|b| **b == 0).count();
    all[skip..].to_vec()
}

/// An element with a size of eight bytes.
fn element(id: u32, data: &[u8]) -> Vec<u8> {
    let mut out = id_bytes(id);
    out.extend_from_slice(&((1u64 << 56) | data.len() as u64).to_be_bytes());
    out.extend_from_slice(data);
    out
}

fn simple_block(track: u8, relative: i16, data: &[u8]) -> Vec<u8> {
    let mut d = vec![0x80 | track];
    d.extend_from_slice(&relative.to_be_bytes());
    d.push(0x80);
    d.extend_from_slice(data);
    element(0xA3, &d)
}

/// A cluster at 1000 with a large video block and a block each of the tracks 3
/// and 5. Returns its data and where the blocks of the tracks are in it.
fn cluster_data() -> (Vec<u8>, usize, usize) {
    let mut data = element(0xE7, &1000u16.to_be_bytes());
    data.extend(simple_block(1, 0, &[0xAA; 5000]));
    let first = data.len();
    data.extend(simple_block(3, 10, &[3, 3, 3]));
    let second = data.len();
    data.extend(simple_block(5, 20, &[5, 5]));
    (data, first, second)
}

#[test]
fn all_short_codes_are_known() {
    assert_eq!(normalize_language("slv"), "sl");
    assert_eq!(normalize_language("mah"), "mh");
    assert_eq!(normalize_language("bih"), "bh");
    assert_eq!(normalize_language("slo"), "sk");
    assert_eq!(normalize_language("slv-Latn"), "sl-Latn");
    assert_eq!(normalize_language("gsw"), "gsw");
}

#[test]
fn too_many_pixels_are_refused() {
    assert_eq!(decode_rle(&[1, 2, 3], 2, 1), None);
    assert_eq!(decode_rle(&[1, 2], 2, 1), Some(vec![1, 2]));
    assert_eq!(decode_rle(&[1, 2, 0, 0], 2, 1), Some(vec![1, 2]));
    assert_eq!(decode_rle(&[1], 2, 1), Some(vec![1, 0]));
    assert_eq!(decode_rle(&[0x00, 0x83, 7], 2, 1), None);
    assert_eq!(decode_rle(&[1, 2, 0], 2, 1), None);
    assert_eq!(decode_rle(&[1], 0, 0), None);
}

#[test]
fn packets_are_found_at_every_position() {
    for at in 65330usize..65350 {
        let mut data = vec![0u8; 70000];
        data[at + 4] = 0x47;
        data[at + 4 + 192] = 0x47;
        let mut r = over(&data);
        assert_eq!(resync(&mut r, PacketFormat::M2ts, 70000).unwrap(), Some(at as u64));
        assert_eq!(r.position(), at as u64);
    }
    let mut r = over(&[0u8; 1000]);
    assert_eq!(resync(&mut r, PacketFormat::RawTs, 500).unwrap(), None);
    assert_eq!(r.position(), 500 - 188);
    assert_eq!(r.bytes_read(), 500);
}

#[test]
fn packets_near_the_end_are_found() {
    let mut data = vec![0u8; 400];
    data[100] = 0x47;
    data[288] = 0x47;
    let mut r = over(&data);
    assert_eq!(resync(&mut r, PacketFormat::RawTs, 10_000).unwrap(), Some(100));
}

#[test]
fn the_end_of_the_packets_moves_nothing() {
    let mut data = vec![0x47u8; 188];
    data.push(0);
    let mut r = over(&data);
    assert!(read_next_packet(&mut r, PacketFormat::RawTs).unwrap().is_some());
    assert_eq!((r.position(), r.bytes_read()), (188, 188));
    assert!(matches!(
        read_next_packet(&mut r, PacketFormat::RawTs),
        Err(PgsError::Io(IoError::PartialRead))
    ));
    assert_eq!((r.position(), r.bytes_read()), (189, 189));
    assert!(read_next_packet(&mut r, PacketFormat::RawTs).unwrap().is_none());
    assert_eq!((r.position(), r.bytes_read()), (189, 189));
}

#[test]
fn indexed_blocks_have_the_time_of_the_index() {
    let (data, first, _) = cluster_data();
    let mut r = over(&data);
    let b = read_block_at_position(&mut r, first as u64, 1010, &[3]).unwrap().unwrap();
    assert_eq!((b.track_number, b.timestamp), (3, 1010));
    assert_eq!(b.data, vec![3, 3, 3]);
    // The headers of the element and of the block, and the data.
    assert_eq!(r.bytes_read(), 9 + 4 + 3);
    assert!(read_block_at_position(&mut r, first as u64, 1010, &[5]).unwrap().is_none());
    assert_eq!(r.bytes_read(), 16 + 9 + 4);
}

#[test]
fn skipping_reads_headers_and_wanted_blocks() {
    let (data, _, _) = cluster_data();
    let mut skipping = over(&data);
    let found = scan_cluster_for_pgs(&mut skipping, 0, data.len() as u64, &[3]).unwrap();
    assert_eq!(found.len(), 1);
    assert_eq!(found[0].timestamp, 1010);
    // Four elements, a timestamp, three blocks' headers and the data of one.
    assert_eq!(skipping.bytes_read(), 4 * 9 + 2 + 3 * 4 + 3);

    let mut draining = over(&data);
    let same =
        scan_cluster_for_pgs_sequential(&mut draining, 0, data.len() as u64, &[3]).unwrap();
    assert_eq!(same.len(), 1);
    assert_eq!(same[0].data, found[0].data);
    assert_eq!(draining.bytes_read(), data.len() as u64);
    assert_eq!(draining.position(), data.len() as u64);
}

#[test]
fn fewer_tracks_give_a_part_of_the_blocks() {
    let (data, _, _) = cluster_data();
    let all = scan_cluster_for_pgs(&mut over(&data), 0, data.len() as u64, &[5, 3]).unwrap();
    let some = scan_cluster_for_pgs(&mut over(&data), 0, data.len() as u64, &[5]).unwrap();
    assert_eq!(all.iter().map(|b| b.track_number).collect::<Vec<_>>(), vec![3, 5]);
    assert_eq!(some.len(), 1);
    assert_eq!((some[0].track_number, some[0].timestamp), (5, 1020));
    assert_eq!(some[0].data, all[1].data);
}

#[test]
fn an_index_reads_only_its_blocks() {
    let (data, first, second) = cluster_data();
    let file = element(0x1F43B675, &data);
    let cue = |track: u64, time: u64, relative: usize| PgsCuePoint {
        track_number: track,
        time,
        cluster_position: 0,
        relative_position: Some(relative as u64),
    };
    let mut r = over(&file);
    let cues = [cue(3, 1010, first), cue(5, 1020, second)];
    let blocks = extract_blocks_for_cues(&mut r, &cues, &[3, 5]).unwrap();
    assert_eq!(blocks.iter().map(|b| b.timestamp).collect::<Vec<_>>(), vec![1010, 1020]);
    // The cluster's header once, and the two blocks.
    assert_eq!(r.bytes_read(), 12 + (9 + 4 + 3) + (9 + 4 + 2));
}

fn track_entry(languages: &[(u32, &str)]) -> Vec<u8> {
    let mut d = element(0xD7, &[3]);
    d.extend(element(0x83, &[0x11]));
    d.extend(element(0x86, b"S_HDMV/PGS"));
    for (id, text) in languages {
        d.extend(element(*id, text.as_bytes()));
    }
    element(0x1654AE6B, &element(0xAE, &d))
}

#[test]
fn language_tags_go_before_old_codes() {
    for order in [
        [(0x22B59Du32, "zh-Hans"), (0x22B59Cu32, "eng")],
        [(0x22B59C, "eng"), (0x22B59D, "zh-Hans")],
    ] {
        let tracks = parse_tracks(&mut over(&track_entry(&order)), 0).unwrap();
        assert_eq!(tracks[0].language.as_deref(), Some("zh-Hans"));
    }
    let tracks = parse_tracks(&mut over(&track_entry(&[(0x22B59C, "slv")])), 0).unwrap();
    assert_eq!(tracks[0].language.as_deref(), Some("sl"));
}

fn tag(uid: u8, count: &[u8]) -> Vec<u8> {
    let mut simple = element(0x4587, b"NUMBER_OF_FRAMES");
    simple.extend(element(0x4487, count));
    let mut d = element(0x63C0, &element(0x63C5, &[uid]));
    d.extend(element(0x67C8, &simple));
    element(0x7373, &d)
}

#[test]
fn malformed_tags_are_skipped() {
    let mut tags = tag(1, &[0xFF, 0xFE]);
    tags.extend(tag(2, b"42"));
    tags.extend(tag(3, b"many"));
    let file = element(0x1254C367, &tags);
    let counts = parse_tags_frame_counts(&mut over(&file), 0, &[1, 2, 3]).unwrap();
    assert_eq!(counts, HashMap::from([(2u64, 42u64)]));
}

fn composition(objects: u8) -> Vec<u8> {
    let mut payload = vec![0x07, 0x80, 0x04, 0x38, 0x10, 0, 1, 0x80, 0, 0, objects];
    payload.extend(vec![0; 8 * objects as usize]);
    PgsSegment { pts: 90000, dts: 0, segment_type: SegmentType::PresentationComposition, payload }
        .to_bytes()
}

fn end_segment() -> Vec<u8> {
    PgsSegment {
        pts: 90000,
        dts: 0,
        segment_type: SegmentType::EndOfDisplaySet,
        payload: Vec::new(),
    }
    .to_bytes()
}

#[test]
fn only_ended_display_sets_are_counted() {
    let lone = composition(1);
    let mut r = over(&lone);
    let none = SupDisplaySetCounts { total: 0, content: 0, clear: 0 };
    assert_eq!(count_display_sets(&mut r).unwrap(), none);
    assert_eq!(r.bytes_read(), lone.len() as u64);

    let mut data = lone;
    data.extend(composition(0));
    data.extend(end_segment());
    data.extend(composition(2));
    data.extend(end_segment());
    data.extend(end_segment());
    let counts = count_display_sets(&mut over(&data)).unwrap();
    assert_eq!(counts, SupDisplaySetCounts { total: 3, content: 1, clear: 2 });
}

#[test]
fn segments_are_found_behind_a_stray_letter() {
    let mut data = b"xPPG".to_vec();
    data.extend_from_slice(&[0; 300]);
    let mut state = SupExtractorState::new(over(&data));
    state.seek_to_estimate(0);
    assert_eq!(state.bytes_read(), 4);
    assert!(matches!(
        state.next_display_set(),
        Some(Err(PgsError::InvalidPgs(m))) if m == "unknown segment type 0x00"
    ));
}

#[test]
fn statistics_say_what_was_read() {
    let mut data = composition(1);
    data.extend(end_segment());
    data.extend(composition(0));
    data.extend(end_segment());
    let languages = HashMap::new();
    let mut x = Extractor::open(MemorySource::new(data.clone()), &languages).unwrap();
    assert_eq!(x.stats().bytes_read, 0);
    assert!(x.next().unwrap().is_ok());
    // Five bytes tell the format.
    let first = 5 + (composition(1).len() + end_segment().len()) as u64;
    assert_eq!(x.stats().bytes_read, first);
    // Starting over counts anew.
    let mut x = x.with_track_filter(&[0]);
    assert!(x.next().unwrap().is_ok());
    assert_eq!(x.stats().bytes_read, first);

    let whole = 5 + data.len() as u64;
    let (_, stats) =
        extract_all_display_sets_with_stats(MemorySource::new(data.clone()), &languages).unwrap();
    assert_eq!((stats.file_size, stats.bytes_read), (data.len() as u64, whole));
    let (sets, stats) =
        extract_display_sets_with_stats(MemorySource::new(data.clone()), &languages, Some(0))
            .unwrap();
    assert_eq!((sets.len(), stats.bytes_read), (2, whole));
    let (sets, stats) =
        extract_display_sets_with_stats(MemorySource::new(data), &languages, Some(7)).unwrap();
    assert_eq!((sets.len(), stats.bytes_read), (0, 0));
}

#[test]
fn invalid_text_is_described() {
    for bytes in [&b"ab\xFFcd"[..], b"a\xE2\x82", b"\xE2\x28\xA1", b"\xF0\x90\x28\xBC"] {
        let e = over(bytes).read_string(bytes.len() as u64).unwrap_err();
        let expected = String::from_utf8(bytes.to_vec()).unwrap_err().to_string();
        assert_eq!(e.message(), format!("I/O error: {expected}"));
    }
}
