//! Clip information.
use libpgs::m2ts::clpi::{
    parse_clpi_file, parse_sequence_info_times, resolve_clpi_path, MIN_CLPI_SIZE, PGS_CODING_TYPE,
};

#[test]
fn test_resolve_clpi_path_valid_bdmv() {
    let (plain, _) = resolve_clpi_path("/media/disc/BDMV/STREAM/00001.m2ts").unwrap();
    let (dir, name) = plain.rsplit_once('/').unwrap();
    assert!(dir.rsplit_once('/').unwrap().1.eq_ignore_ascii_case("CLIPINF"));
    assert_eq!(name.strip_suffix(".clpi").unwrap(), "00001");
    assert_eq!(plain, "/media/disc/BDMV/CLIPINF/00001.clpi");
}

#[test]
fn parts_that_count_as_nothing_are_passed_over() {
    for (path, clip) in [
        ("STREAM//1.m2ts", "CLIPINF/1.clpi"),
        ("STREAM/1.m2ts", "CLIPINF/1.clpi"),
        ("./STREAM/./1.m2ts", "./CLIPINF/1.clpi"),
        ("/STREAM/1.m2ts/", "/CLIPINF/1.clpi"),
        ("//STREAM/1.m2ts/.", "/CLIPINF/1.clpi"),
        ("a//b/.//Stream///1.x.m2ts", "a//b/CLIPINF/1.x.clpi"),
        ("../STREAM/.m2ts", "../CLIPINF/.m2ts.clpi"),
    ] {
        // The walk over the parts that the standard library makes.
        let p = std::path::Path::new(path);
        let dir = p.parent().unwrap().parent().unwrap();
        let name = format!("{}.clpi", p.file_stem().unwrap().to_str().unwrap());
        assert_eq!(dir.join("CLIPINF").join(name).to_str().unwrap(), clip);
        let (first, second) = resolve_clpi_path(path).unwrap();
        assert_eq!(first, clip);
        assert_eq!(second, clip.replace("CLIPINF", "clipinf"));
    }
    for path in ["", "/", ".", "STREAM", "STREAM/.", "STREAM/..", "a/STREAM/../1.m2ts", "./1.m2ts"] {
        assert!(resolve_clpi_path(path).is_none(), "{path}");
    }
}

#[test]
fn test_resolve_clpi_path_not_bdmv() {
    assert!(resolve_clpi_path("/home/user/videos/movie.m2ts").is_none());
}

#[test]
fn test_resolve_clpi_path_wrong_parent() {
    assert!(resolve_clpi_path("/media/disc/BDMV/BACKUP/00001.m2ts").is_none());
}

#[test]
fn test_parse_clpi_bad_magic() {
    let mut data = vec![0u8; 64];
    data[0..4].copy_from_slice(b"XXXX");
    assert!(parse_clpi_file(&data).is_err());
}

#[test]
fn test_parse_clpi_too_small() {
    let data = vec![0u8; 10];
    assert!(parse_clpi_file(&data).is_err());
}

/// Build a minimal CLPI binary with one PGS stream.
fn build_clpi_with_pgs(pid: u16, lang: &[u8; 3]) -> Vec<u8> {
    let mut data = Vec::new();

    // Header: magic + version (8 bytes)
    data.extend_from_slice(b"HDMV0300");

    // Offset table (offsets at positions 8, 12, 16, 20):
    // [8]  SequenceInfo offset (unused, set to 0)
    // [12] ProgramInfo offset — we'll put it at byte 40
    // [16..] other offsets
    data.extend_from_slice(&0u32.to_be_bytes()); // [8] SequenceInfo
    data.extend_from_slice(&40u32.to_be_bytes()); // [12] ProgramInfo → offset 40
    data.extend_from_slice(&0u32.to_be_bytes()); // [16]
    data.extend_from_slice(&0u32.to_be_bytes()); // [20]
    data.extend_from_slice(&0u32.to_be_bytes()); // [24]
    data.extend_from_slice(&0u32.to_be_bytes()); // [28]
    data.extend_from_slice(&0u32.to_be_bytes()); // [32]
    data.extend_from_slice(&0u32.to_be_bytes()); // [36]

    // ProgramInfo section at offset 40:
    assert_eq!(data.len(), 40);

    // Build ProgramInfo content (after length field):
    //   [0..4] u32 length (of remaining section)
    //   [4]    reserved
    //   [5]    num_sequences = 1
    //   sequence 0:
    //     [6..10]  u32 SPN
    //     [10..12] u16 PMT PID
    //     [12]     u8 num_streams = 1
    //     [13]     u8 num_groups = 0
    //     stream 0:
    //       [14..16] u16 PID
    //       [16]     u8 coding_info_len = 4
    //       [17]     u8 coding_type = 0x90
    //       [18..21] language (3 bytes)
    let section_content_len: u32 = 2 + 8 + 2 + 1 + 4 + 3; // = 20
    data.extend_from_slice(&section_content_len.to_be_bytes()); // length
    data.push(0x00); // reserved
    data.push(0x01); // 1 sequence

    // Sequence:
    data.extend_from_slice(&0u32.to_be_bytes()); // SPN
    data.extend_from_slice(&0x0100u16.to_be_bytes()); // PMT PID
    data.push(0x01); // 1 stream
    data.push(0x00); // 0 groups

    // Stream entry:
    data.extend_from_slice(&pid.to_be_bytes()); // stream PID
    data.push(0x04); // coding_info_len = 4
    data.push(PGS_CODING_TYPE); // 0x90
    data.extend_from_slice(lang); // 3-byte language

    data
}

#[test]
fn test_parse_clpi_pgs_stream() {
    let data = build_clpi_with_pgs(0x1200, b"eng");
    let map = parse_clpi_file(&data).unwrap();
    assert_eq!(map.len(), 1);
    assert_eq!(map.get(&0x1200).unwrap(), "en");
}

#[test]
fn test_parse_clpi_mixed_streams() {
    let mut data = Vec::new();

    // Header
    data.extend_from_slice(b"HDMV0300");
    data.extend_from_slice(&0u32.to_be_bytes()); // [8]
    data.extend_from_slice(&40u32.to_be_bytes()); // [12] ProgramInfo at 40
    // Pad to offset 40
    while data.len() < 40 {
        data.extend_from_slice(&0u32.to_be_bytes());
    }

    // ProgramInfo section
    let section_content_len: u32 = 2 + 8 + 3 * (2 + 1 + 4 + 3); // 2 header + 8 seq header + 3 streams
    data.extend_from_slice(&section_content_len.to_be_bytes());
    data.push(0x00); // reserved
    data.push(0x01); // 1 sequence

    data.extend_from_slice(&0u32.to_be_bytes()); // SPN
    data.extend_from_slice(&0x0100u16.to_be_bytes()); // PMT PID
    data.push(0x03); // 3 streams
    data.push(0x00); // 0 groups

    // Stream 1: Video (coding type 0x02 = MPEG-2)
    data.extend_from_slice(&0x1011u16.to_be_bytes());
    data.push(0x04);
    data.push(0x02); // video
    data.extend_from_slice(b"\0\0\0");

    // Stream 2: Audio (coding type 0x80 = LPCM)
    data.extend_from_slice(&0x1100u16.to_be_bytes());
    data.push(0x04);
    data.push(0x80); // audio
    data.extend_from_slice(b"jpn");

    // Stream 3: PGS (coding type 0x90)
    data.extend_from_slice(&0x1200u16.to_be_bytes());
    data.push(0x04);
    data.push(PGS_CODING_TYPE);
    data.extend_from_slice(b"fra");

    let map = parse_clpi_file(&data).unwrap();
    assert_eq!(map.len(), 1, "should only contain PGS stream");
    assert_eq!(map.get(&0x1200).unwrap(), "fr");
    assert!(!map.contains_key(&0x1011), "should not contain video");
    assert!(!map.contains_key(&0x1100), "should not contain audio");
}

#[test]
fn test_parse_clpi_und_language_filtered() {
    let data = build_clpi_with_pgs(0x1200, b"und");
    let result = parse_clpi_file(&data);
    // "und" should be filtered out, so map is empty → returns None from
    // parse_program_info_sequences, but parse_clpi_file falls through to Ok(empty).
    match result {
        Ok(map) => assert!(map.is_empty()),
        Err(()) => {} // Also acceptable
    }
}

/// Build a minimal CLPI binary with a SequenceInfo section containing
/// the given presentation times.
fn build_clpi_with_sequence_times(
    presentation_start_time: u32,
    presentation_end_time: u32,
) -> Vec<u8> {
    let mut data = Vec::new();

    // Header: magic + version (8 bytes)
    data.extend_from_slice(b"HDMV0300");

    // Offset table:
    // [8]  SequenceInfo offset — we'll put it at byte 40
    // [12] ProgramInfo offset (0 = not present)
    // [16..] other offsets
    data.extend_from_slice(&40u32.to_be_bytes()); // [8] SequenceInfo → offset 40
    data.extend_from_slice(&0u32.to_be_bytes()); // [12] ProgramInfo
    data.extend_from_slice(&0u32.to_be_bytes()); // [16]
    data.extend_from_slice(&0u32.to_be_bytes()); // [20]
    data.extend_from_slice(&0u32.to_be_bytes()); // [24]
    data.extend_from_slice(&0u32.to_be_bytes()); // [28]
    data.extend_from_slice(&0u32.to_be_bytes()); // [32]
    data.extend_from_slice(&0u32.to_be_bytes()); // [36]

    // SequenceInfo section at offset 40:
    assert_eq!(data.len(), 40);

    // length(4) + reserved(1) + num_atc_sequences(1) = 6 bytes header
    // ATC seq: spn_atc_start(4) + num_stc(1) + offset_stc_id(1) = 6 bytes
    // STC seq: pcr_pid(2) + spn_stc_start(4) + start_time(4) + end_time(4) = 14 bytes
    let section_len: u32 = 2 + 6 + 14; // content after length field
    data.extend_from_slice(&section_len.to_be_bytes()); // length
    data.push(0x00); // reserved
    data.push(0x01); // 1 ATC sequence

    // ATC sequence:
    data.extend_from_slice(&0u32.to_be_bytes()); // spn_atc_start
    data.push(0x01); // 1 STC sequence
    data.push(0x00); // offset_stc_id

    // STC sequence:
    data.extend_from_slice(&0x1001u16.to_be_bytes()); // pcr_pid
    data.extend_from_slice(&0u32.to_be_bytes()); // spn_stc_start
    data.extend_from_slice(&presentation_start_time.to_be_bytes()); // presentation_start_time
    data.extend_from_slice(&presentation_end_time.to_be_bytes()); // presentation_end_time

    data
}

fn build_clpi_with_sequence_info(presentation_start_time: u32) -> Vec<u8> {
    build_clpi_with_sequence_times(presentation_start_time, 0)
}

#[test]
fn test_parse_sequence_info_start_time() {
    // 54000000 ticks at 90kHz = 600 seconds = 10 minutes (typical BD offset)
    let data = build_clpi_with_sequence_info(54_000_000);
    let result = parse_sequence_info_times(&data);
    assert_eq!(result, Some((54_000_000, 0)));
}

#[test]
fn test_parse_sequence_info_zero_offset() {
    let data = build_clpi_with_sequence_info(0);
    let result = parse_sequence_info_times(&data);
    assert_eq!(result, Some((0, 0)));
}

#[test]
fn test_parse_sequence_info_times() {
    let start = 54_000_000u32; // 10 minutes
    let end = 594_000_000u32; // 110 minutes
    let data = build_clpi_with_sequence_times(start, end);
    let result = parse_sequence_info_times(&data);
    assert_eq!(result, Some((start as u64, end as u64)));
}

#[test]
fn test_parse_sequence_info_no_section() {
    // Build CLPI with SequenceInfo offset = 0 (no section).
    let mut data = Vec::new();
    data.extend_from_slice(b"HDMV0300");
    data.extend_from_slice(&0u32.to_be_bytes()); // [8] SequenceInfo = 0
    while data.len() < MIN_CLPI_SIZE {
        data.push(0);
    }
    assert_eq!(parse_sequence_info_times(&data), None);
}

#[test]
fn test_parse_sequence_info_bad_magic() {
    let mut data = build_clpi_with_sequence_info(90000);
    data[0..4].copy_from_slice(b"XXXX");
    assert_eq!(parse_sequence_info_times(&data), None);
}

#[test]
fn test_parse_sequence_info_no_atc_sequences() {
    let mut data = build_clpi_with_sequence_info(90000);
    // Set num_atc_sequences to 0 at offset 40 + 5.
    data[45] = 0;
    assert_eq!(parse_sequence_info_times(&data), None);
}
