//! Blocks in clusters.
use libpgs::ebml::ids;
use libpgs::io::{MemorySource, SeekBufReader};
use libpgs::mkv::cluster::scan_cluster_for_pgs;

// --- Binary builder helpers ---

/// Write an EBML element: ID (1-4 bytes depending on value) + VINT size + data.
fn write_ebml_element(buf: &mut Vec<u8>, id: u32, data: &[u8]) {
    // Write element ID.
    if id <= 0xFF {
        buf.push(id as u8);
    } else if id <= 0xFFFF {
        buf.push((id >> 8) as u8);
        buf.push(id as u8);
    } else if id <= 0xFF_FFFF {
        buf.push((id >> 16) as u8);
        buf.push((id >> 8) as u8);
        buf.push(id as u8);
    } else {
        buf.push((id >> 24) as u8);
        buf.push((id >> 16) as u8);
        buf.push((id >> 8) as u8);
        buf.push(id as u8);
    }
    // Write VINT size (1-byte for sizes < 127, 2-byte otherwise).
    if data.len() < 127 {
        buf.push(0x80 | data.len() as u8);
    } else {
        let len = data.len() as u16;
        buf.push(0x40 | (len >> 8) as u8);
        buf.push(len as u8);
    }
    buf.extend_from_slice(data);
}

/// Build a SimpleBlock body: VINT track number + relative timestamp + flags + payload.
fn build_simple_block_body(track: u8, relative_ts: i16, payload: &[u8]) -> Vec<u8> {
    let mut body = Vec::new();
    body.push(0x80 | track); // 1-byte VINT track number
    body.extend_from_slice(&relative_ts.to_be_bytes());
    body.push(0x80); // flags: keyframe
    body.extend_from_slice(payload);
    body
}

/// Build a PGS PCS segment in .sup format (13-byte header + 11-byte payload = 24 bytes).
fn build_pgs_pcs(pts: u32) -> Vec<u8> {
    let mut seg = Vec::new();
    seg.extend_from_slice(&[0x50, 0x47]); // PG magic
    seg.extend_from_slice(&pts.to_be_bytes()); // PTS
    seg.extend_from_slice(&[0x00, 0x00, 0x00, 0x00]); // DTS = 0
    seg.push(0x16); // PCS type
    seg.extend_from_slice(&[0x00, 0x0B]); // payload size = 11
    seg.extend_from_slice(&[
        0x07, 0x80, // width: 1920
        0x04, 0x38, // height: 1080
        0x10,       // frame rate
        0x00, 0x01, // composition number
        0x80,       // composition state: Epoch Start
        0x00,       // palette update: false
        0x00,       // palette id
        0x00,       // num composition objects: 0
    ]);
    seg
}

/// Build a PGS END segment in .sup format (13 bytes, no payload).
fn build_pgs_end(pts: u32) -> Vec<u8> {
    let mut seg = Vec::new();
    seg.extend_from_slice(&[0x50, 0x47]); // PG magic
    seg.extend_from_slice(&pts.to_be_bytes()); // PTS
    seg.extend_from_slice(&[0x00, 0x00, 0x00, 0x00]); // DTS = 0
    seg.push(0x80); // END type
    seg.extend_from_slice(&[0x00, 0x00]); // payload size = 0
    seg
}

/// Build a synthetic Cluster's inner data (Timestamp + SimpleBlocks).
fn build_multi_track_cluster() -> Vec<u8> {
    let mut data = Vec::new();

    // Timestamp element: value = 1000 (2 bytes big-endian)
    write_ebml_element(&mut data, ids::TIMESTAMP as u32, &1000u16.to_be_bytes());

    // Track 3: PGS PCS segment
    let pcs_3 = build_pgs_pcs(90000);
    let block_3_pcs = build_simple_block_body(3, 0, &pcs_3);
    write_ebml_element(&mut data, ids::SIMPLE_BLOCK as u32, &block_3_pcs);

    // Track 1: non-PGS data (video)
    let video = vec![0xAA; 50];
    let block_1 = build_simple_block_body(1, 0, &video);
    write_ebml_element(&mut data, ids::SIMPLE_BLOCK as u32, &block_1);

    // Track 5: PGS PCS segment
    let pcs_5 = build_pgs_pcs(90000);
    let block_5_pcs = build_simple_block_body(5, 0, &pcs_5);
    write_ebml_element(&mut data, ids::SIMPLE_BLOCK as u32, &block_5_pcs);

    // Track 3: PGS END segment
    let end_3 = build_pgs_end(90000);
    let block_3_end = build_simple_block_body(3, 10, &end_3);
    write_ebml_element(&mut data, ids::SIMPLE_BLOCK as u32, &block_3_end);

    // Track 5: PGS END segment
    let end_5 = build_pgs_end(90000);
    let block_5_end = build_simple_block_body(5, 10, &end_5);
    write_ebml_element(&mut data, ids::SIMPLE_BLOCK as u32, &block_5_end);

    data
}

#[test]
fn test_multi_track_scan() {
    let data = build_multi_track_cluster();
    let data_len = data.len() as u64;
    let mut reader = SeekBufReader::new(MemorySource::new(data));

    // Scan for tracks 3 and 5 — should get 4 blocks, skipping track 1.
    let blocks = scan_cluster_for_pgs(&mut reader, 0, data_len, &[3, 5]).unwrap();

    assert_eq!(blocks.len(), 4, "expected 4 PGS blocks (2 per track)");
    assert_eq!(blocks[0].track_number, 3);
    assert_eq!(blocks[1].track_number, 5);
    assert_eq!(blocks[2].track_number, 3);
    assert_eq!(blocks[3].track_number, 5);

    // Timestamps: cluster_ts(1000) + relative_ts
    assert_eq!(blocks[0].timestamp, 1000);
    assert_eq!(blocks[1].timestamp, 1000);
    assert_eq!(blocks[2].timestamp, 1010);
    assert_eq!(blocks[3].timestamp, 1010);
}

#[test]
fn test_multi_track_scan_single_track_filter() {
    let data = build_multi_track_cluster();
    let data_len = data.len() as u64;
    let mut reader = SeekBufReader::new(MemorySource::new(data));

    // Scan for only track 5 — should get 2 blocks.
    let blocks = scan_cluster_for_pgs(&mut reader, 0, data_len, &[5]).unwrap();

    assert_eq!(blocks.len(), 2);
    assert_eq!(blocks[0].track_number, 5);
    assert_eq!(blocks[1].track_number, 5);
}

#[test]
fn test_multi_track_scan_no_match() {
    let data = build_multi_track_cluster();
    let data_len = data.len() as u64;
    let mut reader = SeekBufReader::new(MemorySource::new(data));

    // Scan for track 99 — should get 0 blocks.
    let blocks = scan_cluster_for_pgs(&mut reader, 0, data_len, &[99]).unwrap();
    assert!(blocks.is_empty());
}
