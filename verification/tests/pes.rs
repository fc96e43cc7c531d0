//! Packetized elementary streams.
use libpgs::m2ts::pes::{parse_timestamp, PesReassembler};
use libpgs::pgs::{PgsSegment, SegmentType};

#[test]
fn test_parse_timestamp() {
    // PTS = 90000 (1 second at 90 kHz)
    let bytes = [0x21, 0x00, 0x05, 0xBF, 0x21];
    assert_eq!(parse_timestamp(&bytes), 90000);
}

#[test]
fn test_parse_timestamp_large() {
    // PTS = 0x1FFFFFFFF (max 33-bit value = 8589934591)
    let bytes = [0x0F, 0xFF, 0xFF, 0xFF, 0xFF];
    assert_eq!(parse_timestamp(&bytes), 0x1FFFFFFFF);
}

#[test]
fn test_parse_raw_segments_end() {
    // One END segment: type=0x80, length=0
    let data = [0x80, 0x00, 0x00];
    let segments = PgsSegment::parse_raw_segments(90000, 0, &data);
    assert_eq!(segments.len(), 1);
    assert_eq!(segments[0].segment_type, SegmentType::EndOfDisplaySet);
    assert_eq!(segments[0].pts, 90000);
    assert!(segments[0].payload.is_empty());
}

#[test]
fn test_parse_raw_segments_multiple() {
    let mut data = Vec::new();
    // PDS segment: type=0x14, length=3, payload=[0x00, 0x01, 0x02]
    data.extend_from_slice(&[0x14, 0x00, 0x03, 0x00, 0x01, 0x02]);
    // END segment: type=0x80, length=0
    data.extend_from_slice(&[0x80, 0x00, 0x00]);

    let segments = PgsSegment::parse_raw_segments(45000, 0, &data);
    assert_eq!(segments.len(), 2);
    assert_eq!(segments[0].segment_type, SegmentType::PaletteDefinition);
    assert_eq!(segments[0].payload, vec![0x00, 0x01, 0x02]);
    assert_eq!(segments[1].segment_type, SegmentType::EndOfDisplaySet);
}

#[test]
fn test_pes_reassembler() {
    let mut assembler = PesReassembler::new();

    // Build a minimal PES packet with a PGS END segment.
    let mut pes = Vec::new();
    pes.extend_from_slice(&[0x00, 0x00, 0x01]); // Start code
    pes.push(0xBD); // Stream ID (private_stream_1)
    pes.extend_from_slice(&[0x00, 0x08]); // PES length
    pes.push(0x80); // flags byte 1
    pes.push(0x80); // flags byte 2: PTS present
    pes.push(0x05); // PES header data length = 5
    // PTS = 90000
    pes.extend_from_slice(&[0x21, 0x00, 0x05, 0xBF, 0x21]);
    // PGS END segment (type=0x80, length=0)
    pes.extend_from_slice(&[0x80, 0x00, 0x00]);

    // Simulate splitting across two TS packets.
    let mid = pes.len() / 2;

    let r1 = assembler.push(true, &pes[..mid]);
    assert!(r1.is_empty()); // No previous data to emit.

    let r2 = assembler.push(false, &pes[mid..]);
    assert!(r2.is_empty()); // Still accumulating.

    // Flush emits the assembled PES.
    let r3 = assembler.flush();
    assert_eq!(r3.len(), 1);
    assert_eq!(r3[0].segment_type, SegmentType::EndOfDisplaySet);
    assert_eq!(r3[0].pts, 90000);
}

#[test]
fn test_pes_reassembler_two_pes_packets() {
    let mut assembler = PesReassembler::new();

    // Helper: build a PES packet with a PGS END segment.
    let make_pes = |pts_bytes: &[u8]| {
        let mut pes = Vec::new();
        pes.extend_from_slice(&[0x00, 0x00, 0x01, 0xBD]);
        pes.extend_from_slice(&[0x00, 0x08]);
        pes.push(0x80);
        pes.push(0x80);
        pes.push(0x05);
        pes.extend_from_slice(pts_bytes);
        pes.extend_from_slice(&[0x80, 0x00, 0x00]);
        pes
    };

    let pes1 = make_pes(&[0x21, 0x00, 0x05, 0xBF, 0x21]); // PTS=90000
    let pes2 = make_pes(&[0x21, 0x00, 0x0B, 0x7E, 0x41]); // PTS=180000

    // First PES packet (single TS payload).
    let r1 = assembler.push(true, &pes1);
    assert!(r1.is_empty());

    // Second PES packet starts — first is emitted.
    let r2 = assembler.push(true, &pes2);
    assert_eq!(r2.len(), 1);
    assert_eq!(r2[0].pts, 90000);

    // Flush emits second.
    let r3 = assembler.flush();
    assert_eq!(r3.len(), 1);
    assert_eq!(r3[0].pts, 180000);
}
