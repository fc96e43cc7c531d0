//! Transport stream packets.
use libpgs::m2ts::ts_packet::{
    align_to_packet, extract_payload, PacketFormat, TsHeader, TS_PACKET_SIZE,
};

#[test]
fn test_ts_header_parse() {
    // Sync=0x47, PUSI=1, PID=0x100, AFC=01 (payload only), CC=0
    let bytes = [0x47, 0x41, 0x00, 0x10];
    let h = TsHeader::parse(&bytes).unwrap();
    assert!(h.pusi);
    assert_eq!(h.pid, 256);
    assert!(h.has_payload());
    assert!(!h.has_adaptation_field());
}

#[test]
fn test_ts_header_bad_sync() {
    let bytes = [0x00, 0x41, 0x00, 0x10];
    assert!(TsHeader::parse(&bytes).is_err());
}

#[test]
fn test_packet_format_sizes() {
    assert_eq!(PacketFormat::M2ts.packet_size(), 192);
    assert_eq!(PacketFormat::RawTs.packet_size(), 188);
    assert_eq!(PacketFormat::M2ts.sync_offset(), 4);
    assert_eq!(PacketFormat::RawTs.sync_offset(), 0);
}

#[test]
fn test_extract_payload_no_adaptation() {
    let mut ts = [0u8; TS_PACKET_SIZE];
    ts[0] = 0x47;
    ts[1] = 0x40; // PUSI=1
    ts[2] = 0x00; // PID=0
    ts[3] = 0x10; // AFC=01, CC=0
    ts[4] = 0xFF; // First payload byte

    let (header, payload) = extract_payload(&ts).unwrap();
    assert!(header.pusi);
    assert_eq!(header.pid, 0);
    assert_eq!(payload.len(), 184);
    assert_eq!(payload[0], 0xFF);
}

#[test]
fn test_extract_payload_with_adaptation() {
    let mut ts = [0u8; TS_PACKET_SIZE];
    ts[0] = 0x47;
    ts[1] = 0x00;
    ts[2] = 0x41; // PID=0x41
    ts[3] = 0x30; // AFC=11 (adaptation + payload), CC=0
    ts[4] = 0x07; // Adaptation field length = 7
    // ts[5..12] = adaptation field data
    ts[12] = 0xAA; // First payload byte

    let (header, payload) = extract_payload(&ts).unwrap();
    assert_eq!(header.pid, 0x41);
    assert!(header.has_payload());
    assert!(header.has_adaptation_field());
    assert_eq!(payload.len(), 188 - 12);
    assert_eq!(payload[0], 0xAA);
}

#[test]
fn test_align_to_packet() {
    assert_eq!(align_to_packet(0, 192), 0);
    assert_eq!(align_to_packet(1, 192), 192);
    assert_eq!(align_to_packet(192, 192), 192);
    assert_eq!(align_to_packet(193, 192), 384);
}
