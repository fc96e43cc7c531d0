//! Variable-length integers.
use libpgs::ebml::{read_element_id, read_element_size, read_track_number};
use libpgs::io::{MemorySource, SeekBufReader};

fn over(bytes: &[u8]) -> SeekBufReader<MemorySource> {
    SeekBufReader::new(MemorySource::new(bytes.to_vec()))
}

#[test]
fn test_element_id_1_byte() {
    // SimpleBlock element ID: 0xA3
    let mut r = over(&[0xA3]);
    let v = read_element_id(&mut r).unwrap();
    assert_eq!(v.value, 0xA3);
    assert_eq!(v.width, 1);
}

#[test]
fn test_element_id_2_byte() {
    // Cluster element ID: 0x1F43B675 — actually 4 bytes
    // TrackNumber element ID: 0xD7 — 1 byte
    // Let's test a 2-byte ID: CodecID = 0x86 is 1 byte.
    // TrackType = 0x83 is 1 byte.
    // SeekID = 0x53AB is 2 bytes.
    let mut r = over(&[0x53, 0xAB]);
    let v = read_element_id(&mut r).unwrap();
    assert_eq!(v.value, 0x53AB);
    assert_eq!(v.width, 2);
}

#[test]
fn test_element_id_4_byte() {
    // Segment element ID: 0x18538067
    let mut r = over(&[0x18, 0x53, 0x80, 0x67]);
    let v = read_element_id(&mut r).unwrap();
    assert_eq!(v.value, 0x18538067);
    assert_eq!(v.width, 4);
}

#[test]
fn test_element_size_1_byte() {
    // Size 5: encoded as 0x85 (1-byte VINT, marker bit 0x80 | 0x05)
    let mut r = over(&[0x85]);
    let v = read_element_size(&mut r).unwrap();
    assert_eq!(v.value, 5);
    assert_eq!(v.width, 1);
}

#[test]
fn test_element_size_2_byte() {
    // Size 200: encoded as 0x40C8 (2-byte VINT, marker 0x4000 | 200)
    let mut r = over(&[0x40, 0xC8]);
    let v = read_element_size(&mut r).unwrap();
    assert_eq!(v.value, 200);
    assert_eq!(v.width, 2);
}

#[test]
fn test_element_size_unknown() {
    // Unknown size for 1-byte VINT: 0xFF (all data bits = 1, value = 127 = 2^7-1)
    let mut r = over(&[0xFF]);
    let v = read_element_size(&mut r).unwrap();
    assert_eq!(v.value, u64::MAX);
    assert_eq!(v.width, 1);
}

#[test]
fn test_track_number() {
    // Track 1: 0x81 (marker 0x80 | 1)
    let mut r = over(&[0x81]);
    let v = read_track_number(&mut r).unwrap();
    assert_eq!(v.value, 1);
    assert_eq!(v.width, 1);

    // Track 3: 0x83
    let mut r = over(&[0x83]);
    let v = read_track_number(&mut r).unwrap();
    assert_eq!(v.value, 3);
    assert_eq!(v.width, 1);
}

#[test]
fn test_vint_zero_is_error() {
    let mut r = over(&[0x00]);
    assert!(read_element_id(&mut r).is_err());
}
