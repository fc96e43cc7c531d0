//! Program association tables.
use libpgs::m2ts::pat::parse_pat_section;

#[test]
fn test_parse_pat_section() {
    let data = [
        0x00, // table_id
        0xB0, 0x0D, // section_syntax=1, section_length=13
        0x00, 0x01, // transport_stream_id
        0xC1, // reserved, version=0, current=1
        0x00, // section_number
        0x00, // last_section_number
        // Entry: program_number=1, PMT_PID=0x100
        0x00, 0x01, 0xE1, 0x00, // CRC32 (not validated)
        0x00, 0x00, 0x00, 0x00,
    ];

    let entries = parse_pat_section(&data).unwrap();
    assert_eq!(entries.len(), 1);
    assert_eq!(entries[0].program_number, 1);
    assert_eq!(entries[0].pmt_pid, 0x100);
}

#[test]
fn test_parse_pat_skips_nit() {
    let data = [
        0x00, 0xB0, 0x11, // section_length=17
        0x00, 0x01, 0xC1, 0x00, 0x00, // NIT entry: program_number=0, PID=0x10
        0x00, 0x00, 0xE0, 0x10, // Program entry: program_number=1, PMT_PID=0x100
        0x00, 0x01, 0xE1, 0x00, // CRC32
        0x00, 0x00, 0x00, 0x00,
    ];

    let entries = parse_pat_section(&data).unwrap();
    assert_eq!(entries.len(), 1);
    assert_eq!(entries[0].program_number, 1);
}
