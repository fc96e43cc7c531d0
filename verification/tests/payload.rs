//! Segment payloads.
use libpgs::pgs::{CompositionState, OdsData, PcsData, PdsData, SequenceFlag, WdsData};

// -- PCS tests --

#[test]
fn test_pcs_no_objects() {
    let payload = vec![
        0x07, 0x80, // width: 1920
        0x04, 0x38, // height: 1080
        0x10, // frame rate
        0x00, 0x01, // composition number: 1
        0x80, // composition state: Epoch Start
        0x00, // palette update: false
        0x00, // palette id: 0
        0x00, // num objects: 0
    ];
    let pcs = PcsData::parse(&payload).unwrap();
    assert_eq!(pcs.video_width, 1920);
    assert_eq!(pcs.video_height, 1080);
    assert_eq!(pcs.composition_number, 1);
    assert_eq!(pcs.composition_state, CompositionState::EpochStart);
    assert!(!pcs.palette_only);
    assert_eq!(pcs.palette_id, 0);
    assert!(pcs.objects.is_empty());
}

#[test]
fn test_pcs_one_uncropped_object() {
    let payload = vec![
        0x07, 0x80, // width: 1920
        0x04, 0x38, // height: 1080
        0x10, // frame rate
        0x01, 0xAE, // composition number: 430
        0x80, // composition state: Epoch Start
        0x00, // palette update: false
        0x00, // palette id
        0x01, // num objects: 1
        // Composition object:
        0x00, 0x00, // object_id: 0
        0x00, // window_id: 0
        0x00, // cropped: false
        0x03, 0x05, // x: 773
        0x00, 0x6C, // y: 108
    ];
    let pcs = PcsData::parse(&payload).unwrap();
    assert_eq!(pcs.objects.len(), 1);
    let obj = &pcs.objects[0];
    assert_eq!(obj.object_id, 0);
    assert_eq!(obj.window_id, 0);
    assert_eq!(obj.x, 773);
    assert_eq!(obj.y, 108);
    assert!(obj.crop.is_none());
}

#[test]
fn test_pcs_cropped_object() {
    let payload = vec![
        0x07, 0x80, 0x04, 0x38, 0x10, // width, height, framerate
        0x00, 0x01, // composition number
        0x00, // Normal
        0x00, 0x00, // palette update, palette id
        0x01, // num objects: 1
        // Composition object:
        0x00, 0x01, // object_id: 1
        0x00, // window_id: 0
        0x80, // cropped: true
        0x00, 0x64, // x: 100
        0x00, 0xC8, // y: 200
        // Crop info:
        0x00, 0x0A, // crop x: 10
        0x00, 0x14, // crop y: 20
        0x00, 0x50, // crop width: 80
        0x00, 0x28, // crop height: 40
    ];
    let pcs = PcsData::parse(&payload).unwrap();
    let obj = &pcs.objects[0];
    assert!(obj.crop.is_some());
    let crop = obj.crop.as_ref().unwrap();
    assert_eq!(crop.x, 10);
    assert_eq!(crop.y, 20);
    assert_eq!(crop.width, 80);
    assert_eq!(crop.height, 40);
}

#[test]
fn test_pcs_palette_only_update() {
    let payload = vec![
        0x07, 0x80, 0x04, 0x38, 0x10, 0x00, 0x02, 0x00, // Normal state
        0x80, // palette update: true
        0x03, // palette id: 3
        0x00, // num objects: 0
    ];
    let pcs = PcsData::parse(&payload).unwrap();
    assert!(pcs.palette_only);
    assert_eq!(pcs.palette_id, 3);
}

#[test]
fn test_pcs_truncated() {
    assert!(PcsData::parse(&[0x07, 0x80]).is_none());
    // Truncated: says 1 object but no object data
    let payload = vec![
        0x07, 0x80, 0x04, 0x38, 0x10, 0x00, 0x01, 0x80, 0x00, 0x00, 0x01,
    ];
    assert!(PcsData::parse(&payload).is_none());
}

// -- WDS tests --

#[test]
fn test_wds_two_windows() {
    let payload = vec![
        0x02, // 2 windows
        // Window 0:
        0x00, // id: 0
        0x03, 0x05, // x: 773
        0x00, 0x6C, // y: 108
        0x01, 0x79, // width: 377
        0x00, 0x2B, // height: 43
        // Window 1:
        0x01, // id: 1
        0x02, 0xE3, // x: 739
        0x03, 0xA0, // y: 928
        0x01, 0xD8, // width: 472
        0x00, 0x2B, // height: 43
    ];
    let wds = WdsData::parse(&payload).unwrap();
    assert_eq!(wds.windows.len(), 2);
    assert_eq!(wds.windows[0].id, 0);
    assert_eq!(wds.windows[0].x, 773);
    assert_eq!(wds.windows[0].width, 377);
    assert_eq!(wds.windows[1].id, 1);
    assert_eq!(wds.windows[1].x, 739);
    assert_eq!(wds.windows[1].width, 472);
}

#[test]
fn test_wds_truncated() {
    assert!(WdsData::parse(&[]).is_none());
    // Says 1 window but only 5 bytes of data
    assert!(WdsData::parse(&[0x01, 0x00, 0x00, 0x00, 0x00, 0x00]).is_none());
}

// -- PDS tests --

#[test]
fn test_pds_multiple_entries() {
    let payload = vec![
        0x00, // palette id: 0
        0x00, // version: 0
        // Entry 0:
        0x00, 0x10, 0x80, 0x80, 0x00, // id=0, Y=16, Cr=128, Cb=128, A=0
        // Entry 1:
        0x01, 0x10, 0x80, 0x80, 0xFF, // id=1, Y=16, Cr=128, Cb=128, A=255
        // Entry 255:
        0xFF, 0xEB, 0x80, 0x80, 0xFF, // id=255, Y=235, Cr=128, Cb=128, A=255
    ];
    let pds = PdsData::parse(&payload).unwrap();
    assert_eq!(pds.id, 0);
    assert_eq!(pds.version, 0);
    assert_eq!(pds.entries.len(), 3);
    assert_eq!(pds.entries[0].id, 0);
    assert_eq!(pds.entries[0].luminance, 16);
    assert_eq!(pds.entries[0].alpha, 0);
    assert_eq!(pds.entries[2].id, 255);
    assert_eq!(pds.entries[2].luminance, 235);
}

#[test]
fn test_pds_empty_palette() {
    let payload = vec![0x00, 0x00]; // id=0, version=0, no entries
    let pds = PdsData::parse(&payload).unwrap();
    assert!(pds.entries.is_empty());
}

#[test]
fn test_pds_truncated() {
    assert!(PdsData::parse(&[0x00]).is_none());
    // Incomplete entry (3 bytes instead of 5)
    assert!(PdsData::parse(&[0x00, 0x00, 0x01, 0x10, 0x80]).is_none());
}

// -- ODS tests --

#[test]
fn test_ods_complete() {
    let payload = vec![
        0x00, 0x00, // object id: 0
        0x00, // version: 0
        0xC0, // sequence: first and last (complete)
        0x00, 0x21, 0xBB, // data_length: 8635
        0x01, 0x79, // width: 377
        0x00, 0x2B, // height: 43
        // RLE data would follow...
        0x00, 0x01, 0x02,
    ];
    let ods = OdsData::parse(&payload).unwrap();
    assert_eq!(ods.id, 0);
    assert_eq!(ods.version, 0);
    assert_eq!(ods.sequence, SequenceFlag::Complete);
    assert_eq!(ods.data_length, 8635);
    assert_eq!(ods.width, Some(377));
    assert_eq!(ods.height, Some(43));
}

#[test]
fn test_ods_continuation_fragment() {
    // Continuation fragments have only the 4-byte header (no data_length/width/height).
    let payload = vec![
        0x00, 0x00, // object id: 0
        0x01, // version: 1
        0x00, // sequence: continuation
        // RLE data follows immediately:
        0xAA, 0xBB,
    ];
    let ods = OdsData::parse(&payload).unwrap();
    assert_eq!(ods.sequence, SequenceFlag::Continuation);
    assert_eq!(ods.data_length, 0);
    assert!(ods.width.is_none());
    assert!(ods.height.is_none());
}

#[test]
fn test_ods_last_fragment() {
    // Last fragments have only the 4-byte header (no data_length/width/height).
    let payload = vec![
        0x00, 0x01, // object id: 1
        0x00, // version: 0
        0x40, // sequence: last
        // RLE data follows immediately:
        0xCC, 0xDD,
    ];
    let ods = OdsData::parse(&payload).unwrap();
    assert_eq!(ods.sequence, SequenceFlag::Last);
    assert_eq!(ods.data_length, 0);
    assert!(ods.width.is_none());
}

#[test]
fn test_ods_first_fragment() {
    let payload = vec![
        0x00, 0x00, // object id: 0
        0x00, // version
        0x80, // sequence: first
        0x00, 0x40, 0x00, // data_length
        0x01, 0x79, // width: 377
        0x00, 0x2B, // height: 43
    ];
    let ods = OdsData::parse(&payload).unwrap();
    assert_eq!(ods.sequence, SequenceFlag::First);
    assert_eq!(ods.width, Some(377));
    assert_eq!(ods.height, Some(43));
}

#[test]
fn test_ods_truncated() {
    // Less than 4-byte header.
    assert!(OdsData::parse(&[0x00, 0x00, 0x00]).is_none());
    // First/complete fragment but missing width/height (only 7 bytes, need 11).
    let payload = vec![0x00, 0x00, 0x00, 0xC0, 0x00, 0x10, 0x00];
    assert!(OdsData::parse(&payload).is_none());
}

#[test]
fn test_ods_invalid_sequence_flag() {
    let payload = vec![
        0x00, 0x00, 0x00, 0x20, // invalid sequence flag
        0x00, 0x10, 0x00,
    ];
    assert!(OdsData::parse(&payload).is_none());
}

// -- SequenceFlag tests --

#[test]
fn test_sequence_flag_as_str() {
    assert_eq!(SequenceFlag::Complete.as_str(), "complete");
    assert_eq!(SequenceFlag::First.as_str(), "first");
    assert_eq!(SequenceFlag::Last.as_str(), "last");
    assert_eq!(SequenceFlag::Continuation.as_str(), "continuation");
}

// -- Round-trip tests (to_bytes -> parse) --

#[test]
fn test_pcs_roundtrip_no_objects() {
    let payload = vec![
        0x07, 0x80, 0x04, 0x38, 0x10,
        0x00, 0x01, 0x80, 0x00, 0x00, 0x00,
    ];
    let pcs = PcsData::parse(&payload).unwrap();
    assert_eq!(pcs.to_bytes(), payload);
}

#[test]
fn test_pcs_roundtrip_with_object() {
    let payload = vec![
        0x07, 0x80, 0x04, 0x38, 0x10,
        0x01, 0xAE, 0x80, 0x00, 0x00, 0x01,
        0x00, 0x00, 0x00, 0x00, 0x03, 0x05, 0x00, 0x6C,
    ];
    let pcs = PcsData::parse(&payload).unwrap();
    assert_eq!(pcs.to_bytes(), payload);
}

#[test]
fn test_pcs_roundtrip_cropped() {
    let payload = vec![
        0x07, 0x80, 0x04, 0x38, 0x10,
        0x00, 0x01, 0x00, 0x00, 0x00, 0x01,
        0x00, 0x01, 0x00, 0x80, 0x00, 0x64, 0x00, 0xC8,
        0x00, 0x0A, 0x00, 0x14, 0x00, 0x50, 0x00, 0x28,
    ];
    let pcs = PcsData::parse(&payload).unwrap();
    assert_eq!(pcs.to_bytes(), payload);
}

#[test]
fn test_wds_roundtrip() {
    let payload = vec![
        0x02,
        0x00, 0x03, 0x05, 0x00, 0x6C, 0x01, 0x79, 0x00, 0x2B,
        0x01, 0x02, 0xE3, 0x03, 0xA0, 0x01, 0xD8, 0x00, 0x2B,
    ];
    let wds = WdsData::parse(&payload).unwrap();
    assert_eq!(wds.to_bytes(), payload);
}

#[test]
fn test_pds_roundtrip() {
    let payload = vec![
        0x00, 0x00,
        0x00, 0x10, 0x80, 0x80, 0x00,
        0x01, 0x10, 0x80, 0x80, 0xFF,
        0xFF, 0xEB, 0x80, 0x80, 0xFF,
    ];
    let pds = PdsData::parse(&payload).unwrap();
    assert_eq!(pds.to_bytes(), payload);
}

#[test]
fn test_ods_roundtrip_complete() {
    let payload = vec![
        0x00, 0x00, 0x00, 0xC0,
        0x00, 0x00, 0x07, // data_length: 3 + 4 = 7
        0x01, 0x79, 0x00, 0x2B,
        0x00, 0x01, 0x02,
    ];
    let ods = OdsData::parse(&payload).unwrap();
    assert_eq!(ods.rle_data, vec![0x00, 0x01, 0x02]);
    assert_eq!(ods.to_bytes(), payload);
}

#[test]
fn test_ods_roundtrip_continuation() {
    let payload = vec![
        0x00, 0x00, 0x01, 0x00,
        0xAA, 0xBB,
    ];
    let ods = OdsData::parse(&payload).unwrap();
    assert_eq!(ods.rle_data, vec![0xAA, 0xBB]);
    assert_eq!(ods.to_bytes(), payload);
}

#[test]
fn test_ods_roundtrip_last() {
    let payload = vec![
        0x00, 0x01, 0x00, 0x40,
        0xCC, 0xDD,
    ];
    let ods = OdsData::parse(&payload).unwrap();
    assert_eq!(ods.to_bytes(), payload);
}

#[test]
fn test_sequence_flag_roundtrip() {
    for flag in [SequenceFlag::Complete, SequenceFlag::First, SequenceFlag::Last, SequenceFlag::Continuation] {
        assert_eq!(SequenceFlag::from_byte(flag.to_byte()), Some(flag));
    }
}

#[test]
fn test_composition_state_roundtrip() {
    for state in [CompositionState::Normal, CompositionState::AcquisitionPoint, CompositionState::EpochStart] {
        assert_eq!(CompositionState::from_byte(state.to_byte()), Some(state));
    }
}
