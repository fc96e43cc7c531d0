//! Raw PGS files.
use libpgs::io::{MemorySource, SeekBufReader};
use libpgs::pgs::{PgsSegment, SegmentType};
use libpgs::sup::count::count_display_sets;
use libpgs::sup::stream::SupExtractorState;
use libpgs::ContainerFormat;

/// Build a minimal .sup file with one complete display set (PCS + END).
fn build_sup_bytes() -> Vec<u8> {
    let pcs = PgsSegment {
        pts: 90000,
        dts: 0,
        segment_type: SegmentType::PresentationComposition,
        payload: vec![
            0x07, 0x80, // width: 1920
            0x04, 0x38, // height: 1080
            0x10, // frame rate
            0x00, 0x01, // composition number
            0x80, // composition state: Epoch Start
            0x00, // palette update: false
            0x00, // palette id
            0x00, // num composition objects: 0
        ],
    };
    let end = PgsSegment {
        pts: 90000,
        dts: 0,
        segment_type: SegmentType::EndOfDisplaySet,
        payload: Vec::new(),
    };

    let mut data = pcs.to_bytes();
    data.extend_from_slice(&end.to_bytes());
    data
}

#[test]
fn read_single_display_set() {
    let bytes = build_sup_bytes();

    let reader = SeekBufReader::new(MemorySource::new(bytes));
    let mut state = SupExtractorState::new(reader);

    let tds = state
        .next_display_set()
        .expect("should yield a display set")
        .expect("should be Ok");
    assert_eq!(tds.track_id, 0);
    assert_eq!(tds.display_set.pts, 90000);
    assert_eq!(tds.display_set.segments.len(), 2);
    assert_eq!(tds.container, ContainerFormat::Sup);

    assert!(state.next_display_set().is_none());
}

#[test]
fn read_multiple_display_sets() {
    let mut data = build_sup_bytes();

    let pcs2 = PgsSegment {
        pts: 180000,
        dts: 0,
        segment_type: SegmentType::PresentationComposition,
        payload: vec![
            0x07, 0x80, 0x04, 0x38, 0x10, 0x00, 0x02, // composition number: 2
            0x00, // composition state: Normal
            0x00, 0x00, 0x00,
        ],
    };
    let end2 = PgsSegment {
        pts: 180000,
        dts: 0,
        segment_type: SegmentType::EndOfDisplaySet,
        payload: Vec::new(),
    };
    data.extend_from_slice(&pcs2.to_bytes());
    data.extend_from_slice(&end2.to_bytes());

    let bytes = data;

    let reader = SeekBufReader::new(MemorySource::new(bytes));
    let mut state = SupExtractorState::new(reader);

    let ds1 = state.next_display_set().unwrap().unwrap();
    assert_eq!(ds1.display_set.pts, 90000);

    let ds2 = state.next_display_set().unwrap().unwrap();
    assert_eq!(ds2.display_set.pts, 180000);

    assert!(state.next_display_set().is_none());
}

#[test]
fn count_display_sets_content_and_clear() {
    // Content DS: PCS with 1 composition object, then END.
    let content_pcs = PgsSegment {
        pts: 90000,
        dts: 0,
        segment_type: SegmentType::PresentationComposition,
        payload: vec![
            0x07, 0x80, 0x04, 0x38, 0x10, 0x00, 0x01, 0x80, 0x00, 0x00,
            0x01, // num_composition_objects: 1
            // One composition object (8 bytes, no crop):
            0x00, 0x00, // object_id
            0x00, // window_id
            0x00, // flags (no crop)
            0x00, 0x10, // x
            0x00, 0x20, // y
        ],
    };
    let content_end = PgsSegment {
        pts: 90000,
        dts: 0,
        segment_type: SegmentType::EndOfDisplaySet,
        payload: Vec::new(),
    };
    // Clear DS: PCS with 0 composition objects, then END.
    let clear_pcs = PgsSegment {
        pts: 180000,
        dts: 0,
        segment_type: SegmentType::PresentationComposition,
        payload: vec![
            0x07, 0x80, 0x04, 0x38, 0x10, 0x00, 0x02, 0x00, 0x00, 0x00,
            0x00, // num_composition_objects: 0
        ],
    };
    let clear_end = PgsSegment {
        pts: 180000,
        dts: 0,
        segment_type: SegmentType::EndOfDisplaySet,
        payload: Vec::new(),
    };

    let mut data = content_pcs.to_bytes();
    data.extend_from_slice(&content_end.to_bytes());
    data.extend_from_slice(&clear_pcs.to_bytes());
    data.extend_from_slice(&clear_end.to_bytes());

    let bytes = data;

    let counts = count_display_sets(&mut SeekBufReader::new(MemorySource::new(bytes))).expect("count");
    assert_eq!(counts.total, 2);
    assert_eq!(counts.content, 1);
    assert_eq!(counts.clear, 1);
    assert_eq!(counts.total, counts.content + counts.clear);
}

#[test]
fn empty_file_yields_none() {
    let bytes = Vec::new();

    let reader = SeekBufReader::new(MemorySource::new(bytes));
    let mut state = SupExtractorState::new(reader);

    assert!(state.next_display_set().is_none());
}
