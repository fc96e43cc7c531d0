//! Segments.
use libpgs::pgs::{
    CompositionObject, CompositionState, OdsData, PaletteEntry, ParsedPayload, PcsData, PdsData, PgsSegment,
    SegmentType, SequenceFlag, WdsData, WindowDefinition,
};

#[test]
fn test_parse_end_segment() {
    // END segment: PG magic + PTS + DTS + type 0x80 + size 0x0000
    let data = [
        0x50, 0x47, // "PG"
        0x00, 0x04, 0xC1, 0x1C, // PTS = 311580
        0x00, 0x00, 0x00, 0x00, // DTS = 0
        0x80, // END
        0x00, 0x00, // size = 0
    ];

    let (seg, consumed) = PgsSegment::parse(&data).unwrap();
    assert_eq!(consumed, 13);
    assert_eq!(seg.pts, 311580);
    assert_eq!(seg.dts, 0);
    assert_eq!(seg.segment_type, SegmentType::EndOfDisplaySet);
    assert!(seg.payload.is_empty());
    assert!((seg.pts as f64 / 90.0 - 3462.0).abs() < 0.1);
}

#[test]
fn test_roundtrip() {
    let seg = PgsSegment {
        pts: 90000,
        dts: 0,
        segment_type: SegmentType::PaletteDefinition,
        payload: vec![0x00, 0x00, 0x01, 0x10, 0x80, 0x80, 0xFF],
    };
    let bytes = seg.to_bytes();
    let (parsed, consumed) = PgsSegment::parse(&bytes).unwrap();
    assert_eq!(consumed, bytes.len());
    assert_eq!(parsed.pts, seg.pts);
    assert_eq!(parsed.segment_type, seg.segment_type);
    assert_eq!(parsed.payload, seg.payload);
}

#[test]
fn test_invalid_magic() {
    let data = [0x00, 0x00, 0, 0, 0, 0, 0, 0, 0, 0, 0x80, 0, 0];
    assert!(PgsSegment::parse(&data).is_err());
}

#[test]
fn test_from_pcs_roundtrip() {
    let pcs = PcsData {
        video_width: 1920,
        video_height: 1080,
        composition_number: 5,
        composition_state: CompositionState::EpochStart,
        palette_only: false,
        palette_id: 0,
        objects: vec![CompositionObject {
            object_id: 0,
            window_id: 0,
            x: 100,
            y: 200,
            crop: None,
        }],
    };
    let seg = PgsSegment::from_pcs(90000, 0, &pcs);
    assert_eq!(seg.segment_type, SegmentType::PresentationComposition);
    let parsed = seg.parse_pcs().unwrap();
    assert_eq!(parsed.video_width, 1920);
    assert_eq!(parsed.composition_number, 5);
    assert_eq!(parsed.objects.len(), 1);
}

#[test]
fn test_from_wds_roundtrip() {
    let wds = WdsData {
        windows: vec![WindowDefinition {
            id: 0, x: 50, y: 60, width: 300, height: 40,
        }],
    };
    let seg = PgsSegment::from_wds(90000, 0, &wds);
    let parsed = seg.parse_wds().unwrap();
    assert_eq!(parsed.windows[0].width, 300);
}

#[test]
fn test_from_pds_roundtrip() {
    let pds = PdsData {
        id: 0, version: 0,
        entries: vec![PaletteEntry { id: 1, luminance: 200, cr: 128, cb: 128, alpha: 255 }],
    };
    let seg = PgsSegment::from_pds(90000, 0, &pds);
    let parsed = seg.parse_pds().unwrap();
    assert_eq!(parsed.entries[0].luminance, 200);
}

#[test]
fn test_from_ods_roundtrip() {
    let ods = OdsData {
        id: 0, version: 0,
        sequence: SequenceFlag::Complete,
        data_length: 0, // will be recomputed by to_bytes
        width: Some(10), height: Some(5),
        rle_data: vec![0x01, 0x02, 0x03],
    };
    let seg = PgsSegment::from_ods(90000, 0, &ods);
    let parsed = seg.parse_ods().unwrap();
    assert_eq!(parsed.width, Some(10));
    assert_eq!(parsed.rle_data, vec![0x01, 0x02, 0x03]);
}

#[test]
fn test_end_segment() {
    let seg = PgsSegment::end_segment(90000, 0);
    assert_eq!(seg.segment_type, SegmentType::EndOfDisplaySet);
    assert!(seg.payload.is_empty());
}

#[test]
fn test_set_pds_payload() {
    let pds = PdsData {
        id: 0, version: 0,
        entries: vec![PaletteEntry { id: 0, luminance: 16, cr: 128, cb: 128, alpha: 0 }],
    };
    let mut seg = PgsSegment::from_pds(90000, 0, &pds);
    let original_bytes = seg.payload.clone();

    // Modify and update
    let mut new_pds = seg.parse_pds().unwrap();
    new_pds.entries[0].luminance = 235;
    seg.set_pds_payload(&new_pds);

    assert_ne!(seg.payload, original_bytes);
    let reparsed = seg.parse_pds().unwrap();
    assert_eq!(reparsed.entries[0].luminance, 235);
}

#[test]
fn payloads_are_replaced() {
    let mut pcs = PgsSegment::from_pcs(
        1,
        2,
        &PcsData {
            video_width: 10,
            video_height: 20,
            composition_number: 30,
            composition_state: CompositionState::Normal,
            palette_only: true,
            palette_id: 4,
            objects: vec![],
        },
    );
    let mut data = pcs.parse_pcs().unwrap();
    data.video_width = 11;
    pcs.set_pcs_payload(&data);
    assert_eq!(pcs.payload, vec![0, 11, 0, 20, 0x10, 0, 30, 0, 0x80, 4, 0]);
    assert!(matches!(pcs.parse_payload(), Some(ParsedPayload::Pcs(p)) if p.video_width == 11));

    let mut wds = PgsSegment::from_wds(1, 2, &WdsData { windows: vec![] });
    wds.set_wds_payload(&WdsData {
        windows: vec![WindowDefinition { id: 1, x: 2, y: 3, width: 4, height: 5 }],
    });
    assert_eq!(wds.payload, vec![1, 1, 0, 2, 0, 3, 0, 4, 0, 5]);
    assert!(matches!(wds.parse_payload(), Some(ParsedPayload::Wds(_))));

    let mut ods = OdsData {
        id: 1,
        version: 2,
        sequence: SequenceFlag::Last,
        data_length: 0,
        width: None,
        height: None,
        rle_data: vec![7],
    };
    let mut seg = PgsSegment::from_ods(1, 2, &ods);
    ods.rle_data = vec![8, 9];
    seg.set_ods_payload(&ods);
    assert_eq!(seg.payload, vec![0, 1, 2, 0x40, 8, 9]);
    assert!(matches!(seg.parse_payload(), Some(ParsedPayload::Ods(_))));
    assert!(matches!(PgsSegment::end_segment(1, 2).parse_payload(), Some(ParsedPayload::End)));
    assert!(seg.parse_pcs().is_none());
}

#[test]
fn raw_segments_come_back() {
    let data = [0x14, 0, 2, 1, 2, 0x80, 0, 0, 0x99, 1, 2];
    let segments = PgsSegment::parse_raw_segments(5, 6, &data);
    assert_eq!(segments.len(), 2);
    assert_eq!((segments[0].pts, segments[0].dts), (5, 6));
    let mut out = Vec::new();
    segments[0].write_to(&mut out);
    assert_eq!(out, [0x50, 0x47, 0, 0, 0, 5, 0, 0, 0, 6, 0x14, 0, 2, 1, 2]);
}
