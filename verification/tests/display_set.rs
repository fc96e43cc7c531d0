//! Display sets.
use libpgs::pgs::{
    decode_rle, CompositionObject, CompositionState, DisplaySetAssembler, DisplaySetBuilder,
    ObjectBitmap, PaletteEntry, PcsData, PdsData, PgsSegment, SegmentType, SequenceFlag, WdsData,
    WindowDefinition,
};

fn make_segment(seg_type: SegmentType, pts: u64) -> PgsSegment {
    let mut payload = Vec::new();
    if seg_type == SegmentType::PresentationComposition {
        // Minimal PCS payload: 11 bytes (width, height, framerate,
        // comp_number, comp_state, palette_update, palette_id, num_objects)
        payload = vec![
            0x07, 0x80, // width: 1920
            0x04, 0x38, // height: 1080
            0x10, // frame rate
            0x00, 0x01, // composition number
            0x80, // composition state: Epoch Start
            0x00, // palette update: false
            0x00, // palette id
            0x00, // num composition objects: 0
        ];
    }
    PgsSegment {
        pts,
        dts: 0,
        segment_type: seg_type,
        payload,
    }
}

#[test]
fn test_assemble_complete_display_set() {
    let mut assembler = DisplaySetAssembler::new();

    assert!(
        assembler.push(make_segment(SegmentType::PresentationComposition, 90000))
            .is_none()
    );
    assert!(
        assembler.push(make_segment(SegmentType::WindowDefinition, 90000))
            .is_none()
    );
    assert!(
        assembler.push(make_segment(SegmentType::PaletteDefinition, 90000))
            .is_none()
    );
    assert!(
        assembler.push(make_segment(SegmentType::ObjectDefinition, 90000))
            .is_none()
    );

    let ds = assembler.push(make_segment(SegmentType::EndOfDisplaySet, 90000));
    assert!(ds.is_some());

    let ds = ds.unwrap();
    assert_eq!(ds.pts, 90000);
    assert_eq!(ds.segments.len(), 5);
    assert_eq!(ds.composition_state, CompositionState::EpochStart);
}

#[test]
fn test_end_without_pcs_is_discarded() {
    let mut assembler = DisplaySetAssembler::new();
    assert!(
        assembler.push(make_segment(SegmentType::EndOfDisplaySet, 90000))
            .is_none()
    );
}

#[test]
fn test_pcs_resets_partial() {
    let mut assembler = DisplaySetAssembler::new();

    // Start a display set but don't finish it.
    assembler.push(make_segment(SegmentType::PresentationComposition, 90000));
    assembler.push(make_segment(SegmentType::WindowDefinition, 90000));

    // New PCS resets.
    assembler.push(make_segment(SegmentType::PresentationComposition, 180000));
    let ds = assembler.push(make_segment(SegmentType::EndOfDisplaySet, 180000));
    assert!(ds.is_some());
    let ds = ds.unwrap();
    assert_eq!(ds.pts, 180000);
    // Only PCS + END from the second set.
    assert_eq!(ds.segments.len(), 2);
}

// -- DisplaySetBuilder tests --


fn test_pcs() -> PcsData {
    PcsData {
        video_width: 1920,
        video_height: 1080,
        composition_number: 1,
        composition_state: CompositionState::EpochStart,
        palette_only: false,
        palette_id: 0,
        objects: vec![CompositionObject {
            object_id: 0,
            window_id: 0,
            x: 100,
            y: 900,
            crop: None,
        }],
    }
}

#[test]
fn test_builder_minimal_pcs_only() {
    let ds = DisplaySetBuilder::new(90000)
        .pcs(PcsData {
            video_width: 1920,
            video_height: 1080,
            composition_number: 0,
            composition_state: CompositionState::Normal,
            palette_only: false,
            palette_id: 0,
            objects: vec![],
        })
        .build()
        .unwrap();

    assert_eq!(ds.pts, 90000);
    assert_eq!(ds.composition_state, CompositionState::Normal);
    // PCS + END = 2 segments
    assert_eq!(ds.segments.len(), 2);
    assert_eq!(ds.segments[0].segment_type, SegmentType::PresentationComposition);
    assert_eq!(ds.segments[1].segment_type, SegmentType::EndOfDisplaySet);
}

#[test]
fn test_builder_no_pcs_error() {
    let result = DisplaySetBuilder::new(90000).build();
    assert!(result.is_err());
}

#[test]
fn test_builder_full_display_set() {
    let pcs = test_pcs();
    let wds = WdsData {
        windows: vec![WindowDefinition {
            id: 0, x: 100, y: 900, width: 200, height: 30,
        }],
    };
    let pds = PdsData {
        id: 0, version: 0,
        entries: vec![
            PaletteEntry { id: 0, luminance: 16, cr: 128, cb: 128, alpha: 0 },
            PaletteEntry { id: 1, luminance: 235, cr: 128, cb: 128, alpha: 255 },
        ],
    };
    // 200x30 image, all pixel index 1
    let pixels = vec![1u8; 200 * 30];
    let obj = ObjectBitmap {
        id: 0, version: 0,
        width: 200, height: 30,
        pixels,
    };

    let ds = DisplaySetBuilder::new(90000)
        .pcs(pcs)
        .wds(wds)
        .palette(pds)
        .object(obj)
        .build()
        .unwrap();

    // PCS + WDS + PDS + ODS + END = 5
    assert_eq!(ds.segments.len(), 5);
    assert_eq!(ds.segments[0].segment_type, SegmentType::PresentationComposition);
    assert_eq!(ds.segments[1].segment_type, SegmentType::WindowDefinition);
    assert_eq!(ds.segments[2].segment_type, SegmentType::PaletteDefinition);
    assert_eq!(ds.segments[3].segment_type, SegmentType::ObjectDefinition);
    assert_eq!(ds.segments[4].segment_type, SegmentType::EndOfDisplaySet);

    // Verify ODS is Complete
    let ods = ds.segments[3].parse_ods().unwrap();
    assert_eq!(ods.sequence, SequenceFlag::Complete);
    assert_eq!(ods.width, Some(200));
    assert_eq!(ods.height, Some(30));
}

#[test]
fn test_builder_write_and_reparse() {
    let pcs = test_pcs();
    let pds = PdsData {
        id: 0, version: 0,
        entries: vec![
            PaletteEntry { id: 0, luminance: 16, cr: 128, cb: 128, alpha: 0 },
            PaletteEntry { id: 1, luminance: 235, cr: 128, cb: 128, alpha: 255 },
        ],
    };
    let pixels = vec![1u8; 50 * 10];
    let obj = ObjectBitmap {
        id: 0, version: 0,
        width: 50, height: 10,
        pixels,
    };

    let ds = DisplaySetBuilder::new(90000)
        .pcs(pcs)
        .palette(pds)
        .object(obj)
        .build()
        .unwrap();

    // Serialize to a buffer, then reparse
    let mut buf = Vec::new();
    for seg in &ds.segments {
        buf.extend_from_slice(&seg.to_bytes());
    }

    // Parse back
    let mut assembler = DisplaySetAssembler::new();
    let mut offset = 0;
    let mut reparsed = Vec::new();
    while offset < buf.len() {
        let (seg, consumed) = PgsSegment::parse(&buf[offset..]).unwrap();
        offset += consumed;
        if let Some(ds) = assembler.push(seg) {
            reparsed.push(ds);
        }
    }

    assert_eq!(reparsed.len(), 1);
    let ds2 = &reparsed[0];
    assert_eq!(ds2.pts, 90000);
    assert_eq!(ds2.composition_state, CompositionState::EpochStart);

    // Verify the ODS round-trips
    let ods = ds2.segments.iter()
        .find(|s| s.segment_type == SegmentType::ObjectDefinition)
        .unwrap()
        .parse_ods()
        .unwrap();
    assert_eq!(ods.width, Some(50));
    assert_eq!(ods.height, Some(10));

    // Decode the RLE data and verify pixels
    let decoded = decode_rle(&ods.rle_data, 50, 10).unwrap();
    assert_eq!(decoded, vec![1u8; 500]);
}

#[test]
fn test_builder_large_ods_fragmentation() {
    let pcs = PcsData {
        video_width: 1920,
        video_height: 1080,
        composition_number: 0,
        composition_state: CompositionState::EpochStart,
        palette_only: false,
        palette_id: 0,
        objects: vec![CompositionObject {
            object_id: 0, window_id: 0, x: 0, y: 0, crop: None,
        }],
    };

    // Create a large bitmap that will need fragmentation.
    // Alternating pixel values to prevent RLE from compressing too well.
    let w: u16 = 1920;
    let h: u16 = 200;
    let total = w as usize * h as usize;
    let pixels: Vec<u8> = (0..total).map(|i| ((i % 254) + 1) as u8).collect();

    let obj = ObjectBitmap {
        id: 0, version: 0,
        width: w, height: h,
        pixels: pixels.clone(),
    };

    let ds = DisplaySetBuilder::new(90000)
        .pcs(pcs)
        .object(obj)
        .build()
        .unwrap();

    // Should have more than 3 segments (PCS + multiple ODS + END)
    assert!(ds.segments.len() > 3, "expected fragmented ODS, got {} segments", ds.segments.len());

    // Verify segment types: PCS, then ODS (First, Continuation..., Last), then END
    assert_eq!(ds.segments[0].segment_type, SegmentType::PresentationComposition);
    assert_eq!(ds.segments.last().unwrap().segment_type, SegmentType::EndOfDisplaySet);

    let ods_segments: Vec<_> = ds.segments.iter()
        .filter(|s| s.segment_type == SegmentType::ObjectDefinition)
        .collect();
    assert!(ods_segments.len() >= 2);

    // First ODS should be First, last ODS should be Last
    let first_ods = ods_segments[0].parse_ods().unwrap();
    assert_eq!(first_ods.sequence, SequenceFlag::First);
    assert_eq!(first_ods.width, Some(w));
    assert_eq!(first_ods.height, Some(h));

    let last_ods = ods_segments.last().unwrap().parse_ods().unwrap();
    assert_eq!(last_ods.sequence, SequenceFlag::Last);

    // Reassemble RLE data from all ODS fragments
    let mut all_rle = Vec::new();
    for seg in &ods_segments {
        let ods = seg.parse_ods().unwrap();
        all_rle.extend_from_slice(&ods.rle_data);
    }

    // Decode and verify pixels
    let decoded = decode_rle(&all_rle, w, h).unwrap();
    assert_eq!(decoded, pixels);

    // Verify no segment payload exceeds 65535 bytes
    for seg in &ds.segments {
        assert!(seg.payload.len() <= 65535, "payload too large: {}", seg.payload.len());
    }
}

#[test]
fn a_reset_drops_what_was_pushed() {
    let mut assembler = DisplaySetAssembler::default();
    assembler.push(make_segment(SegmentType::PresentationComposition, 90000));
    assembler.reset();
    assert!(assembler.push(make_segment(SegmentType::EndOfDisplaySet, 90000)).is_none());
}

#[test]
fn a_bitmap_of_the_wrong_size_is_refused() {
    let e = DisplaySetBuilder::new(0)
        .dts(5)
        .pcs(test_pcs())
        .object(ObjectBitmap { id: 9, version: 0, width: 3, height: 2, pixels: vec![0; 5] })
        .build()
        .unwrap_err();
    assert_eq!(e.message(), "encoding error: RLE encoding failed for object 9 (3x2, 5 pixels)");
    let e = DisplaySetBuilder::new(0).build().unwrap_err();
    assert_eq!(e.message(), "encoding error: DisplaySet requires a PCS");
}
