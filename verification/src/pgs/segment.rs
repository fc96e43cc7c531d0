//! PGS segments.
use vstd::prelude::*;
use crate::bytes::{
    be16, be16_bytes, be32, be32_bytes, copy_range, lemma_be16, lemma_be32, push_range, push_u16_be,
    push_u32_be, u16_be, u32_be,
};
use crate::error::{ErrorView, PgsError};
use crate::pgs::payload::{
    ods_bytes, ods_parsed, pcs_bytes, pcs_parsed, pds_bytes, pds_parsed, wds_bytes, wds_parsed,
    OdsData, ParsedPayload, PcsData, PdsData, WdsData,
};

verus! {

/// The two bytes that a segment's header starts with: "PG".
pub const PGS_MAGIC: [u8; 2] = [0x50, 0x47];

/// The size of a segment's header.
pub const HEADER_SIZE: usize = 13;

/// The kind of a segment.
#[derive(Debug, Clone, Copy, PartialEq, Eq, Structural)]
pub enum SegmentType {
    /// Presentation Composition Segment (0x16)
    PresentationComposition,
    /// Window Definition Segment (0x17)
    WindowDefinition,
    /// Palette Definition Segment (0x14)
    PaletteDefinition,
    /// Object Definition Segment (0x15)
    ObjectDefinition,
    /// End of Display Set (0x80)
    EndOfDisplaySet,
}

impl SegmentType {
    /// The kind that a byte stands for.
    pub open spec fn of_byte(b: u8) -> Option<SegmentType> {
        if b == 0x16 {
            Some(SegmentType::PresentationComposition)
        } else if b == 0x17 {
            Some(SegmentType::WindowDefinition)
        } else if b == 0x14 {
            Some(SegmentType::PaletteDefinition)
        } else if b == 0x15 {
            Some(SegmentType::ObjectDefinition)
        } else if b == 0x80 {
            Some(SegmentType::EndOfDisplaySet)
        } else {
            None
        }
    }

    /// The byte that stands for a kind.
    pub open spec fn byte(self) -> u8 {
        match self {
            SegmentType::PresentationComposition => 0x16,
            SegmentType::WindowDefinition => 0x17,
            SegmentType::PaletteDefinition => 0x14,
            SegmentType::ObjectDefinition => 0x15,
            SegmentType::EndOfDisplaySet => 0x80,
        }
    }

    /// The kind that `b` stands for, if it stands for one.
    pub fn from_byte(b: u8) -> (r: Option<SegmentType>)
        ensures
            r == SegmentType::of_byte(b),
    {
        match b {
            0x16 => Some(SegmentType::PresentationComposition),
            0x17 => Some(SegmentType::WindowDefinition),
            0x14 => Some(SegmentType::PaletteDefinition),
            0x15 => Some(SegmentType::ObjectDefinition),
            0x80 => Some(SegmentType::EndOfDisplaySet),
            _ => None,
        }
    }

    /// The byte that stands for this kind.
    pub fn to_byte(self) -> (r: u8)
        ensures
            r == self.byte(),
    {
        match self {
            SegmentType::PresentationComposition => 0x16,
            SegmentType::WindowDefinition => 0x17,
            SegmentType::PaletteDefinition => 0x14,
            SegmentType::ObjectDefinition => 0x15,
            SegmentType::EndOfDisplaySet => 0x80,
        }
    }
}

/// The composition state of a composition segment.
#[derive(Debug, Clone, Copy, PartialEq, Eq, Structural)]
pub enum CompositionState {
    /// Normal update (0x00)
    Normal,
    /// Acquisition point: display refresh (0x40)
    AcquisitionPoint,
    /// Epoch start: new display (0x80)
    EpochStart,
}

impl CompositionState {
    /// The state that a byte stands for.
    pub open spec fn of_byte(b: u8) -> Option<CompositionState> {
        if b == 0x00 {
            Some(CompositionState::Normal)
        } else if b == 0x40 {
            Some(CompositionState::AcquisitionPoint)
        } else if b == 0x80 {
            Some(CompositionState::EpochStart)
        } else {
            None
        }
    }

    /// The byte that stands for a state.
    pub open spec fn byte(self) -> u8 {
        match self {
            CompositionState::Normal => 0x00,
            CompositionState::AcquisitionPoint => 0x40,
            CompositionState::EpochStart => 0x80,
        }
    }

    /// The state that `b` stands for, if it stands for one.
    pub fn from_byte(b: u8) -> (r: Option<CompositionState>)
        ensures
            r == CompositionState::of_byte(b),
    {
        match b {
            0x00 => Some(CompositionState::Normal),
            0x40 => Some(CompositionState::AcquisitionPoint),
            0x80 => Some(CompositionState::EpochStart),
            _ => None,
        }
    }

    /// The byte that stands for this state.
    pub fn to_byte(self) -> (r: u8)
        ensures
            r == self.byte(),
    {
        match self {
            CompositionState::Normal => 0x00,
            CompositionState::AcquisitionPoint => 0x40,
            CompositionState::EpochStart => 0x80,
        }
    }
}

/// A segment with its header fields and raw payload.
#[derive(Debug)]
pub struct PgsSegment {
    /// Presentation timestamp (90 kHz clock).
    pub pts: u64,
    /// Decoding timestamp (90 kHz clock, usually 0).
    pub dts: u64,
    /// The kind of the segment.
    pub segment_type: SegmentType,
    /// The payload, which follows the header.
    pub payload: Vec<u8>,
}

/// A segment as a mathematical value.
#[verifier::ext_equal]
pub struct SegmentView {
    pub pts: u64,
    pub dts: u64,
    pub segment_type: SegmentType,
    pub payload: Seq<u8>,
}

impl View for PgsSegment {
    type V = SegmentView;

    open spec fn view(&self) -> SegmentView {
        SegmentView {
            pts: self.pts,
            dts: self.dts,
            segment_type: self.segment_type,
            payload: self.payload@,
        }
    }
}

/// The views of segments.
pub open spec fn segment_views(segments: Seq<PgsSegment>) -> Seq<SegmentView> {
    Seq::new(segments.len(), |i: int| segments[i]@)
}

/// The segment that `data` starts with and the number of bytes that it takes.
pub open spec fn segment_parsed(data: Seq<u8>) -> Result<(SegmentView, nat), ErrorView> {
    if data.len() < 13 {
        Err(ErrorView::InvalidPgs("insufficient data for PGS header"@))
    } else if data[0] != 0x50 || data[1] != 0x47 {
        Err(ErrorView::InvalidPgs("invalid PGS magic bytes"@))
    } else {
        match SegmentType::of_byte(data[10]) {
            None => Err(ErrorView::InvalidPgs("unknown PGS segment type"@)),
            Some(segment_type) => {
                let size = 13 + be16(data, 11);
                if data.len() < size {
                    Err(ErrorView::InvalidPgs("insufficient data for PGS payload"@))
                } else {
                    Ok(
                        (
                            SegmentView {
                                pts: be32(data, 2) as u64,
                                dts: be32(data, 6) as u64,
                                segment_type,
                                payload: data.subrange(13, size),
                            },
                            size as nat,
                        ),
                    )
                }
            },
        }
    }
}

/// The header of a segment. The timestamps keep their low four bytes, the
/// payload size its low two.
pub open spec fn segment_head(v: SegmentView) -> Seq<u8> {
    seq![0x50u8, 0x47u8] + be32_bytes((v.pts % 0x1_0000_0000) as u32) + be32_bytes(
        (v.dts % 0x1_0000_0000) as u32,
    ) + seq![v.segment_type.byte()] + be16_bytes((v.payload.len() % 0x1_0000) as u16)
}

/// The bytes of a segment: its header and its payload.
pub open spec fn segment_bytes(v: SegmentView) -> Seq<u8> {
    segment_head(v) + v.payload
}

/// Whether a segment's fields fit in its header.
pub open spec fn segment_fits(v: SegmentView) -> bool {
    v.pts < 0x1_0000_0000 && v.dts < 0x1_0000_0000 && v.payload.len() < 0x1_0000
}

/// The segments that container data holds from `at` on. There each segment is
/// its kind, its payload's size and its payload; the timestamps are the
/// container's. Unknown kinds are passed over, and a truncated segment ends
/// the data.
pub open spec fn raw_segments_from(pts: u64, dts: u64, data: Seq<u8>, at: int) -> Seq<SegmentView>
    decreases data.len() - at,
{
    if at < 0 || at + 3 > data.len() {
        Seq::empty()
    } else {
        let end = at + 3 + be16(data, at + 1);
        if end > data.len() {
            Seq::empty()
        } else {
            let rest = raw_segments_from(pts, dts, data, end);
            match SegmentType::of_byte(data[at]) {
                Some(segment_type) => seq![
                    SegmentView { pts, dts, segment_type, payload: data.subrange(at + 3, end) },
                ] + rest,
                None => rest,
            }
        }
    }
}

/// The segments that container data holds.
pub open spec fn raw_segments(pts: u64, dts: u64, data: Seq<u8>) -> Seq<SegmentView> {
    raw_segments_from(pts, dts, data, 0)
}

/// Container data for segments: the kind, the payload's size and the payload
/// of each.
pub open spec fn raw_bytes(segments: Seq<SegmentView>) -> Seq<u8>
    decreases segments.len(),
{
    if segments.len() == 0 {
        Seq::empty()
    } else {
        let s = segments[0];
        seq![
            s.segment_type.byte(),
            (s.payload.len() / 256 % 256) as u8,
            (s.payload.len() % 256) as u8,
        ] + s.payload + raw_bytes(segments.skip(1))
    }
}

/// The state in a composition segment, if it is one and its state is known.
pub open spec fn composition_state_of(v: SegmentView) -> Option<CompositionState> {
    if v.segment_type is PresentationComposition && v.payload.len() >= 8 {
        CompositionState::of_byte(v.payload[7])
    } else {
        None
    }
}

/// Whether `payload` is what a segment's payload holds by its kind.
pub open spec fn payload_matches(v: SegmentView, payload: Option<ParsedPayload>) -> bool {
    match (v.segment_type, payload) {
        (SegmentType::PresentationComposition, Some(ParsedPayload::Pcs(d))) => pcs_parsed(v.payload)
            == Some(d@),
        (SegmentType::PresentationComposition, None) => pcs_parsed(v.payload) is None,
        (SegmentType::WindowDefinition, Some(ParsedPayload::Wds(d))) => wds_parsed(v.payload)
            == Some(d@),
        (SegmentType::WindowDefinition, None) => wds_parsed(v.payload) is None,
        (SegmentType::PaletteDefinition, Some(ParsedPayload::Pds(d))) => pds_parsed(v.payload)
            == Some(d@),
        (SegmentType::PaletteDefinition, None) => pds_parsed(v.payload) is None,
        (SegmentType::ObjectDefinition, Some(ParsedPayload::Ods(d))) => ods_parsed(v.payload)
            == Some(d@),
        (SegmentType::ObjectDefinition, None) => ods_parsed(v.payload) is None,
        (SegmentType::EndOfDisplaySet, Some(ParsedPayload::End)) => true,
        _ => false,
    }
}

impl Clone for PgsSegment {
    fn clone(&self) -> (r: Self)
        ensures
            r@ == self@,
    {
        PgsSegment {
            pts: self.pts,
            dts: self.dts,
            segment_type: self.segment_type,
            payload: self.payload.clone(),
        }
    }
}

impl PgsSegment {
    /// Parses the segment that `data` starts with. Returns the segment and the
    /// number of bytes that it takes.
    pub fn parse(data: &[u8]) -> (r: Result<(PgsSegment, usize), PgsError>)
        ensures
            match (r, segment_parsed(data@)) {
                (Ok((seg, n)), Ok((v, size))) => seg@ == v && n == size,
                (Err(e), Err(v)) => e@ == v,
                _ => false,
            },
    {
        if data.len() < HEADER_SIZE {
            return Err(PgsError::InvalidPgs("insufficient data for PGS header".to_owned()));
        }
        if data[0] != PGS_MAGIC[0] || data[1] != PGS_MAGIC[1] {
            return Err(PgsError::InvalidPgs("invalid PGS magic bytes".to_owned()));
        }
        let segment_type = match SegmentType::from_byte(data[10]) {
            Some(t) => t,
            None => {
                return Err(PgsError::InvalidPgs("unknown PGS segment type".to_owned()));
            },
        };
        let total_size: usize = HEADER_SIZE + u16_be(data, 11) as usize;
        if data.len() < total_size {
            return Err(PgsError::InvalidPgs("insufficient data for PGS payload".to_owned()));
        }
        let seg = PgsSegment {
            pts: u32_be(data, 2) as u64,
            dts: u32_be(data, 6) as u64,
            segment_type,
            payload: copy_range(data, HEADER_SIZE, total_size),
        };
        Ok((seg, total_size))
    }

    /// Appends this segment's header and payload.
    pub fn write_to(&self, buf: &mut Vec<u8>)
        ensures
            final(buf)@ == old(buf)@ + segment_bytes(self@),
    {
        let ghost before = buf@;
        buf.push(PGS_MAGIC[0]);
        buf.push(PGS_MAGIC[1]);
        push_u32_be(buf, (self.pts % 0x1_0000_0000) as u32);
        push_u32_be(buf, (self.dts % 0x1_0000_0000) as u32);
        buf.push(self.segment_type.to_byte());
        push_u16_be(buf, (self.payload.len() % 0x1_0000) as u16);
        assert(buf@ =~= before + segment_head(self@));
        push_range(buf, self.payload.as_slice(), 0, self.payload.len());
        assert(self.payload@.subrange(0, self.payload@.len() as int) =~= self.payload@);
        assert(buf@ =~= before + segment_bytes(self@));
    }

    /// Writes this segment's header and payload.
    pub fn to_bytes(&self) -> (r: Vec<u8>)
        ensures
            r@ == segment_bytes(self@),
    {
        let mut buf: Vec<u8> = Vec::new();
        self.write_to(&mut buf);
        assert(buf@ =~= segment_bytes(self@));
        buf
    }

    /// Parses the segments of a container block, whose headers hold only the
    /// kind and the payload's size.
    pub fn parse_raw_segments(pts: u64, dts: u64, data: &[u8]) -> (r: Vec<PgsSegment>)
        ensures
            segment_views(r@) == raw_segments(pts, dts, data@),
    {
        let mut segments: Vec<PgsSegment> = Vec::new();
        let mut offset: usize = 0;
        let ghost goal = raw_segments(pts, dts, data@);
        assert(segment_views(segments@) + goal =~= goal);
        while data.len() - offset >= 3
            invariant
                offset <= data@.len(),
                goal == segment_views(segments@) + raw_segments_from(
                    pts,
                    dts,
                    data@,
                    offset as int,
                ),
            ensures
                raw_segments_from(pts, dts, data@, offset as int).len() == 0,
            decreases data@.len() - offset,
        {
            let seg_len: usize = u16_be(data, offset + 1) as usize;
            if data.len() - offset - 3 < seg_len {
                break;
            }
            let end: usize = offset + 3 + seg_len;
            let ghost before = segment_views(segments@);
            if let Some(segment_type) = SegmentType::from_byte(data[offset]) {
                segments.push(
                    PgsSegment {
                        pts,
                        dts,
                        segment_type,
                        payload: copy_range(data, offset + 3, end),
                    },
                );
                proof {
                    let seg = segments@.last()@;
                    let rest = raw_segments_from(pts, dts, data@, end as int);
                    assert(segment_views(segments@) =~= before + seq![seg]);
                    assert(before + (seq![seg] + rest) =~= segment_views(segments@) + rest);
                }
            }
            offset = end;
        }
        assert(goal =~= segment_views(segments@));
        segments
    }

    /// The composition state, if this is a composition segment.
    pub fn composition_state(&self) -> (r: Option<CompositionState>)
        ensures
            r == composition_state_of(self@),
    {
        if self.segment_type != SegmentType::PresentationComposition {
            return None;
        }
        if self.payload.len() < 8 {
            return None;
        }
        CompositionState::from_byte(self.payload[7])
    }

    /// Parses this segment's payload by the segment's kind. Returns `None` if
    /// the payload is malformed.
    pub fn parse_payload(&self) -> (r: Option<ParsedPayload>)
        ensures
            payload_matches(self@, r),
    {
        match self.segment_type {
            SegmentType::PresentationComposition => match PcsData::parse(self.payload.as_slice()) {
                Some(d) => Some(ParsedPayload::Pcs(d)),
                None => None,
            },
            SegmentType::WindowDefinition => match WdsData::parse(self.payload.as_slice()) {
                Some(d) => Some(ParsedPayload::Wds(d)),
                None => None,
            },
            SegmentType::PaletteDefinition => match PdsData::parse(self.payload.as_slice()) {
                Some(d) => Some(ParsedPayload::Pds(d)),
                None => None,
            },
            SegmentType::ObjectDefinition => match OdsData::parse(self.payload.as_slice()) {
                Some(d) => Some(ParsedPayload::Ods(d)),
                None => None,
            },
            SegmentType::EndOfDisplaySet => Some(ParsedPayload::End),
        }
    }

    /// Parses a composition payload. Returns `None` if this is another kind of
    /// segment or malformed.
    pub fn parse_pcs(&self) -> (r: Option<PcsData>)
        ensures
            r is Some <==> self.segment_type is PresentationComposition && pcs_parsed(
                self.payload@,
            ) is Some,
            r matches Some(d) ==> pcs_parsed(self.payload@) == Some(d@),
    {
        if self.segment_type != SegmentType::PresentationComposition {
            return None;
        }
        PcsData::parse(self.payload.as_slice())
    }

    /// Parses a window payload. Returns `None` if this is another kind of
    /// segment or malformed.
    pub fn parse_wds(&self) -> (r: Option<WdsData>)
        ensures
            r is Some <==> self.segment_type is WindowDefinition && wds_parsed(
                self.payload@,
            ) is Some,
            r matches Some(d) ==> wds_parsed(self.payload@) == Some(d@),
    {
        if self.segment_type != SegmentType::WindowDefinition {
            return None;
        }
        WdsData::parse(self.payload.as_slice())
    }

    /// Parses a palette payload. Returns `None` if this is another kind of
    /// segment or malformed.
    pub fn parse_pds(&self) -> (r: Option<PdsData>)
        ensures
            r is Some <==> self.segment_type is PaletteDefinition && pds_parsed(
                self.payload@,
            ) is Some,
            r matches Some(d) ==> pds_parsed(self.payload@) == Some(d@),
    {
        if self.segment_type != SegmentType::PaletteDefinition {
            return None;
        }
        PdsData::parse(self.payload.as_slice())
    }

    /// Parses an object payload. Returns `None` if this is another kind of
    /// segment or malformed.
    pub fn parse_ods(&self) -> (r: Option<OdsData>)
        ensures
            r is Some <==> self.segment_type is ObjectDefinition && ods_parsed(
                self.payload@,
            ) is Some,
            r matches Some(d) ==> ods_parsed(self.payload@) == Some(d@),
    {
        if self.segment_type != SegmentType::ObjectDefinition {
            return None;
        }
        OdsData::parse(self.payload.as_slice())
    }

    /// A composition segment.
    pub fn from_pcs(pts: u64, dts: u64, pcs: &PcsData) -> (r: Self)
        ensures
            r@ == (SegmentView {
                pts,
                dts,
                segment_type: SegmentType::PresentationComposition,
                payload: pcs_bytes(pcs@),
            }),
    {
        PgsSegment {
            pts,
            dts,
            segment_type: SegmentType::PresentationComposition,
            payload: pcs.to_bytes(),
        }
    }

    /// A window segment.
    pub fn from_wds(pts: u64, dts: u64, wds: &WdsData) -> (r: Self)
        ensures
            r@ == (SegmentView {
                pts,
                dts,
                segment_type: SegmentType::WindowDefinition,
                payload: wds_bytes(wds@),
            }),
    {
        PgsSegment { pts, dts, segment_type: SegmentType::WindowDefinition, payload: wds.to_bytes() }
    }

    /// A palette segment.
    pub fn from_pds(pts: u64, dts: u64, pds: &PdsData) -> (r: Self)
        ensures
            r@ == (SegmentView {
                pts,
                dts,
                segment_type: SegmentType::PaletteDefinition,
                payload: pds_bytes(pds@),
            }),
    {
        PgsSegment { pts, dts, segment_type: SegmentType::PaletteDefinition, payload: pds.to_bytes() }
    }

    /// An object segment.
    pub fn from_ods(pts: u64, dts: u64, ods: &OdsData) -> (r: Self)
        ensures
            r@ == (SegmentView {
                pts,
                dts,
                segment_type: SegmentType::ObjectDefinition,
                payload: ods_bytes(ods@),
            }),
    {
        PgsSegment { pts, dts, segment_type: SegmentType::ObjectDefinition, payload: ods.to_bytes() }
    }

    /// An end segment.
    pub fn end_segment(pts: u64, dts: u64) -> (r: Self)
        ensures
            r@ == (SegmentView {
                pts,
                dts,
                segment_type: SegmentType::EndOfDisplaySet,
                payload: Seq::empty(),
            }),
    {
        PgsSegment { pts, dts, segment_type: SegmentType::EndOfDisplaySet, payload: Vec::new() }
    }

    /// Replaces the payload of a composition segment.
    pub fn set_pcs_payload(&mut self, pcs: &PcsData)
        requires
            old(self).segment_type is PresentationComposition,
        ensures
            final(self)@ == (SegmentView { payload: pcs_bytes(pcs@), ..old(self)@ }),
    {
        self.payload = pcs.to_bytes();
    }

    /// Replaces the payload of a window segment.
    pub fn set_wds_payload(&mut self, wds: &WdsData)
        requires
            old(self).segment_type is WindowDefinition,
        ensures
            final(self)@ == (SegmentView { payload: wds_bytes(wds@), ..old(self)@ }),
    {
        self.payload = wds.to_bytes();
    }

    /// Replaces the payload of a palette segment.
    pub fn set_pds_payload(&mut self, pds: &PdsData)
        requires
            old(self).segment_type is PaletteDefinition,
        ensures
            final(self)@ == (SegmentView { payload: pds_bytes(pds@), ..old(self)@ }),
    {
        self.payload = pds.to_bytes();
    }

    /// Replaces the payload of an object segment.
    pub fn set_ods_payload(&mut self, ods: &OdsData)
        requires
            old(self).segment_type is ObjectDefinition,
        ensures
            final(self)@ == (SegmentView { payload: ods_bytes(ods@), ..old(self)@ }),
    {
        self.payload = ods.to_bytes();
    }
}

/// A byte that stands for a kind of segment is that kind's byte, and each kind
/// has its own.
pub proof fn segment_type_bytes(t: SegmentType, b: u8)
    ensures
        SegmentType::of_byte(t.byte()) == Some(t),
        SegmentType::of_byte(b) matches Some(u) ==> u.byte() == b,
{
}

/// A byte that stands for a composition state is that state's byte, and each
/// state has its own.
pub proof fn composition_state_bytes(c: CompositionState, b: u8)
    ensures
        CompositionState::of_byte(c.byte()) == Some(c),
        CompositionState::of_byte(b) matches Some(d) ==> d.byte() == b,
{
}

/// A written segment is parsed back unchanged, whatever follows it, if its
/// fields fit in the header.
pub proof fn segment_parse_of_bytes(v: SegmentView, rest: Seq<u8>)
    requires
        segment_fits(v),
    ensures
        segment_parsed(segment_bytes(v) + rest) == Ok::<(SegmentView, nat), ErrorView>(
            (v, segment_bytes(v).len()),
        ),
{
    let h = segment_head(v);
    let data = segment_bytes(v) + rest;
    assert(h.len() == 13);
    assert(data[0] == 0x50 && data[1] == 0x47 && data[10] == v.segment_type.byte());
    assert(data.subrange(2, 6) =~= be32_bytes((v.pts % 0x1_0000_0000) as u32));
    assert(data.subrange(6, 10) =~= be32_bytes((v.dts % 0x1_0000_0000) as u32));
    assert(data.subrange(11, 13) =~= be16_bytes((v.payload.len() % 0x1_0000) as u16));
    lemma_be32(data, 2, (v.pts % 0x1_0000_0000) as u32);
    lemma_be32(data, 6, (v.dts % 0x1_0000_0000) as u32);
    lemma_be16(data, 11, (v.payload.len() % 0x1_0000) as u16);
    assert(data.subrange(13, 13 + v.payload.len() as int) =~= v.payload);
}

/// A parsed segment is written back as the bytes that it was parsed from.
pub proof fn segment_bytes_of_parse(data: Seq<u8>)
    requires
        segment_parsed(data) is Ok,
    ensures
        segment_fits(segment_parsed(data)->Ok_0.0),
        segment_bytes(segment_parsed(data)->Ok_0.0) == data.take(
            segment_parsed(data)->Ok_0.1 as int,
        ),
{
    let (v, n) = segment_parsed(data)->Ok_0;
    let pts = be32(data, 2);
    let dts = be32(data, 6);
    let size = be16(data, 11);
    lemma_be32(data, 2, pts);
    lemma_be32(data, 6, dts);
    lemma_be16(data, 11, size);
    lemma_head_of_parts(data, v, pts, dts, size);
    assert(data.take(13) + data.subrange(13, n as int) =~= data.take(n as int));
}

proof fn lemma_head_of_parts(data: Seq<u8>, v: SegmentView, pts: u32, dts: u32, size: u16)
    requires
        data.len() >= 13,
        data[0] == 0x50,
        data[1] == 0x47,
        data[10] == v.segment_type.byte(),
        v.pts == pts,
        v.dts == dts,
        v.payload.len() == size,
        data.subrange(2, 6) == be32_bytes(pts),
        data.subrange(6, 10) == be32_bytes(dts),
        data.subrange(11, 13) == be16_bytes(size),
    ensures
        segment_head(v) == data.take(13),
{
    let magic = seq![0x50u8, 0x47u8];
    let kind = seq![v.segment_type.byte()];
    assert((v.pts % 0x1_0000_0000) as u32 == pts);
    assert((v.dts % 0x1_0000_0000) as u32 == dts);
    assert((v.payload.len() % 0x1_0000) as u16 == size);
    assert(data.subrange(0, 2) =~= magic);
    assert(data.subrange(10, 11) =~= kind);
    let parts = magic + data.subrange(2, 6) + data.subrange(6, 10) + kind + data.subrange(11, 13);
    assert(segment_head(v) == parts);
    assert(data.take(13) =~= parts);
}

proof fn lemma_raw_of_bytes(pts: u64, dts: u64, segments: Seq<SegmentView>, data: Seq<u8>, at: int)
    requires
        0 <= at <= data.len(),
        data.skip(at) == raw_bytes(segments),
        forall|i: int|
            0 <= i < segments.len() ==> (#[trigger] segments[i]).pts == pts && segments[i].dts
                == dts && segments[i].payload.len() < 0x1_0000,
    ensures
        raw_segments_from(pts, dts, data, at) == segments,
    decreases segments.len(),
{
    if segments.len() == 0 {
        assert(data.skip(at).len() == 0);
        assert(segments =~= Seq::<SegmentView>::empty());
    } else {
        let s = segments[0];
        let d = data.skip(at);
        let n = s.payload.len() as int;
        let end = at + 3 + n;
        assert(d.len() == data.len() - at);
        assert(d[0] == data[at] && d[1] == data[at + 1] && d[2] == data[at + 2]);
        assert(be16(data, at + 1) == s.payload.len());
        assert(data.subrange(at + 3, end) =~= d.subrange(3, 3 + n));
        assert(d.subrange(3, 3 + n) =~= s.payload);
        assert(data.skip(end) =~= d.skip(3 + n));
        assert(d.skip(3 + n) =~= raw_bytes(segments.skip(1)));
        segment_type_bytes(s.segment_type, 0);
        lemma_raw_of_bytes(pts, dts, segments.skip(1), data, end);
        assert(seq![s] + segments.skip(1) =~= segments);
    }
}

/// Segments of one timestamp that are written as container data are parsed
/// back unchanged, if their payloads fit.
pub proof fn raw_parse_of_bytes(pts: u64, dts: u64, segments: Seq<SegmentView>)
    requires
        forall|i: int|
            0 <= i < segments.len() ==> (#[trigger] segments[i]).pts == pts && segments[i].dts
                == dts && segments[i].payload.len() < 0x1_0000,
    ensures
        raw_segments(pts, dts, raw_bytes(segments)) == segments,
{
    assert(raw_bytes(segments).skip(0) =~= raw_bytes(segments));
    lemma_raw_of_bytes(pts, dts, segments, raw_bytes(segments), 0);
}

} // verus!
