//! Packetized elementary streams.
use vstd::prelude::*;
use crate::bytes::push_range;
use crate::pgs::segment::{raw_segments, segment_views, PgsSegment, SegmentView};

verus! {

/// The timestamp of 33 bits that the five bytes at `i` spell, with marker bits
/// in between.
pub open spec fn timestamp_at(b: Seq<u8>, i: int) -> u64 {
    (b[i] / 2 % 8 * 0x4000_0000 + b[i + 1] * 0x40_0000 + b[i + 2] / 2 * 0x8000 + b[i + 3] * 0x80
        + b[i + 4] / 2) as u64
}

/// The segments in a complete packet of an elementary stream. A packet that does
/// not start like one, or whose header is not there as a whole, has none. The
/// timestamps are those of the packet's header, or 0.
pub open spec fn pes_segments(b: Seq<u8>) -> Seq<SegmentView> {
    if b.len() < 9 || b[0] != 0 || b[1] != 0 || b[2] != 1 || 9 + b[8] > b.len() {
        Seq::empty()
    } else {
        let flags = b[7] / 64;
        let pts = if flags >= 2 && b[8] >= 5 {
            timestamp_at(b, 9)
        } else {
            0
        };
        let dts = if flags == 3 && b[8] >= 10 {
            timestamp_at(b, 14)
        } else {
            0
        };
        raw_segments(pts, dts, b.skip(9 + b[8]))
    }
}

/// The presentation timestamp at the start of a packet of an elementary stream, if
/// its header has one.
pub open spec fn pes_time(b: Seq<u8>) -> Option<u64> {
    if b.len() >= 14 && b[0] == 0 && b[1] == 0 && b[2] == 1 && b[6] / 64 == 2 && b[7] / 64 >= 2
        && b[8] >= 5 {
        Some(timestamp_at(b, 9))
    } else {
        None
    }
}

/// The presentation timestamp at the start of a packet of an elementary stream.
pub fn time_of_pes(data: &[u8]) -> (r: Option<u64>)
    ensures
        r == pes_time(data@),
{
    if data.len() >= 14 && data[0] == 0 && data[1] == 0 && data[2] == 1 && data[6] / 64 == 2
        && data[7] / 64 >= 2 && data[8] >= 5 {
        Some(parse_timestamp_at(data, 9))
    } else {
        None
    }
}

/// Reassembles the elementary stream packets of one packet identifier.
pub struct PesReassembler {
    buffer: Vec<u8>,
    has_data: bool,
}

impl View for PesReassembler {
    type V = Option<Seq<u8>>;

    /// What has been collected of a packet, if one has started.
    closed spec fn view(&self) -> Option<Seq<u8>> {
        if self.has_data {
            Some(self.buffer@)
        } else {
            None
        }
    }
}

/// What a payload makes of a packet that has been started, if any. With a unit
/// start it starts a packet, otherwise it goes on with one.
pub open spec fn pes_pushed(p: Option<Seq<u8>>, pusi: bool, payload: Seq<u8>) -> Option<Seq<u8>> {
    if pusi {
        Some(payload)
    } else {
        match p {
            Some(b) => Some(b + payload),
            None => None,
        }
    }
}

/// The segments of a packet that has been started, if any.
pub open spec fn pes_emitted(p: Option<Seq<u8>>) -> Seq<SegmentView> {
    match p {
        Some(b) => pes_segments(b),
        None => Seq::empty(),
    }
}

impl PesReassembler {
    /// A reassembler that has seen nothing.
    pub fn new() -> (r: Self)
        ensures
            r@ is None,
    {
        PesReassembler { buffer: Vec::new(), has_data: false }
    }

    /// Adds a payload. Where a unit starts, the packet before it is complete and
    /// its segments are returned.
    pub fn push(&mut self, pusi: bool, payload: &[u8]) -> (r: Vec<PgsSegment>)
        ensures
            final(self)@ == pes_pushed(old(self)@, pusi, payload@),
            segment_views(r@) == if pusi {
                pes_emitted(old(self)@)
            } else {
                Seq::empty()
            },
    {
        let mut result: Vec<PgsSegment> = Vec::new();
        assert(segment_views(result@) =~= Seq::<SegmentView>::empty());
        if pusi {
            if self.has_data {
                result = self.emit();
            }
            self.buffer = Vec::new();
            self.has_data = true;
        }
        if self.has_data {
            let ghost before = self.buffer@;
            push_range(&mut self.buffer, payload, 0, payload.len());
            assert(self.buffer@ =~= before + payload@);
            assert(pusi ==> self.buffer@ =~= payload@);
        }
        result
    }

    /// Takes the segments of what has been collected.
    pub fn flush(&mut self) -> (r: Vec<PgsSegment>)
        ensures
            final(self)@ is None,
            segment_views(r@) == pes_emitted(old(self)@),
    {
        if self.has_data {
            self.emit()
        } else {
            let none: Vec<PgsSegment> = Vec::new();
            assert(segment_views(none@) =~= Seq::<SegmentView>::empty());
            none
        }
    }

    fn emit(&mut self) -> (r: Vec<PgsSegment>)
        requires
            old(self)@ is Some,
        ensures
            final(self)@ is None,
            segment_views(r@) == pes_emitted(old(self)@),
    {
        let segments = parse_pes_for_pgs(self.buffer.as_slice());
        self.buffer = Vec::new();
        self.has_data = false;
        segments
    }
}

/// Parses a complete packet and returns the segments in it.
pub fn parse_pes_for_pgs(data: &[u8]) -> (r: Vec<PgsSegment>)
    ensures
        segment_views(r@) == pes_segments(data@),
{
    let none: Vec<PgsSegment> = Vec::new();
    assert(segment_views(none@) =~= Seq::<SegmentView>::empty());
    if data.len() < 9 {
        return none;
    }
    if data[0] != 0x00 || data[1] != 0x00 || data[2] != 0x01 {
        return none;
    }
    let flags: u8 = data[7] / 64;
    let header_length: usize = data[8] as usize;
    if data.len() - 9 < header_length {
        return none;
    }
    let pts: u64 = if flags >= 2 && header_length >= 5 {
        parse_timestamp_at(data, 9)
    } else {
        0
    };
    let dts: u64 = if flags == 3 && header_length >= 10 {
        parse_timestamp_at(data, 14)
    } else {
        0
    };
    let payload = vstd::slice::slice_subrange(data, 9 + header_length, data.len());
    assert(payload@ =~= data@.skip(9 + header_length));
    PgsSegment::parse_raw_segments(pts, dts, payload)
}

fn parse_timestamp_at(data: &[u8], i: usize) -> (r: u64)
    requires
        i + 5 <= data@.len(),
    ensures
        r == timestamp_at(data@, i as int),
        r < 0x2_0000_0000,
{
    let len: usize = data.len();
    let a: u64 = (data[i] / 2 % 8) as u64;
    let b: u64 = data[i + 1] as u64;
    let c: u64 = (data[i + 2] / 2) as u64;
    let d: u64 = data[i + 3] as u64;
    let e: u64 = (data[i + 4] / 2) as u64;
    a * 0x4000_0000 + b * 0x40_0000 + c * 0x8000 + d * 0x80 + e
}

/// Parses a timestamp of 33 bits from its five bytes.
pub fn parse_timestamp(bytes: &[u8]) -> (r: u64)
    requires
        bytes@.len() >= 5,
    ensures
        r == timestamp_at(bytes@, 0),
        r < 0x2_0000_0000,
{
    parse_timestamp_at(bytes, 0)
}

/// How a packet is split over payloads makes no difference to what is
/// collected, nor to the segments that come of it.
pub proof fn splitting_makes_no_difference(
    p: Option<Seq<u8>>,
    pusi: bool,
    first: Seq<u8>,
    second: Seq<u8>,
)
    ensures
        pes_pushed(pes_pushed(p, pusi, first), false, second) == pes_pushed(
            p,
            pusi,
            first + second,
        ),
{
    if !pusi && p is Some {
        assert(p->0 + first + second =~= p->0 + (first + second));
    }
}

/// The five bytes of a timestamp, with marker bits in between.
pub open spec fn timestamp_bytes(t: u64) -> Seq<u8> {
    seq![
        (0x21 + t / 0x4000_0000 % 8 * 2) as u8,
        (t / 0x40_0000 % 256) as u8,
        (t / 0x8000 % 128 * 2 + 1) as u8,
        (t / 0x80 % 256) as u8,
        (t % 128 * 2 + 1) as u8,
    ]
}

/// A timestamp of 33 bits is parsed back from its bytes unchanged.
pub proof fn timestamp_of_bytes(t: u64)
    requires
        t < 0x2_0000_0000,
    ensures
        timestamp_at(timestamp_bytes(t), 0) == t,
{
    let b = timestamp_bytes(t);
    let a0 = t / 0x4000_0000 % 8;
    let b0 = t / 0x40_0000 % 256;
    let c0 = t / 0x8000 % 128;
    let d0 = t / 0x80 % 256;
    let e0 = t % 128;
    assert(b[0] / 2 % 8 == a0);
    assert(b[2] / 2 == c0);
    assert(b[4] / 2 == e0);
    assert(t == a0 * 0x4000_0000 + b0 * 0x40_0000 + c0 * 0x8000 + d0 * 0x80 + e0) by {
        assert(t / 0x80 == t / 0x8000 * 256 + d0);
        assert(t / 0x8000 == t / 0x40_0000 * 128 + c0);
        assert(t / 0x40_0000 == t / 0x4000_0000 * 256 + b0);
    }
}

} // verus!
