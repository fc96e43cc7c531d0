//! Elementary stream packets and transport packets as they are written.
use vstd::prelude::*;
use crate::m2ts::pes::{pes_segments, pes_time, timestamp_at};
use crate::m2ts::ts_packet::payload_of;
use crate::pgs::segment::{
    raw_bytes, raw_parse_of_bytes, raw_segments, raw_segments_from, SegmentView,
};

verus! {

/// The five bytes of a timestamp of 33 bits, behind four bits that say which one
/// it is. A one bit stands behind each part.
pub open spec fn stamp_bytes(mark: u8, t: u64) -> Seq<u8> {
    seq![
        (mark * 16 + t / 0x4000_0000 % 8 * 2 + 1) as u8,
        (t / 0x40_0000 % 256) as u8,
        (t / 0x8000 % 128 * 2 + 1) as u8,
        (t / 0x80 % 256) as u8,
        (t % 128 * 2 + 1) as u8,
    ]
}

/// The timestamps of a packet.
pub enum Stamps {
    Absent,
    Presentation(u64),
    /// The time of presentation and that of decoding.
    Both(u64, u64),
}

/// Whether a packet can have timestamps.
pub open spec fn stamps_fit(s: Stamps) -> bool {
    match s {
        Stamps::Absent => true,
        Stamps::Presentation(pts) => pts < 0x2_0000_0000,
        Stamps::Both(pts, dts) => pts < 0x2_0000_0000 && dts < 0x2_0000_0000,
    }
}

/// Timestamps as they are written: that of presentation first.
pub open spec fn stamps_bytes(s: Stamps) -> Seq<u8> {
    match s {
        Stamps::Absent => Seq::empty(),
        Stamps::Presentation(pts) => stamp_bytes(2, pts),
        Stamps::Both(pts, dts) => stamp_bytes(3, pts) + stamp_bytes(1, dts),
    }
}

/// The two bits that say which timestamps there are.
pub open spec fn stamps_flags(s: Stamps) -> u8 {
    match s {
        Stamps::Absent => 0,
        Stamps::Presentation(_) => 2,
        Stamps::Both(_, _) => 3,
    }
}

/// An elementary stream packet: its stream and length, six bits of flags in the
/// byte behind the timestamps' flags, timestamps, other fields, and its payload.
pub open spec fn pes_bytes(
    stream: u8,
    length: (u8, u8),
    bits: (u8, u8),
    stamps: Stamps,
    fields: Seq<u8>,
    payload: Seq<u8>,
) -> Seq<u8> {
    seq![
        0u8,
        0u8,
        1u8,
        stream,
        length.0,
        length.1,
        (0x80 + bits.0 % 64) as u8,
        (stamps_flags(stamps) * 64 + bits.1 % 64) as u8,
        (stamps_bytes(stamps).len() + fields.len()) as u8,
    ] + stamps_bytes(stamps) + fields + payload
}

/// The time of presentation of a packet, 0 if it has none.
pub open spec fn presentation(s: Stamps) -> u64 {
    match s {
        Stamps::Absent => 0,
        Stamps::Presentation(pts) => pts,
        Stamps::Both(pts, _) => pts,
    }
}

/// The time of decoding of a packet, 0 if it has none.
pub open spec fn decoding(s: Stamps) -> u64 {
    match s {
        Stamps::Both(_, dts) => dts,
        _ => 0,
    }
}

proof fn lemma_stamp(b: Seq<u8>, i: int, mark: u8, t: u64)
    requires
        0 <= i,
        i + 5 <= b.len(),
        b.subrange(i, i + 5) == stamp_bytes(mark, t),
        mark < 16,
        t < 0x2_0000_0000,
    ensures
        timestamp_at(b, i) == t,
{
    let w = stamp_bytes(mark, t);
    let c = b.subrange(i, i + 5);
    assert(b[i] == c[0] && b[i + 1] == c[1] && b[i + 2] == c[2] && b[i + 3] == c[3] && b[i + 4]
        == c[4]);
    let a0 = t / 0x4000_0000 % 8;
    let b0 = t / 0x40_0000 % 256;
    let c0 = t / 0x8000 % 128;
    let d0 = t / 0x80 % 256;
    let e0 = t % 128;
    assert(w[0] == mark * 16 + a0 * 2 + 1);
    assert(w[0] / 2 % 8 == a0);
    assert(w[2] / 2 == c0);
    assert(w[4] / 2 == e0);
    assert(t == a0 * 0x4000_0000 + b0 * 0x40_0000 + c0 * 0x8000 + d0 * 0x80 + e0) by {
        assert(t / 0x80 == t / 0x8000 * 256 + d0);
        assert(t / 0x8000 == t / 0x40_0000 * 128 + c0);
        assert(t / 0x40_0000 == t / 0x4000_0000 * 256 + b0);
    }
}

/// A packet that is written from segments is read back: the segments, with the
/// time of presentation and that of decoding of the packet.
pub proof fn written_pes_is_read(
    stream: u8,
    length: (u8, u8),
    bits: (u8, u8),
    stamps: Stamps,
    fields: Seq<u8>,
    segments: Seq<SegmentView>,
)
    requires
        stamps_fit(stamps),
        stamps_bytes(stamps).len() + fields.len() <= 255,
        forall|i: int|
            0 <= i < segments.len() ==> (#[trigger] segments[i]).pts == presentation(stamps)
                && segments[i].dts == decoding(stamps) && segments[i].payload.len() < 0x1_0000,
    ensures
        pes_segments(pes_bytes(stream, length, bits, stamps, fields, raw_bytes(segments)))
            == segments,
{
    let payload = raw_bytes(segments);
    let b = pes_bytes(stream, length, bits, stamps, fields, payload);
    let n = stamps_bytes(stamps).len() + fields.len();
    assert(b[8] == n);
    assert(b[7] / 64 == stamps_flags(stamps));
    assert(b.skip(9 + b[8]) =~= payload);
    match stamps {
        Stamps::Absent => {
            assert(b[7] / 64 == 0);
        },
        Stamps::Presentation(pts) => {
            assert(b.subrange(9, 14) =~= stamp_bytes(2, pts));
            lemma_stamp(b, 9, 2, pts);
        },
        Stamps::Both(pts, dts) => {
            assert(b.subrange(9, 14) =~= stamp_bytes(3, pts));
            assert(b.subrange(14, 19) =~= stamp_bytes(1, dts));
            lemma_stamp(b, 9, 3, pts);
            lemma_stamp(b, 14, 1, dts);
        },
    }
    raw_parse_of_bytes(presentation(stamps), decoding(stamps), segments);
}

/// A probe finds the time of presentation of a packet that is written with one.
pub proof fn written_pes_has_its_time(
    stream: u8,
    length: (u8, u8),
    bits: (u8, u8),
    stamps: Stamps,
    fields: Seq<u8>,
    payload: Seq<u8>,
)
    requires
        stamps_fit(stamps),
        stamps_bytes(stamps).len() + fields.len() <= 255,
    ensures
        pes_time(pes_bytes(stream, length, bits, stamps, fields, payload)) == match stamps {
            Stamps::Absent => None,
            Stamps::Presentation(pts) => Some(pts),
            Stamps::Both(pts, _) => Some(pts),
        },
{
    let b = pes_bytes(stream, length, bits, stamps, fields, payload);
    assert(b[8] == stamps_bytes(stamps).len() + fields.len());
    assert(b[7] / 64 == stamps_flags(stamps));
    assert(b[6] / 64 == 2);
    match stamps {
        Stamps::Absent => {},
        Stamps::Presentation(pts) => {
            assert(b.subrange(9, 14) =~= stamp_bytes(2, pts));
            lemma_stamp(b, 9, 2, pts);
        },
        Stamps::Both(pts, dts) => {
            assert(b.subrange(9, 14) =~= stamp_bytes(3, pts));
            lemma_stamp(b, 9, 3, pts);
        },
    }
}

proof fn lemma_raw_times(pts: u64, dts: u64, data: Seq<u8>, at: int)
    ensures
        forall|i: int|
            0 <= i < raw_segments_from(pts, dts, data, at).len() ==> (
            #[trigger] raw_segments_from(pts, dts, data, at)[i]).pts == pts
                && raw_segments_from(pts, dts, data, at)[i].dts == dts,
    decreases data.len() - at,
{
    if 0 <= at && at + 3 <= data.len() {
        let end = at + 3 + crate::bytes::be16(data, at + 1);
        if end <= data.len() {
            lemma_raw_times(pts, dts, data, end);
        }
    }
}

/// Where a packet has a time of presentation, it is that of all its segments,
/// and all of them have the same time of decoding.
pub proof fn segments_have_the_time_of_their_packet(b: Seq<u8>, i: int)
    requires
        0 <= i < pes_segments(b).len(),
    ensures
        pes_time(b) matches Some(t) ==> pes_segments(b)[i].pts == t,
        pes_segments(b)[i].pts == pes_segments(b)[0].pts,
        pes_segments(b)[i].dts == pes_segments(b)[0].dts,
{
    let flags = b[7] / 64;
    let pts = if flags >= 2 && b[8] >= 5 {
        timestamp_at(b, 9)
    } else {
        0
    };
    let dts = if flags == 3 && b[8] >= 10 {
        timestamp_at(b, 14)
    } else {
        0
    };
    let data = b.skip(9 + b[8]);
    lemma_raw_times(pts, dts, data, 0);
    let all = raw_segments(pts, dts, data);
    assert(all == pes_segments(b));
    assert(all[i].pts == pts && all[0].pts == pts);
}

/// A transport packet: three bits of flags, of which the second says that a unit
/// starts, its identifier, two bits on scrambling, a counter, an adaptation field
/// if there is one, and its payload if there is one.
pub open spec fn ts_bytes(
    error: bool,
    pusi: bool,
    priority: bool,
    pid: u16,
    scrambling: u8,
    counter: u8,
    adaptation: Option<Seq<u8>>,
    payload: Option<Seq<u8>>,
) -> Seq<u8> {
    seq![
        0x47u8,
        ((if error {
            128int
        } else {
            0
        }) + (if pusi {
            64int
        } else {
            0
        }) + (if priority {
            32int
        } else {
            0
        }) + pid / 256) as u8,
        (pid % 256) as u8,
        (scrambling % 4 * 64 + (if adaptation is Some {
            32int
        } else {
            0
        }) + (if payload is Some {
            16int
        } else {
            0
        }) + counter % 16) as u8,
    ] + match adaptation {
        Some(field) => seq![field.len() as u8] + field,
        None => Seq::empty(),
    } + match payload {
        Some(data) => data,
        None => Seq::empty(),
    }
}

/// A transport packet that is written is read back: whether a unit starts in it,
/// its identifier, its counter, and its payload behind the adaptation field.
pub proof fn written_packet_is_read(
    error: bool,
    pusi: bool,
    priority: bool,
    pid: u16,
    scrambling: u8,
    counter: u8,
    adaptation: Option<Seq<u8>>,
    payload: Option<Seq<u8>>,
)
    requires
        pid < 0x2000,
        ts_bytes(error, pusi, priority, pid, scrambling, counter, adaptation, payload).len() == 188,
        adaptation matches Some(field) ==> field.len() <= 183,
    ensures
        payload_of(
            ts_bytes(error, pusi, priority, pid, scrambling, counter, adaptation, payload),
        ) matches Ok((header, data)) && header.pusi == pusi && header.pid == pid
            && header.continuity_counter == counter % 16 && header.carries_payload() == (payload
            is Some) && header.carries_adaptation() == (adaptation is Some) && data
            == match payload {
            Some(d) => d,
            None => Seq::empty(),
        },
{
    let p = ts_bytes(error, pusi, priority, pid, scrambling, counter, adaptation, payload);
    let high = p[1];
    assert(high % 32 == pid / 256);
    assert(high / 64 % 2 == 1 <==> pusi);
    let flags = p[3];
    assert(flags % 16 == counter % 16);
    assert(flags / 16 % 2 == 1 <==> payload is Some);
    assert(flags / 32 % 2 == 1 <==> adaptation is Some);
    match (adaptation, payload) {
        (Some(field), Some(data)) => {
            assert(p[4] == field.len());
            assert(p.skip(5 + p[4]) =~= data);
        },
        (None, Some(data)) => {
            assert(p.skip(4) =~= data);
        },
        _ => {},
    }
}

} // verus!
