//! From block data to display sets.
use vstd::prelude::*;
use crate::bytes::{copy_range, push_range};
use crate::mkv::tracks::{CompressionView, ContentCompAlgo};
use crate::pgs::display_set::{
    pushed, pushed_all, AssemblerView, DisplaySet, DisplaySetAssembler, DisplaySetView,
};
use crate::pgs::segment::{
    raw_segments, segment_parsed, segment_views, PgsSegment, SegmentView, PGS_MAGIC,
};

verus! {

/// What a zlib stream holds, or nothing if the stream is malformed.
pub uninterp spec fn zlib_inflated(data: Seq<u8>) -> Option<Seq<u8>>;

/// `flate2::read::ZlibDecoder` reads what the zlib stream in a byte slice
/// holds, to its end. The contract claims only that the outcome is a function
/// of the bytes.
#[verifier::external_body]
fn inflate(data: &[u8]) -> (r: Option<Vec<u8>>)
    ensures
        r is Some <==> zlib_inflated(data@) is Some,
        r matches Some(v) ==> zlib_inflated(data@) == Some(v@),
{
    let mut decoder = flate2::read::ZlibDecoder::new(data);
    let mut decoded: Vec<u8> = Vec::new();
    std::io::Read::read_to_end(&mut decoder, &mut decoded).ok().map(|_| decoded)
}

/// A block's data, decoded, where `inflated` is what the data holds as a zlib
/// stream.
pub open spec fn decoded_with(
    data: Seq<u8>,
    compression: Option<CompressionView>,
    inflated: Option<Seq<u8>>,
) -> Option<Seq<u8>> {
    match compression {
        Some(CompressionView::Zlib) => inflated,
        Some(CompressionView::HeaderStripping(prefix)) => Some(prefix + data),
        None => Some(data),
    }
}

/// A block's data, decoded, unless it is a malformed zlib stream.
pub open spec fn decoded_data(data: Seq<u8>, compression: Option<CompressionView>) -> Option<
    Seq<u8>,
> {
    decoded_with(data, compression, zlib_inflated(data))
}

/// The view of an optional compression.
pub open spec fn algo_view(c: Option<&ContentCompAlgo>) -> Option<CompressionView> {
    match c {
        Some(algo) => Some(algo@),
        None => None,
    }
}

/// The view of optional bytes.
pub open spec fn bytes_view(b: Option<Vec<u8>>) -> Option<Seq<u8>> {
    match b {
        Some(v) => Some(v@),
        None => None,
    }
}

/// Decodes a block's data, given what it holds as a zlib stream.
pub fn decode_block_data_with(
    data: &[u8],
    compression: Option<&ContentCompAlgo>,
    inflated: Option<Vec<u8>>,
) -> (r: Option<Vec<u8>>)
    ensures
        bytes_view(r) == decoded_with(data@, algo_view(compression), bytes_view(inflated)),
{
    match compression {
        Some(ContentCompAlgo::Zlib) => inflated,
        Some(ContentCompAlgo::HeaderStripping(prefix)) => {
            let mut decoded = copy_range(prefix.as_slice(), 0, prefix.len());
            push_range(&mut decoded, data, 0, data.len());
            assert(decoded@ =~= prefix@ + data@);
            Some(decoded)
        },
        None => {
            let copy = copy_range(data, 0, data.len());
            assert(copy@ =~= data@);
            Some(copy)
        },
    }
}

/// Decodes a block's data according to its track's compression. Returns `None`
/// if the data is a malformed zlib stream.
pub fn try_decode_block_data(data: &[u8], compression: Option<&ContentCompAlgo>) -> (r: Option<
    Vec<u8>,
>)
    ensures
        bytes_view(r) == decoded_data(data@, algo_view(compression)),
{
    let inflated = match compression {
        Some(ContentCompAlgo::Zlib) => inflate(data),
        _ => None,
    };
    decode_block_data_with(data, compression, inflated)
}

/// The decoded data, or the data itself where decoding failed.
pub open spec fn decoded_or_raw(data: Seq<u8>, decoded: Option<Seq<u8>>) -> Seq<u8> {
    match decoded {
        Some(d) => d,
        None => data,
    }
}

/// Decodes a block's data according to its track's compression. A malformed
/// zlib stream is taken as it is.
pub fn decode_block_data(data: &[u8], compression: Option<&ContentCompAlgo>) -> (r: Vec<u8>)
    ensures
        r@ == decoded_or_raw(data@, decoded_data(data@, algo_view(compression))),
{
    match try_decode_block_data(data, compression) {
        Some(decoded) => decoded,
        None => {
            let copy = copy_range(data, 0, data.len());
            assert(copy@ =~= data@);
            copy
        },
    }
}

/// A timestamp in units of `scale` nanoseconds as 90 kHz ticks, rounded down.
/// Times before zero are zero; ticks keep their low 64 bits.
pub open spec fn pts_of(timestamp: i64, scale: u64) -> u64 {
    if timestamp <= 0 {
        0
    } else {
        ((timestamp * scale * 9 / 100_000) % 0x1_0000_0000_0000_0000) as u64
    }
}

/// Converts a timestamp in units of `timestamp_scale` nanoseconds to 90 kHz
/// ticks.
pub fn mkv_timestamp_to_pts(mkv_ts: i64, timestamp_scale: u64) -> (r: u64)
    ensures
        r == pts_of(mkv_ts, timestamp_scale),
{
    if mkv_ts <= 0 {
        return 0;
    }
    assert(0 <= mkv_ts * timestamp_scale <= 0x7FFF_FFFF_FFFF_FFFF * 0xFFFF_FFFF_FFFF_FFFF)
        by (nonlinear_arith)
        requires
            0 < mkv_ts <= 0x7FFF_FFFF_FFFF_FFFF,
            0 <= timestamp_scale <= 0xFFFF_FFFF_FFFF_FFFF,
    ;
    let time_ns: u128 = mkv_ts as u128 * timestamp_scale as u128;
    let pts: u128 = time_ns / 100_000 * 9 + time_ns % 100_000 * 9 / 100_000;
    assert(pts == mkv_ts * timestamp_scale * 9 / 100_000);
    (pts % 0x1_0000_0000_0000_0000) as u64
}

/// The segments with full headers that `data` holds, up to a malformed one.
pub open spec fn full_segments(data: Seq<u8>) -> Seq<SegmentView>
    decreases data.len(),
{
    if data.len() == 0 {
        Seq::empty()
    } else {
        match segment_parsed(data) {
            Ok((s, n)) => if 0 < n <= data.len() {
                seq![s] + full_segments(data.skip(n as int))
            } else {
                Seq::empty()
            },
            Err(_) => Seq::empty(),
        }
    }
}

/// The segments of a decoded block. A block that starts with "PG" holds segments
/// with full headers, any other holds raw segments of the block's timestamp.
pub open spec fn block_segments(data: Seq<u8>, pts: u64) -> Seq<SegmentView> {
    if data.len() >= 2 && data[0] == 0x50 && data[1] == 0x47 {
        full_segments(data)
    } else {
        raw_segments(pts, 0, data)
    }
}

/// The views of display sets.
pub open spec fn set_views(sets: Seq<DisplaySet>) -> Seq<DisplaySetView> {
    Seq::new(sets.len(), |i: int| sets[i]@)
}

/// Pushes a segment and appends the display set that it completes, if any.
pub fn push_segment(
    assembler: &mut DisplaySetAssembler,
    segment: PgsSegment,
    display_sets: &mut Vec<DisplaySet>,
)
    ensures
        final(assembler)@ == pushed(old(assembler)@, segment@).0,
        set_views(final(display_sets)@) == match pushed(old(assembler)@, segment@).1 {
            Some(ds) => set_views(old(display_sets)@).push(ds),
            None => set_views(old(display_sets)@),
        },
{
    if let Some(ds) = assembler.push(segment) {
        let ghost before = set_views(display_sets@);
        display_sets.push(ds);
        assert(set_views(display_sets@) =~= before.push(ds@));
    }
}

proof fn lemma_push_one(a: AssemblerView, some: Seq<SegmentView>, s: SegmentView)
    ensures
        pushed_all(a, some.push(s)).0 == pushed(pushed_all(a, some).0, s).0,
        pushed_all(a, some.push(s)).1 == match pushed(pushed_all(a, some).0, s).1 {
            Some(ds) => pushed_all(a, some).1.push(ds),
            None => pushed_all(a, some).1,
        },
{
    assert(some.push(s).drop_last() =~= some);
    assert(some.push(s).last() == s);
}

/// Pushes segments and appends the display sets that they complete.
pub fn push_segments(
    assembler: &mut DisplaySetAssembler,
    segments: Vec<PgsSegment>,
    display_sets: &mut Vec<DisplaySet>,
)
    ensures
        final(assembler)@ == pushed_all(old(assembler)@, segment_views(segments@)).0,
        set_views(final(display_sets)@) == set_views(old(display_sets)@) + pushed_all(
            old(assembler)@,
            segment_views(segments@),
        ).1,
{
    let ghost all = segment_views(segments@);
    let ghost start = assembler@;
    let ghost sets = set_views(display_sets@);
    assert(all.take(0) =~= Seq::<SegmentView>::empty());
    assert(sets + pushed_all(start, all.take(0)).1 =~= sets);
    for segment in it: segments
        invariant
            all == segment_views(it.seq()),
            assembler@ == pushed_all(start, all.take(it.index() as int)).0,
            set_views(display_sets@) == sets + pushed_all(start, all.take(it.index() as int)).1,
    {
        let ghost i = it.index() as int;
        proof {
            lemma_push_one(start, all.take(i), segment@);
            assert(all.take(i + 1) =~= all.take(i).push(segment@));
        }
        push_segment(assembler, segment, display_sets);
        assert(set_views(display_sets@) =~= sets + pushed_all(start, all.take(i + 1)).1);
    }
    assert(all.take(all.len() as int) =~= all);
}

/// Parses the segments of a decoded block.
pub fn parse_block_segments(data: &[u8], pts: u64) -> (r: Vec<PgsSegment>)
    ensures
        segment_views(r@) == block_segments(data@, pts),
{
    if !(data.len() >= 2 && data[0] == PGS_MAGIC[0] && data[1] == PGS_MAGIC[1]) {
        return PgsSegment::parse_raw_segments(pts, 0, data);
    }
    let ghost goal = full_segments(data@);
    let mut segments: Vec<PgsSegment> = Vec::new();
    let mut offset: usize = 0;
    assert(data@.skip(0) =~= data@);
    assert(segment_views(segments@) + goal =~= goal);
    while offset < data.len()
        invariant
            offset <= data@.len(),
            goal == segment_views(segments@) + full_segments(data@.skip(offset as int)),
        ensures
            full_segments(data@.skip(offset as int)).len() == 0,
        decreases data@.len() - offset,
    {
        let rest = vstd::slice::slice_subrange(data, offset, data.len());
        assert(rest@ =~= data@.skip(offset as int));
        match PgsSegment::parse(rest) {
            Ok((segment, consumed)) => {
                let ghost before = segment_views(segments@);
                let ghost view = segment@;
                segments.push(segment);
                offset += consumed;
                proof {
                    assert(segment_views(segments@) =~= before.push(view));
                    assert(rest@.skip(consumed as int) =~= data@.skip(offset as int));
                    let tail = full_segments(data@.skip(offset as int));
                    assert(before + (seq![view] + tail) =~= segment_views(segments@) + tail);
                }
            },
            Err(_) => {
                break ;
            },
        }
    }
    assert(goal =~= segment_views(segments@));
    segments
}

/// Pushes the segments of a decoded block and appends the display sets that
/// they complete.
pub fn process_pgs_block(
    data: &[u8],
    pts: u64,
    assembler: &mut DisplaySetAssembler,
    display_sets: &mut Vec<DisplaySet>,
)
    ensures
        final(assembler)@ == pushed_all(old(assembler)@, block_segments(data@, pts)).0,
        set_views(final(display_sets)@) == set_views(old(display_sets)@) + pushed_all(
            old(assembler)@,
            block_segments(data@, pts),
        ).1,
{
    let segments = parse_block_segments(data, pts);
    push_segments(assembler, segments, display_sets);
}

} // verus!
