//! What is cut off, or is not what it should be, is refused.
use vstd::prelude::*;
use crate::ebml::children::{bytes_at, text_at, uint_at};
use crate::ebml::vint::{id_at, size_at};
use crate::ebml::written::{holds, lemma_holds_parts, size_fits, written_size_is_read};
use crate::error::{ErrorView, IoError};
use crate::m2ts::pat::pat_of;
use crate::m2ts::pes::pes_segments;
use crate::m2ts::pmt::pmt_of;
use crate::m2ts::ts_packet::{header_of, payload_of};
use crate::mkv::cluster::block_at;
use crate::pgs::payload::{object_fits, objects_at, ods_parsed, pcs_parsed, pds_parsed, wds_parsed};
use crate::pgs::rle::{decoded, decoded_from, first_code, RleCode};
use crate::pgs::segment::{segment_parsed, CompositionState, SegmentType};
use crate::sup::stream::file_segment_at;
use crate::written::clusters::{block_bytes, written_block_header_is_read, Block};
use crate::written::payloads::{
    all_windows_bytes, code_bytes, codes_bytes, composition_bytes, full_segment_bytes, is_code,
    is_placement, lemma_code, lemma_placement, lemma_windows_len, placement_bytes, placements_bytes,
    Code, Placement,
};

verus! {

proof fn lemma_cut_placements(p: Seq<u8>, n: int, at: int, os: Seq<Placement>)
    requires
        forall|i: int| 0 <= i < os.len() ==> is_placement(#[trigger] os[i]),
        holds(p, at, placements_bytes(os)),
        at <= n < at + placements_bytes(os).len(),
    ensures
        objects_at(p.take(n), at, os.len()) is None,
    decreases os.len(),
{
    if os.len() > 0 {
        let o = os[0];
        let rest = os.skip(1);
        let one = placement_bytes(o);
        let cut = p.take(n);
        assert(is_placement(os[0]));
        lemma_holds_parts(p, at, one, placements_bytes(rest));
        lemma_placement(p, at, o);
        if at + 4 <= n {
            assert(cut[at + 3] == p[at + 3]);
        }
        if n >= at + one.len() {
            assert forall|i: int| 0 <= i < rest.len() implies is_placement(#[trigger] rest[i]) by {
                assert(rest[i] == os[i + 1]);
            }
            lemma_cut_placements(p, n, at + one.len(), rest);
        } else {
            assert(!object_fits(cut, at));
        }
    }
}

/// A composition that is cut off anywhere is refused.
pub proof fn cut_composition_is_refused(
    width: u16,
    height: u16,
    rate: u8,
    number: u16,
    state: CompositionState,
    update: u8,
    palette: u8,
    placements: Seq<Placement>,
    n: int,
)
    requires
        placements.len() <= 255,
        forall|i: int| 0 <= i < placements.len() ==> is_placement(#[trigger] placements[i]),
        0 <= n < composition_bytes(
            width,
            height,
            rate,
            number,
            state,
            update,
            palette,
            placements,
        ).len(),
    ensures
        pcs_parsed(
            composition_bytes(width, height, rate, number, state, update, palette, placements).take(
                n,
            ),
        ) is None,
{
    let b = composition_bytes(width, height, rate, number, state, update, palette, placements);
    assert(b.subrange(11, 11 + placements_bytes(placements).len() as int) =~= placements_bytes(
        placements,
    ));
    if n >= 11 {
        assert(b.take(n)[10] == placements.len());
        lemma_cut_placements(b, n, 11, placements);
    }
}

/// A composition whose state is not one of the three is refused.
pub proof fn unknown_state_is_refused(p: Seq<u8>)
    requires
        p.len() > 7,
        p[7] != 0x00,
        p[7] != 0x40,
        p[7] != 0x80,
    ensures
        pcs_parsed(p) is None,
{
}

/// Windows that are cut off anywhere are refused.
pub proof fn cut_windows_are_refused(ws: Seq<crate::pgs::payload::WindowDefinition>, n: int)
    requires
        ws.len() <= 255,
        0 <= n < 1 + all_windows_bytes(ws).len(),
    ensures
        wds_parsed((seq![ws.len() as u8] + all_windows_bytes(ws)).take(n)) is None,
{
    lemma_windows_len(ws);
}

/// A palette without its identifier and version, or with a part of an entry, is
/// refused, and no other.
pub proof fn cut_palette_is_refused(p: Seq<u8>)
    ensures
        pds_parsed(p) is None <==> p.len() < 2 || (p.len() % 5 != 2),
{
}

/// An object fragment without all of its header, or with an unknown position, is
/// refused, and no other.
pub proof fn cut_fragment_is_refused(p: Seq<u8>)
    ensures
        ods_parsed(p) is None <==> p.len() < 4 || !(p[3] == 0xC0 || p[3] == 0x80 || p[3] == 0x40
            || p[3] == 0x00) || (p[3] >= 0x80 && p.len() < 11),
{
}

/// A segment that is cut off anywhere is refused, in a block as in a raw file; what
/// is left of a raw file behind its last segment is an error.
pub proof fn cut_segment_is_refused(
    pts: u32,
    dts: u32,
    kind: SegmentType,
    payload: Seq<u8>,
    front: Seq<u8>,
    n: int,
)
    requires
        payload.len() < 0x1_0000,
        0 <= n < 13 + payload.len(),
    ensures
        segment_parsed(full_segment_bytes(pts, dts, kind, payload).take(n)) is Err,
        n > 0 ==> file_segment_at(
            front + full_segment_bytes(pts, dts, kind, payload).take(n),
            front.len() as int,
        ) == Err::<Option<(crate::pgs::segment::SegmentView, int)>, ErrorView>(
            ErrorView::Io(
                if n < 13 {
                    IoError::PartialRead
                } else {
                    IoError::UnexpectedEof
                },
            ),
        ),
        n == 0 ==> file_segment_at(
            front + full_segment_bytes(pts, dts, kind, payload).take(n),
            front.len() as int,
        ) == Ok::<Option<(crate::pgs::segment::SegmentView, int)>, ErrorView>(None),
{
    let b = full_segment_bytes(pts, dts, kind, payload);
    let cut = b.take(n);
    let s = front + cut;
    let at = front.len() as int;
    if n >= 13 {
        assert(cut[11] == payload.len() / 256 && cut[12] == payload.len() % 256);
        assert(s[at] == b[0] && s[at + 1] == b[1] && s[at + 10] == b[10]);
        assert(s[at + 11] == b[11] && s[at + 12] == b[12]);
    }
}

/// A segment that does not start with "PG", or whose kind is not one of the five, is
/// refused.
pub proof fn what_is_no_segment_is_refused(data: Seq<u8>, pos: int)
    requires
        0 <= pos,
        pos + 13 <= data.len(),
        data[pos] != 0x50 || data[pos + 1] != 0x47 || !(data[pos + 10] == 0x14 || data[pos + 10]
            == 0x15 || data[pos + 10] == 0x16 || data[pos + 10] == 0x17 || data[pos + 10] == 0x80),
    ensures
        file_segment_at(data, pos) is Err,
        segment_parsed(data.skip(pos)) is Err,
{
    let d = data.skip(pos);
    assert(d[0] == data[pos] && d[1] == data[pos + 1] && d[10] == data[pos + 10]);
}

/// A code of a bitmap that is cut off is no code, and neither are data that end with
/// one a bitmap.
pub proof fn cut_code_is_refused(cs: Seq<Code>, c: Code, k: int, width: nat, height: nat)
    requires
        forall|i: int| 0 <= i < cs.len() ==> is_code(#[trigger] cs[i]),
        is_code(c),
        !(c is Pixel),
        0 < k < code_bytes(c).len(),
    ensures
        first_code(code_bytes(c).take(k)) == RleCode::Truncated,
        decoded(codes_bytes(cs) + code_bytes(c).take(k), width, height) is None,
{
    let cut = code_bytes(c).take(k);
    assert(cut[0] == code_bytes(c)[0]);
    if k > 1 {
        assert(cut[1] == code_bytes(c)[1]);
    }
    assert(width * height >= 0) by (nonlinear_arith);
    lemma_cut_codes(cs, cut, Seq::empty(), 0, width, width * height);
}

proof fn lemma_cut_codes(
    cs: Seq<Code>,
    cut: Seq<u8>,
    out: Seq<u8>,
    col: nat,
    width: nat,
    total: nat,
)
    requires
        forall|i: int| 0 <= i < cs.len() ==> is_code(#[trigger] cs[i]),
        cut.len() > 0,
        first_code(cut) == RleCode::Truncated,
    ensures
        decoded_from(codes_bytes(cs) + cut, out, col, width, total) is None,
    decreases cs.len(),
{
    let all = codes_bytes(cs) + cut;
    if cs.len() == 0 {
        assert(all =~= cut);
    } else {
        let rest = cs.skip(1);
        assert(is_code(cs[0]));
        assert(all =~= code_bytes(cs[0]) + (codes_bytes(rest) + cut));
        lemma_code(cs[0], codes_bytes(rest) + cut);
        assert forall|i: int| 0 <= i < rest.len() implies is_code(#[trigger] rest[i]) by {
            assert(rest[i] == cs[i + 1]);
        }
        match first_code(all) {
            RleCode::Truncated => {},
            RleCode::EndOfLine => {
                let n = crate::pgs::rle::fitting(
                    if col < width {
                        (width - col) as nat
                    } else {
                        0
                    },
                    out.len(),
                    total,
                );
                lemma_cut_codes(
                    rest,
                    cut,
                    out + crate::pgs::rle::pixel_run(0, n),
                    0,
                    width,
                    total,
                );
            },
            RleCode::Run { color, len, size } => {
                lemma_cut_codes(
                    rest,
                    cut,
                    out + crate::pgs::rle::pixel_run(color, len),
                    col + len,
                    width,
                    total,
                );
            },
        }
    }
}

/// A byte that starts with more than three zero bits starts no identifier, and one
/// of zero bits only no size; neither does what is cut off.
pub proof fn what_is_no_number_is_refused(s: Seq<u8>, pos: int)
    requires
        0 <= pos,
    ensures
        pos >= s.len() ==> id_at(s, pos) is None && size_at(s, pos) is None,
        pos < s.len() && s[pos] < 0x10 ==> id_at(s, pos) is None,
        pos < s.len() && s[pos] == 0 ==> size_at(s, pos) is None,
        pos + 1 == s.len() && s[pos] < 0x80 ==> id_at(s, pos) is None && size_at(s, pos) is None,
        pos + 2 == s.len() && s[pos] < 0x40 ==> id_at(s, pos) is None && size_at(s, pos) is None,
        pos + 3 == s.len() && s[pos] < 0x20 ==> id_at(s, pos) is None && size_at(s, pos) is None,
        pos + 4 == s.len() && s[pos] < 0x10 ==> size_at(s, pos) is None,
        pos + 5 == s.len() && s[pos] < 0x08 ==> size_at(s, pos) is None,
        pos + 6 == s.len() && s[pos] < 0x04 ==> size_at(s, pos) is None,
        pos + 7 == s.len() && s[pos] < 0x02 ==> size_at(s, pos) is None,
{
}

/// A number of more than eight bytes, and data that are cut off, are errors.
pub proof fn cut_data_are_refused(s: Seq<u8>, pos: int, n: u64)
    ensures
        pos + n > s.len() ==> bytes_at(s, pos, n) == Err::<Seq<u8>, ErrorView>(
            ErrorView::Io(IoError::UnexpectedEof),
        ) && text_at(s, pos, n) == Err::<Seq<char>, ErrorView>(
            ErrorView::Io(IoError::UnexpectedEof),
        ) && uint_at(s, pos, n) is Err,
        n > 8 ==> uint_at(s, pos, n) is Err,
{
}

/// A block of a wanted track that is cut off behind its header is an error.
pub proof fn cut_block_is_refused(
    s: Seq<u8>,
    pos: int,
    b: Block,
    time: i64,
    tracks: Seq<u64>,
    sequential: bool,
    n: int,
)
    requires
        size_fits(b.track as nat, b.track_width),
        tracks.contains(b.track),
        holds(s, pos, block_bytes(b)),
        pos + b.track_width + 3 <= n < pos + block_bytes(b).len(),
        s.len() <= u64::MAX,
    ensures
        block_at(s.take(n), pos, block_bytes(b).len() as u64, time, tracks, sequential) == Err::<
            (Option<crate::mkv::cluster::BlockView>, int),
            ErrorView,
        >(ErrorView::Io(IoError::UnexpectedEof)),
{
    let cut = s.take(n);
    let head = Block { data: Seq::empty(), ..b };
    let size = crate::ebml::written::size_bytes(b.track as nat, b.track_width);
    let rest = crate::written::clusters::signed_bytes(b.relative) + seq![b.flags];
    assert(block_bytes(b) =~= (size + rest) + b.data);
    lemma_holds_parts(s, pos, size + rest, b.data);
    lemma_holds_parts(s, pos, size, rest);
    written_size_is_read(s, pos, b.track as nat, b.track_width);
    assert(block_bytes(head) =~= size + rest);
    assert(cut.subrange(pos, pos + block_bytes(head).len() as int) =~= s.subrange(
        pos,
        pos + block_bytes(head).len() as int,
    ));
    written_block_header_is_read(cut, pos, head);
}

/// A packet without its sync byte, and one whose adaptation field goes beyond its
/// end, are errors.
pub proof fn malformed_packet_is_refused(p: Seq<u8>)
    requires
        p.len() == 188,
    ensures
        p[0] != 0x47 ==> payload_of(p) is Err && header_of(p) is Err,
        p[0] == 0x47 && p[3] / 16 % 4 == 3 && p[4] > 183 ==> payload_of(p) is Err,
        p[0] == 0x47 && p[3] / 16 % 2 == 0 ==> (payload_of(p) matches Ok((_, data)) && data.len()
            == 0),
{
}

/// An association table and a map table are told by their first byte, and are not
/// read if they are cut off.
pub proof fn cut_tables_are_refused(data: Seq<u8>)
    ensures
        data.len() < 8 || data[0] != 0x00 ==> pat_of(data) is Err,
        data.len() < 12 || data[0] != 0x02 ==> pmt_of(data) is Err,
        data.len() >= 8 && data[0] == 0x00 && data[1] % 16 * 256 + data[2] - 1 > data.len()
            ==> pat_of(data) is Err,
        data.len() >= 12 && data[0] == 0x02 && data[1] % 16 * 256 + data[2] - 1 > data.len()
            ==> pmt_of(data) is Err,
        data.len() >= 12 && data[0] == 0x02 && 12 + data[10] % 16 * 256 + data[11] > data.len()
            ==> pmt_of(data) is Err,
{
}

/// A packet of an elementary stream that does not start like one, or whose header is
/// cut off, has no segments.
pub proof fn what_is_no_packet_has_no_segments(b: Seq<u8>)
    requires
        b.len() < 9 || b[0] != 0 || b[1] != 0 || b[2] != 1 || b.len() < 9 + b[8],
    ensures
        pes_segments(b).len() == 0,
{
}

} // verus!
