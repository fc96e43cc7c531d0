//! Which times a file spans, where reading starts, and which parts are probed.
use vstd::prelude::*;
use crate::bytes::{be16, be32, be32_bytes, lemma_be32};
use crate::ebml::written::{holds, lemma_holds_at, lemma_holds_parts};
use crate::collect::{drained, read_when_drained};
use crate::error::ErrorView;
use crate::extractor::ExtractionView;
use crate::pgs::display_set::{pushed, AssemblerView};
use crate::m2ts::pes::pes_time;
use crate::m2ts::probe::{params_for, 
    active_among, chunk_end, chunk_holds_from, expanded, holds_from, holds_pgs, is_near,
    lemma_chunk_order, lemma_expanded, merged, regions_from, ProbeParams,
};
use crate::m2ts::seeking::{packet_time, seek_target, time_from};
use crate::m2ts::ts_packet::{detected_format, in_step, 
    first_pair, first_pair_is_first, packet_pair_at, pid_of, resync_from, PacketFormat,
};
use crate::pgs::segment::{SegmentType, SegmentView};
use crate::sup::stream::{
    file_segment_at, in_front_of, last_pts_from, magic_from, sup_next, sup_span, sup_start,
};
use crate::sup::write::is_content;
use crate::written::payloads::{composition_bytes, full_segment_bytes, Placement};
use crate::written::streams::written_packet_is_read;
use crate::written::transport::{
    bare_bytes, is_packet, lemma_packet, packet_bytes, packets_bytes, Packet,
};

verus! {

/// A segment of a raw file.
pub struct RawSegment {
    pub pts: u32,
    pub dts: u32,
    pub kind: SegmentType,
    pub payload: Seq<u8>,
}

/// Segments as they are written to a raw file.
pub open spec fn raw_file_bytes(gs: Seq<RawSegment>) -> Seq<u8>
    decreases gs.len(),
{
    if gs.len() == 0 {
        Seq::empty()
    } else {
        full_segment_bytes(gs[0].pts, gs[0].dts, gs[0].kind, gs[0].payload) + raw_file_bytes(
            gs.skip(1),
        )
    }
}

proof fn lemma_raw_segment(s: Seq<u8>, i: int, g: RawSegment)
    requires
        g.payload.len() < 0x1_0000,
        holds(s, i, full_segment_bytes(g.pts, g.dts, g.kind, g.payload)),
    ensures
        s[i] == 0x50,
        s[i + 1] == 0x47,
        be32(s, i + 2) == g.pts,
        be16(s, i + 11) == g.payload.len(),
        full_segment_bytes(g.pts, g.dts, g.kind, g.payload).len() == 13 + g.payload.len(),
{
    let b = full_segment_bytes(g.pts, g.dts, g.kind, g.payload);
    lemma_holds_at(s, i, b, 0);
    lemma_holds_at(s, i, b, 1);
    lemma_holds_at(s, i, b, 2);
    lemma_holds_at(s, i, b, 3);
    lemma_holds_at(s, i, b, 4);
    lemma_holds_at(s, i, b, 5);
    lemma_holds_at(s, i, b, 11);
    lemma_holds_at(s, i, b, 12);
    assert(s.subrange(i + 2, i + 6) =~= be32_bytes(g.pts));
    lemma_be32(s, i + 2, g.pts);
}

proof fn lemma_last(s: Seq<u8>, i: int, gs: Seq<RawSegment>, last: Option<u64>)
    requires
        forall|k: int| 0 <= k < gs.len() ==> (#[trigger] gs[k]).payload.len() < 0x1_0000,
        holds(s, i, raw_file_bytes(gs)),
        i + raw_file_bytes(gs).len() == s.len(),
    ensures
        last_pts_from(s, i, last) == if gs.len() == 0 {
            last
        } else {
            Some(gs.last().pts as u64)
        },
    decreases gs.len(),
{
    if gs.len() > 0 {
        let rest = gs.skip(1);
        let one = full_segment_bytes(gs[0].pts, gs[0].dts, gs[0].kind, gs[0].payload);
        assert(gs[0].payload.len() < 0x1_0000);
        lemma_holds_parts(s, i, one, raw_file_bytes(rest));
        lemma_raw_segment(s, i, gs[0]);
        assert forall|k: int| 0 <= k < rest.len() implies (#[trigger] rest[k]).payload.len()
            < 0x1_0000 by {
            assert(rest[k] == gs[k + 1]);
        }
        lemma_last(s, i + one.len(), rest, Some(gs[0].pts as u64));
        if rest.len() > 0 {
            assert(rest.last() == gs.last());
        }
    }
}

proof fn lemma_junk(s: Seq<u8>, i: int, n: int, last: Option<u64>)
    requires
        0 <= i <= n,
        n + 13 <= s.len(),
        forall|k: int| i <= k < n ==> #[trigger] s[k] != 0x50,
    ensures
        last_pts_from(s, i, last) == last_pts_from(s, n, last),
    decreases n - i,
{
    if i < n {
        lemma_junk(s, i + 1, n, last);
    }
}

/// A raw file of up to 64 KiB spans the times from its first to its last segment.
pub proof fn written_segments_span_their_times(gs: Seq<RawSegment>)
    requires
        gs.len() > 0,
        forall|k: int| 0 <= k < gs.len() ==> (#[trigger] gs[k]).payload.len() < 0x1_0000,
        raw_file_bytes(gs).len() <= 65536,
    ensures
        sup_span(raw_file_bytes(gs)) == Some((gs[0].pts as u64, gs.last().pts as u64)),
{
    let s = raw_file_bytes(gs);
    let one = full_segment_bytes(gs[0].pts, gs[0].dts, gs[0].kind, gs[0].payload);
    assert(gs[0].payload.len() < 0x1_0000);
    assert(s.subrange(0, s.len() as int) =~= s);
    lemma_holds_parts(s, 0, one, raw_file_bytes(gs.skip(1)));
    lemma_raw_segment(s, 0, gs[0]);
    assert(s.skip(0) =~= s);
    lemma_last(s, 0, gs, None);
}

/// A larger file spans the times from its first segment to the last one of the
/// segments that its last 64 KiB end with, where no byte in front of these looks
/// like the start of a segment.
pub proof fn large_files_span_their_times(
    s: Seq<u8>,
    first: RawSegment,
    at: int,
    gs: Seq<RawSegment>,
)
    requires
        s.len() > 65536,
        first.payload.len() < 0x1_0000,
        holds(s, 0, full_segment_bytes(first.pts, first.dts, first.kind, first.payload)),
        gs.len() > 0,
        forall|k: int| 0 <= k < gs.len() ==> (#[trigger] gs[k]).payload.len() < 0x1_0000,
        s.len() - 65536 <= at,
        holds(s, at, raw_file_bytes(gs)),
        at + raw_file_bytes(gs).len() == s.len(),
        forall|k: int| s.len() - 65536 <= k < at ==> #[trigger] s[k] != 0x50,
    ensures
        sup_span(s) == Some((first.pts as u64, gs.last().pts as u64)),
{
    let start = s.len() - 65536;
    let t = s.skip(start);
    let b = raw_file_bytes(gs);
    lemma_raw_segment(s, 0, first);
    let n = at - start;
    assert(t.subrange(n, n + b.len() as int) =~= s.subrange(at, at + b.len() as int));
    assert forall|k: int| 0 <= k < n implies #[trigger] t[k] != 0x50 by {
        assert(t[k] == s[start + k]);
    }
    let one = full_segment_bytes(gs[0].pts, gs[0].dts, gs[0].kind, gs[0].payload);
    assert(gs[0].payload.len() < 0x1_0000);
    lemma_holds_parts(s, at, one, raw_file_bytes(gs.skip(1)));
    lemma_raw_segment(s, at, gs[0]);
    lemma_junk(t, 0, n, None);
    lemma_last(t, n, gs, None);
}

/// Reading starts at the first "PG" that is not in front of a place up to a
/// hundredth of the file, and up to 2 MiB, in front of the estimated position.
pub proof fn start_is_a_segment_close_in_front(s: Seq<u8>, estimated: u64)
    ensures
        ({
            let from = in_front_of(s, estimated);
            let p = sup_start(s, estimated);
            &&& 0 <= from <= estimated
            &&& estimated - from <= s.len() / 100
            &&& estimated - from <= 2097152
            &&& from == 0 || estimated - from == s.len() / 100 || estimated - from == 2097152
            &&& from <= p
            &&& from <= s.len() ==> p <= s.len()
            &&& p < s.len() ==> p + 1 < s.len() && s[p] == 0x50 && s[p + 1] == 0x47
            &&& forall|q: int|
                from <= q < p && q + 1 < s.len() ==> !(#[trigger] s[q] == 0x50 && s[q + 1] == 0x47)
        }),
{
    lemma_magic(s, in_front_of(s, estimated));
}

proof fn lemma_magic(s: Seq<u8>, pos: int)
    requires
        0 <= pos,
    ensures
        ({
            let p = magic_from(s, pos);
            &&& pos <= p
            &&& pos <= s.len() ==> p <= s.len()
            &&& p < s.len() ==> p + 1 < s.len() && s[p] == 0x50 && s[p + 1] == 0x47
            &&& forall|q: int|
                pos <= q < p && q + 1 < s.len() ==> !(#[trigger] s[q] == 0x50 && s[q + 1] == 0x47)
        }),
    decreases s.len() - pos,
{
    if pos < s.len() && !(s[pos] == 0x50 && pos + 1 < s.len() && s[pos + 1] == 0x47) {
        lemma_magic(s, pos + 1);
    }
}

/// A composition counts as one that shows something exactly if it has placements.
pub proof fn compositions_with_placements_show_something(
    g: SegmentView,
    width: u16,
    height: u16,
    rate: u8,
    number: u16,
    state: crate::pgs::segment::CompositionState,
    update: u8,
    palette: u8,
    placements: Seq<Placement>,
)
    requires
        g.segment_type is PresentationComposition,
        placements.len() <= 255,
        g.payload == composition_bytes(
            width,
            height,
            rate,
            number,
            state,
            update,
            palette,
            placements,
        ),
    ensures
        is_content(g) <==> placements.len() > 0,
{
    assert(g.payload[10] == placements.len());
}

/// A search for a start looks for a time ten seconds in front of it, or for the
/// first one.
pub proof fn search_is_for_ten_seconds_in_front(start: u64)
    ensures
        start >= 10 * 90_000 ==> seek_target(start) + 10 * 90_000 == start,
        start < 10 * 90_000 ==> seek_target(start) == 0,
{
}

/// The time that a packet gives.
pub open spec fn time_said(k: Packet) -> Option<u64> {
    match k.payload {
        Some(data) => if k.pusi {
            pes_time(data)
        } else {
            None
        },
        None => None,
    }
}

/// The first time that packets give.
pub open spec fn first_time_said(ks: Seq<Packet>) -> Option<u64>
    decreases ks.len(),
{
    if ks.len() == 0 {
        None
    } else if time_said(ks[0]) is Some {
        time_said(ks[0])
    } else {
        first_time_said(ks.skip(1))
    }
}

/// Written packets give the first time of presentation that starts in one of them.
pub proof fn written_packets_give_their_first_time(
    s: Seq<u8>,
    at: int,
    ks: Seq<Packet>,
    format: PacketFormat,
)
    requires
        forall|i: int| 0 <= i < ks.len() ==> is_packet(#[trigger] ks[i]),
        holds(s, at, packets_bytes(ks, format)),
    ensures
        time_from(s, at, at + packets_bytes(ks, format).len(), format) == first_time_said(ks),
    decreases ks.len(),
{
    if ks.len() > 0 {
        let k = ks[0];
        let rest = ks.skip(1);
        let one = packet_bytes(k, format);
        assert(is_packet(ks[0]));
        lemma_holds_parts(s, at, one, packets_bytes(rest, format));
        lemma_packet(s, at, k, format);
        lemma_one_packet(k);
        assert forall|i: int| 0 <= i < rest.len() implies is_packet(#[trigger] rest[i]) by {
            assert(rest[i] == ks[i + 1]);
        }
        written_packets_give_their_first_time(s, at + one.len(), rest, format);
    }
}

proof fn lemma_one_packet(k: Packet)
    requires
        is_packet(k),
    ensures
        packet_time(bare_bytes(k)) == time_said(k),
        pid_of(bare_bytes(k)[1], bare_bytes(k)[2]) == k.pid,
{
    written_packet_is_read(
        k.error,
        k.pusi,
        k.priority,
        k.pid,
        k.scrambling,
        k.counter,
        k.adaptation,
        k.payload,
    );
}

/// Whether one of the packets has one of the identifiers.
pub open spec fn some_packet_of(ks: Seq<Packet>, pids: Seq<u16>) -> bool {
    exists|i: int| 0 <= i < ks.len() && pids.contains((#[trigger] ks[i]).pid)
}

proof fn lemma_holds_from(
    data: Seq<u8>,
    at: int,
    ks: Seq<Packet>,
    format: PacketFormat,
    pids: Seq<u16>,
)
    requires
        forall|i: int| 0 <= i < ks.len() ==> is_packet(#[trigger] ks[i]),
        holds(data, at, packets_bytes(ks, format)),
        at + packets_bytes(ks, format).len() == data.len(),
    ensures
        holds_from(data, at, format, pids) <==> some_packet_of(ks, pids),
    decreases ks.len(),
{
    if ks.len() > 0 {
        let k = ks[0];
        let rest = ks.skip(1);
        let one = packet_bytes(k, format);
        assert(is_packet(ks[0]));
        lemma_holds_parts(data, at, one, packets_bytes(rest, format));
        lemma_packet(data, at, k, format);
        lemma_one_packet(k);
        let bare = data.subrange(at + format.sync(), at + format.sync() + 188);
        assert(bare[1] == data[at + format.sync() + 1] && bare[2] == data[at + format.sync() + 2]);
        assert forall|i: int| 0 <= i < rest.len() implies is_packet(#[trigger] rest[i]) by {
            assert(rest[i] == ks[i + 1]);
        }
        lemma_holds_from(data, at + one.len(), rest, format, pids);
        if some_packet_of(ks, pids) {
            let i = choose|i: int| 0 <= i < ks.len() && pids.contains((#[trigger] ks[i]).pid);
            if i > 0 {
                assert(rest[i - 1] == ks[i]);
            }
        }
        if some_packet_of(rest, pids) {
            let i = choose|i: int| 0 <= i < rest.len() && pids.contains((#[trigger] rest[i]).pid);
            assert(ks[i + 1] == rest[i]);
        }
        if pids.contains(k.pid) {
            assert(pids.contains(ks[0].pid));
        }
    }
}

/// A buffer of at least two packets holds PGS data exactly if one of them has one of
/// the identifiers.
pub proof fn written_packets_are_probed(ks: Seq<Packet>, format: PacketFormat, pids: Seq<u16>)
    requires
        ks.len() >= 2,
        forall|i: int| 0 <= i < ks.len() ==> is_packet(#[trigger] ks[i]),
    ensures
        holds_pgs(packets_bytes(ks, format), format, pids) <==> some_packet_of(ks, pids),
{
    let data = packets_bytes(ks, format);
    assert(data.subrange(0, data.len() as int) =~= data);
    let one = packet_bytes(ks[0], format);
    let rest = ks.skip(1);
    assert(is_packet(ks[0]));
    assert(rest[0] == ks[1]);
    assert(is_packet(ks[1]));
    let two = packet_bytes(rest[0], format);
    lemma_holds_parts(data, 0, one, packets_bytes(rest, format));
    lemma_holds_parts(data, one.len() as int, two, packets_bytes(rest.skip(1), format));
    lemma_packet(data, 0, ks[0], format);
    lemma_packet(data, one.len() as int, rest[0], format);
    assert(first_pair(
        data,
        0,
        if data.len() - format.sync() - format.size() < format.size() {
            data.len() - format.sync() - format.size()
        } else {
            format.size()
        },
        format,
    ) == Some(0int));
    lemma_holds_from(data, 0, ks, format, pids);
}

/// Whether the `k`th of the probes, which are spread evenly over a chunk, finds PGS
/// data.
pub open spec fn probe_finds(
    s: Seq<u8>,
    start: int,
    end: int,
    k: int,
    params: ProbeParams,
    format: PacketFormat,
    pids: Seq<u16>,
) -> bool {
    let at = start + (end - start) * k / params.num_probes as int;
    let stop = if at + params.sub_probe_bytes < end {
        at + params.sub_probe_bytes
    } else {
        end
    };
    at < stop && holds_pgs(s.subrange(at, stop), format, pids)
}

proof fn lemma_chunk(
    s: Seq<u8>,
    start: int,
    end: int,
    k: nat,
    params: ProbeParams,
    format: PacketFormat,
    pids: Seq<u16>,
)
    requires
        0 <= start <= end <= s.len(),
        params.num_probes > 0,
        k <= params.num_probes,
    ensures
        chunk_holds_from(s, start, end, k, params, format, pids) == Ok::<bool, ErrorView>(
            exists|j: int|
                k <= j < params.num_probes && #[trigger] probe_finds(
                    s,
                    start,
                    end,
                    j,
                    params,
                    format,
                    pids,
                ),
        ),
    decreases params.num_probes - k,
{
    if k < params.num_probes {
        lemma_chunk(s, start, end, k + 1, params, format, pids);
        let here = probe_finds(s, start, end, k as int, params, format, pids);
        if exists|j: int|
            k <= j < params.num_probes && #[trigger] probe_finds(
                s,
                start,
                end,
                j,
                params,
                format,
                pids,
            ) {
            let j = choose|j: int|
                k <= j < params.num_probes && #[trigger] probe_finds(
                    s,
                    start,
                    end,
                    j,
                    params,
                    format,
                    pids,
                );
            if j > k {
                assert(k + 1 <= j < params.num_probes && probe_finds(
                    s,
                    start,
                    end,
                    j,
                    params,
                    format,
                    pids,
                ));
            }
        }
    }
}

/// A chunk within the file is active exactly if one of its probes finds PGS data.
pub proof fn a_chunk_is_active_by_its_probes(
    s: Seq<u8>,
    start: int,
    end: int,
    params: ProbeParams,
    format: PacketFormat,
    pids: Seq<u16>,
)
    requires
        0 <= start <= end <= s.len(),
        params.num_probes > 0,
    ensures
        chunk_holds_from(s, start, end, 0, params, format, pids) == Ok::<bool, ErrorView>(
            exists|j: int|
                0 <= j < params.num_probes && #[trigger] probe_finds(
                    s,
                    start,
                    end,
                    j,
                    params,
                    format,
                    pids,
                ),
        ),
{
    lemma_chunk(s, start, end, 0, params, format, pids);
}

/// Where all chunks lie within the file, those are active whose probes find PGS
/// data, in ascending order.
pub proof fn active_chunks_are_those_with_findings(
    s: Seq<u8>,
    n: nat,
    file_size: int,
    params: ProbeParams,
    format: PacketFormat,
    pids: Seq<u16>,
)
    requires
        params.num_probes > 0,
        n <= u64::MAX,
        file_size <= s.len(),
        forall|i: int|
            0 <= i < n ==> 0 <= #[trigger] (i * params.chunk_size) <= file_size,
    ensures
        active_among(s, n, file_size, params, format, pids) matches Ok(active) && (forall|i: u64|
            #[trigger] active.contains(i) <==> i < n && exists|j: int|
                0 <= j < params.num_probes && #[trigger] probe_finds(
                    s,
                    i * params.chunk_size,
                    chunk_end(i as int, params.chunk_size as int, file_size),
                    j,
                    params,
                    format,
                    pids,
                )) && (forall|i: int, j: int|
            0 <= i < j < active.len() ==> active[i] < active[j]) && (forall|i: int|
            0 <= i < active.len() ==> (#[trigger] active[i]) < n),
    decreases n,
{
    if n > 0 {
        let last = (n - 1) as nat;
        let i = n - 1;
        active_chunks_are_those_with_findings(s, last, file_size, params, format, pids);
        let before = active_among(s, last, file_size, params, format, pids)->Ok_0;
        assert(0 <= i * params.chunk_size <= file_size);
        let end = chunk_end(i, params.chunk_size as int, file_size);
        assert(i * params.chunk_size <= (i + 1) * params.chunk_size) by (nonlinear_arith)
            requires
                i >= 0,
                params.chunk_size >= 0,
        ;
        a_chunk_is_active_by_its_probes(s, i * params.chunk_size, end, params, format, pids);
        let active = active_among(s, n, file_size, params, format, pids)->Ok_0;
        assert forall|x: u64| #[trigger] active.contains(x) <==> x < n && exists|j: int|
            0 <= j < params.num_probes && #[trigger] probe_finds(
                s,
                x * params.chunk_size,
                chunk_end(x as int, params.chunk_size as int, file_size),
                j,
                params,
                format,
                pids,
            ) by {
            if active == before {
                assert(active.contains(x) == before.contains(x));
            } else {
                assert(active == before.push(i as u64));
                if active.contains(x) {
                    let k = choose|k: int| 0 <= k < active.len() && active[k] == x;
                    if k < before.len() {
                        assert(before[k] == x);
                    }
                }
                if before.contains(x) {
                    let k = choose|k: int| 0 <= k < before.len() && before[k] == x;
                    assert(active[k] == x);
                }
                assert(active[before.len() as int] == i as u64);
            }
            if x != i {
                assert(x < n <==> x < last);
            }
        }
    }
}

/// Whether a position lies in a chunk.
pub open spec fn in_chunk(pos: int, i: int, chunk_size: int, file_size: int) -> bool {
    i * chunk_size <= pos < (i + 1) * chunk_size && pos < file_size
}

proof fn lemma_region_part(
    chunks: Seq<u64>,
    k: int,
    start: int,
    end: int,
    chunk_size: int,
    file_size: int,
    m: int,
    pos: int,
)
    requires
        1 <= k <= chunks.len(),
        forall|i: int, j: int| 0 <= i < j < chunks.len() ==> chunks[i] < chunks[j],
        0 <= start <= end <= file_size <= u64::MAX,
        end == chunk_end(chunks[k - 1] as int, chunk_size, file_size),
        chunk_size > 0,
        forall|j: int| 0 <= j < chunks.len() ==> (#[trigger] chunks[j]) * chunk_size < file_size,
        0 <= m < regions_from(chunks, k, start, end, chunk_size, file_size).len(),
        regions_from(chunks, k, start, end, chunk_size, file_size)[m].0 <= pos < regions_from(
            chunks,
            k,
            start,
            end,
            chunk_size,
            file_size,
        )[m].1,
    ensures
        start <= pos < end || exists|j: int|
            k <= j < chunks.len() && in_chunk(
                pos,
                #[trigger] chunks[j] as int,
                chunk_size,
                file_size,
            ),
    decreases chunks.len() - k,
{
    if k < chunks.len() {
        let c = chunks[k];
        let chunk_start = c * chunk_size;
        let stop = chunk_end(c as int, chunk_size, file_size);
        assert(c * chunk_size < file_size);
        assert(0 <= c * chunk_size <= (c + 1) * chunk_size) by (nonlinear_arith)
            requires
                c >= 0,
                chunk_size > 0,
        ;
        if chunk_start <= end {
            lemma_chunk_order(chunks[k - 1] as int, c as int, chunk_size, file_size);
            lemma_region_part(chunks, k + 1, start, stop, chunk_size, file_size, m, pos);
            if start <= pos < stop && !(pos < end) {
                assert(in_chunk(pos, chunks[k] as int, chunk_size, file_size));
            }
        } else if m > 0 {
            lemma_region_part(chunks, k + 1, chunk_start, stop, chunk_size, file_size, m - 1, pos);
            if chunk_start <= pos < stop {
                assert(in_chunk(pos, chunks[k] as int, chunk_size, file_size));
            }
        }
    }
}

/// Regions hold nothing but active chunks and their neighbours.
pub proof fn regions_are_of_active_chunks(
    active: Seq<u64>,
    num_chunks: u64,
    file_size: u64,
    chunk_size: u64,
    m: int,
    pos: int,
) -> (found: (int, u64))
    requires
        chunk_size > 0,
        forall|k: int| 0 <= k < active.len() ==> (#[trigger] active[k]) < num_chunks,
        forall|i: int| 0 <= i < num_chunks ==> #[trigger] (i * chunk_size) < file_size,
        0 <= m < merged(active, num_chunks, file_size as int, chunk_size as int).len(),
        merged(active, num_chunks, file_size as int, chunk_size as int)[m].0 <= pos < merged(
            active,
            num_chunks,
            file_size as int,
            chunk_size as int,
        )[m].1,
    ensures
        0 <= found.0 < active.len(),
        is_near(active[found.0], found.1, num_chunks),
        in_chunk(pos, found.1 as int, chunk_size as int, file_size as int),
{
    let chunks = expanded(active, num_chunks);
    let size = chunk_size as int;
    let whole = file_size as int;
    lemma_expanded(active, num_chunks);
    assert forall|j: int| 0 <= j < chunks.len() implies (#[trigger] chunks[j]) * size < whole by {
        assert(chunks.contains(chunks[j]));
        let k = choose|k: int|
            0 <= k < active.len() && is_near(#[trigger] active[k], chunks[j], num_chunks);
        assert(active[k] < num_chunks);
        assert((chunks[j] as int) * chunk_size < file_size);
    }
    let first = chunks[0];
    let start = first * size;
    let end = chunk_end(first as int, size, whole);
    assert(first * size < whole);
    assert(0 <= first * size <= (first + 1) * size) by (nonlinear_arith)
        requires
            first >= 0,
            size > 0,
    ;
    lemma_region_part(chunks, 1, start, end, size, whole, m, pos);
    let j = if start <= pos < end {
        0
    } else {
        choose|j: int|
            1 <= j < chunks.len() && in_chunk(pos, #[trigger] chunks[j] as int, size, whole)
    };
    assert(in_chunk(pos, chunks[j] as int, size, whole));
    assert(chunks.contains(chunks[j]));
    let k = choose|k: int|
        0 <= k < active.len() && is_near(#[trigger] active[k], chunks[j], num_chunks);
    (k, chunks[j])
}

/// Whether two sync bytes stand one packet apart, where a packet at `p` has its own.
pub open spec fn two_sync_bytes(s: Seq<u8>, p: int, format: PacketFormat) -> bool {
    match format {
        PacketFormat::M2ts => s[p + 4] == 0x47 && s[p + 196] == 0x47,
        PacketFormat::RawTs => s[p] == 0x47 && s[p + 188] == 0x47,
    }
}

/// Packets are found again at the first place with two sync bytes one packet apart,
/// both of them in front of the end, and nowhere if there is none.
pub proof fn packets_are_found_at_two_sync_bytes(
    s: Seq<u8>,
    pos: int,
    end: int,
    format: PacketFormat,
)
    ensures
        ({
            let last = match format {
                PacketFormat::M2ts => end - 196,
                PacketFormat::RawTs => end - 188,
            };
            match resync_from(s, pos, end, format) {
                Some(p) => {
                    &&& pos <= p < last
                    &&& two_sync_bytes(s, p, format)
                    &&& forall|q: int| pos <= q < p ==> !(#[trigger] two_sync_bytes(s, q, format))
                },
                None => forall|q: int|
                    pos <= q < last ==> !(#[trigger] two_sync_bytes(s, q, format)),
            }
        }),
{
    let hi = end - format.sync() - format.size();
    first_pair_is_first(s, pos, hi, format);
    assert forall|q: int| #[trigger] two_sync_bytes(s, q, format) == packet_pair_at(
        s,
        q,
        format,
    ) by {}
}

proof fn lemma_sup_next(s: Seq<u8>, pos: int, a: AssemblerView)
    requires
        0 <= pos <= s.len(),
    ensures
        pos <= sup_next(s, pos, a).1 <= s.len(),
        sup_next(s, pos, a).0 is None ==> sup_next(s, pos, a).1 == s.len(),
        sup_next(s, pos, a).0 matches Some(Ok(_)) ==> sup_next(s, pos, a).1 > pos,
    decreases s.len() - pos,
{
    if let Ok(Some((segment, next))) = file_segment_at(s, pos) {
        let (after, set) = pushed(a, segment);
        if set is None {
            lemma_sup_next(s, next, after);
        }
    }
}

/// A pass over a raw file that meets no error reads each of its bytes once.
pub proof fn a_pass_reads_each_byte_once(s: Seq<u8>, pos: int, a: AssemblerView, before: u64)
    requires
        0 <= pos <= s.len(),
        before + s.len() - pos <= u64::MAX,
        drained(ExtractionView::Sup { bytes: s, pos, assembler: a }) is Ok,
    ensures
        read_when_drained(ExtractionView::Sup { bytes: s, pos, assembler: a }, before) == before
            + s.len() - pos,
    decreases s.len() - pos,
{
    let (outcome, next, after) = sup_next(s, pos, a);
    lemma_sup_next(s, pos, a);
    if outcome matches Some(Ok(_)) {
        a_pass_reads_each_byte_once(s, next, after, (before + next - pos) as u64);
    }
}

/// A file is told to be of packets by five sync bytes in step at its start, first
/// with timecodes, and then without; it has to hold six packets with timecodes.
pub proof fn packets_are_told_by_five_sync_bytes(s: Seq<u8>)
    ensures
        detected_format(s) == Ok::<PacketFormat, ErrorView>(PacketFormat::M2ts) <==> s.len() >= 1152
            && s[4] == 0x47 && s[196] == 0x47 && s[388] == 0x47 && s[580] == 0x47 && s[772] == 0x47,
        detected_format(s) == Ok::<PacketFormat, ErrorView>(PacketFormat::RawTs) <==> s.len()
            >= 1152 && s[0] == 0x47 && s[188] == 0x47 && s[376] == 0x47 && s[564] == 0x47 && s[752]
            == 0x47 && !(s[4] == 0x47 && s[196] == 0x47 && s[388] == 0x47 && s[580] == 0x47
            && s[772] == 0x47),
{
    reveal_with_fuel(in_step, 6);
}

/// A file of more than five gigabytes is probed twice in each 16 MiB, with 2 MiB each
/// time; any other four times in each 2 MiB, with 64 KiB each time.
pub proof fn probes_are_by_file_size(size: u64)
    ensures
        size > 5_000_000_000 ==> params_for(size).chunk_size == 16 * 1024 * 1024 && params_for(
            size,
        ).num_probes == 2 && params_for(size).sub_probe_bytes == 2 * 1024 * 1024,
        size <= 5_000_000_000 ==> params_for(size).chunk_size == 2 * 1024 * 1024 && params_for(
            size,
        ).num_probes == 4 && params_for(size).sub_probe_bytes == 64 * 1024,
{
}

} // verus!
