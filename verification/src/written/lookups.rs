//! How far tables, packets and times are looked for.
use vstd::prelude::*;
use crate::ebml::written::{holds, lemma_holds_parts};
use crate::error::ErrorView;
use crate::m2ts::pat::{pat_in, pat_of, section_from, section_in};
use crate::m2ts::pmt::{pmt_in, pmt_of, PmtStreamView};
use crate::m2ts::stream::{resumed, M2tsConfig};
use crate::m2ts::ts_packet::PacketFormat;
use crate::mkv::stream::{probed_time, probed_time_from};
use crate::written::spans::{packets_are_found_at_two_sync_bytes, two_sync_bytes};
use crate::written::transport::{
    bare_bytes, is_packet, lemma_packet, packet_bytes, packet_len, packets_bytes, Packet,
};

verus! {

proof fn lemma_section(
    s: Seq<u8>,
    pos: int,
    ks: Seq<Packet>,
    n: nat,
    format: PacketFormat,
    pid: u16,
    i: int,
)
    requires
        0 <= pos,
        forall|j: int| 0 <= j < ks.len() ==> is_packet(#[trigger] ks[j]),
        holds(s, pos, packets_bytes(ks, format)),
        0 <= i <= ks.len(),
        i <= n,
        forall|j: int|
            0 <= j < i ==> section_in(bare_bytes(#[trigger] ks[j]), pid) == Ok::<
                Option<Seq<u8>>,
                ErrorView,
            >(None),
    ensures
        section_from(s, pos, n, format, pid) == section_from(
            s,
            pos + i * packet_len(format),
            (n - i) as nat,
            format,
            pid,
        ),
        i < ks.len() ==> holds(s, pos + i * packet_len(format), packet_bytes(ks[i], format)),
    decreases i,
{
    if ks.len() > 0 {
        let one = packet_bytes(ks[0], format);
        let rest = ks.skip(1);
        assert(is_packet(ks[0]));
        lemma_holds_parts(s, pos, one, packets_bytes(rest, format));
        lemma_packet(s, pos, ks[0], format);
        if i > 0 {
            assert(section_in(bare_bytes(ks[0]), pid) == Ok::<Option<Seq<u8>>, ErrorView>(None));
            assert forall|j: int| 0 <= j < rest.len() implies is_packet(#[trigger] rest[j]) by {
                assert(rest[j] == ks[j + 1]);
            }
            assert forall|j: int| 0 <= j < i - 1 implies section_in(
                bare_bytes(#[trigger] rest[j]),
                pid,
            ) == Ok::<Option<Seq<u8>>, ErrorView>(None) by {
                assert(rest[j] == ks[j + 1]);
            }
            lemma_section(s, pos + one.len(), rest, (n - 1) as nat, format, pid, i - 1);
            let w = packet_len(format);
            assert(w + (i - 1) * w == i * w) by (nonlinear_arith);
            if i < ks.len() {
                assert(rest[i - 1] == ks[i]);
            }
        }
    }
}

/// The association table is the first section of its identifier, 0, among the first
/// thousand packets, and no other.
pub proof fn association_table_is_found(
    s: Seq<u8>,
    ks: Seq<Packet>,
    format: PacketFormat,
    i: int,
    section: Seq<u8>,
)
    requires
        forall|j: int| 0 <= j < ks.len() ==> is_packet(#[trigger] ks[j]),
        holds(s, 0, packets_bytes(ks, format)),
        0 <= i < ks.len(),
        forall|j: int|
            0 <= j < i ==> section_in(bare_bytes(#[trigger] ks[j]), 0) == Ok::<
                Option<Seq<u8>>,
                ErrorView,
            >(None),
        section_in(bare_bytes(ks[i]), 0) == Ok::<Option<Seq<u8>>, ErrorView>(Some(section)),
    ensures
        i < 1000 ==> pat_in(s, format) == pat_of(section),
        i >= 1000 ==> pat_in(s, format) is Err,
{
    let stop = if i < 1000 {
        i
    } else {
        1000
    };
    lemma_section(s, 0, ks, 1000, format, 0, stop);
    if i < 1000 {
        lemma_packet(s, i * packet_len(format), ks[i], format);
    }
}

/// A map table is the first section of its identifier among the first two thousand
/// packets, and no other. What follows its packet is where reading goes on.
pub proof fn map_table_is_found(
    s: Seq<u8>,
    ks: Seq<Packet>,
    format: PacketFormat,
    pid: u16,
    i: int,
    section: Seq<u8>,
)
    requires
        forall|j: int| 0 <= j < ks.len() ==> is_packet(#[trigger] ks[j]),
        holds(s, 0, packets_bytes(ks, format)),
        0 <= i < ks.len(),
        forall|j: int|
            0 <= j < i ==> section_in(bare_bytes(#[trigger] ks[j]), pid) == Ok::<
                Option<Seq<u8>>,
                ErrorView,
            >(None),
        section_in(bare_bytes(ks[i]), pid) == Ok::<Option<Seq<u8>>, ErrorView>(Some(section)),
    ensures
        i < 2000 ==> pmt_in(s, format, pid) == match pmt_of(section) {
            Ok(streams) => Ok((streams, i * packet_len(format) + packet_len(format))),
            Err(e) => Err::<(Seq<PmtStreamView>, int), ErrorView>(e),
        },
        i >= 2000 ==> pmt_in(s, format, pid) is Err,
{
    let stop = if i < 2000 {
        i
    } else {
        2000
    };
    lemma_section(s, 0, ks, 2000, format, pid, stop);
    if i < 2000 {
        lemma_packet(s, i * packet_len(format), ks[i], format);
    }
}

/// Where the sync is lost, reading goes on at the first place within 256 KiB with two
/// sync bytes one packet apart, and otherwise not at all.
pub proof fn packets_are_looked_for_nearby(c: M2tsConfig, pos: int)
    requires
        0 <= pos <= c.end <= c.bytes.len(),
    ensures
        ({
            let stop = if pos + 262144 < c.end {
                pos + 262144
            } else {
                c.end
            };
            let last = match c.format {
                PacketFormat::M2ts => stop - 196,
                PacketFormat::RawTs => stop - 188,
            };
            let p = resumed(c, pos);
            if exists|q: int| pos <= q < last && #[trigger] two_sync_bytes(c.bytes, q, c.format) {
                pos <= p < last && two_sync_bytes(c.bytes, p, c.format) && forall|q: int|
                    pos <= q < p ==> !(#[trigger] two_sync_bytes(c.bytes, q, c.format))
            } else {
                p == c.end
            }
        }),
{
    let stop = if pos + 262144 < c.end {
        pos + 262144
    } else {
        c.end
    };
    packets_are_found_at_two_sync_bytes(c.bytes, pos, stop, c.format);
}

/// A probe for the time of a cluster looks at 512 KiB, up to the end of the segment.
pub proof fn times_are_looked_for_nearby(s: Seq<u8>, pos: int, end: int)
    ensures
        pos + 524288 <= end ==> probed_time(s, pos, end) == probed_time_from(s, pos, pos + 524288),
        pos + 524288 >= end ==> probed_time(s, pos, end) == probed_time_from(s, pos, end),
{
}

} // verus!
