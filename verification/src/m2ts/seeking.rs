//! Finding a time in a transport stream without reading what is in front of it.
use vstd::prelude::*;
use crate::io::reader::{counted, SeekBufReader, Source};
use crate::m2ts::pes::{pes_time, time_of_pes};
use crate::m2ts::ts_packet::{
    extract_payload, first_pair, first_pair_is_first, packet_from, packet_pair_at, payload_of,
    PacketFormat, SYNC_BYTE,
};

verus! {

/// How close a search comes to a time.
pub const SEEK_MARGIN: u64 = 2097152;

/// The number of bytes that a probe for a time reads at most.
pub const SEEK_WINDOW: u64 = 524288;

/// The number of probes that a search makes at most.
pub const SEEK_PROBES: u64 = 20;

/// How far in front of the wanted time reading starts, in ticks: graphics come in
/// the stream before they are shown.
pub const SEEK_LEAD: u64 = 900_000;

/// The time that a packet of 188 bytes gives: the presentation timestamp of an
/// elementary stream's packet that starts in it.
pub open spec fn packet_time(packet: Seq<u8>) -> Option<u64> {
    match payload_of(packet) {
        Err(_) => None,
        Ok((header, payload)) => if header.pusi {
            pes_time(payload)
        } else {
            None
        },
    }
}

/// The first time that the packets from `at` on give, in front of `stop`. Where
/// the sync is lost, there is none.
pub open spec fn time_from(s: Seq<u8>, at: int, stop: int, format: PacketFormat) -> Option<u64>
    decreases stop - at,
{
    if at + format.size() > stop || s[at + format.sync()] != SYNC_BYTE {
        None
    } else {
        match packet_time(s.subrange(at + format.sync(), at + format.sync() + 188)) {
            Some(t) => Some(t),
            None => time_from(s, at + format.size(), stop, format),
        }
    }
}

/// The end of a probe at `pos` in front of `end`.
pub open spec fn window_end(pos: int, end: int) -> int {
    if pos + SEEK_WINDOW < end {
        pos + SEEK_WINDOW
    } else {
        end
    }
}

/// What a probe at `pos` finds: the first position where a packet may start, and
/// the first time that the packets from there on give.
pub open spec fn probed_packet(s: Seq<u8>, pos: int, end: int, format: PacketFormat) -> Option<
    (int, u64),
> {
    let stop = window_end(pos, end);
    if stop > s.len() {
        None
    } else {
        match first_pair(s, pos, stop - format.sync() - format.size(), format) {
            None => None,
            Some(p) => match time_from(s, p, stop, format) {
                Some(t) => Some((p, t)),
                None => None,
            },
        }
    }
}

/// The position of the packet that a probe at `pos` finds.
pub open spec fn packet_found(s: Seq<u8>, pos: int, end: int, format: PacketFormat) -> int {
    match probed_packet(s, pos, end, format) {
        Some((p, _)) => p,
        None => pos,
    }
}

/// The number of bytes that a probe at `pos` reads.
pub open spec fn probe_reads(s: Seq<u8>, pos: int, end: int) -> int {
    let stop = window_end(pos, end);
    if stop > s.len() {
        0
    } else {
        stop - pos
    }
}

/// Whether a probe at `pos` finds a time that is not behind another.
pub open spec fn is_early(s: Seq<u8>, pos: int, end: int, target: u64, format: PacketFormat) -> bool {
    probed_packet(s, pos, end, format) matches Some((_, t)) && t <= target
}

/// Where at most `n` probes between `lo` and `hi` come to: the last position
/// where they find a time that is not behind another, or `lo` if they find none.
/// Each probe halves the range; a range below the margin ends the search.
pub open spec fn time_search(
    s: Seq<u8>,
    n: nat,
    lo: int,
    hi: int,
    end: int,
    target: u64,
    format: PacketFormat,
) -> int
    decreases n,
{
    if n == 0 || hi - lo <= SEEK_MARGIN {
        lo
    } else {
        let mid = lo + (hi - lo) / 2;
        if is_early(s, mid, end, target, format) {
            let found = packet_found(s, mid, end, format);
            time_search(s, (n - 1) as nat, found, hi, end, target, format)
        } else {
            time_search(s, (n - 1) as nat, lo, mid, end, target, format)
        }
    }
}

/// The number of bytes that at most `n` probes between `lo` and `hi` read.
pub open spec fn time_search_reads(
    s: Seq<u8>,
    n: nat,
    lo: int,
    hi: int,
    end: int,
    target: u64,
    format: PacketFormat,
) -> int
    decreases n,
{
    if n == 0 || hi - lo <= SEEK_MARGIN {
        0
    } else {
        let mid = lo + (hi - lo) / 2;
        probe_reads(s, mid, end) + if is_early(s, mid, end, target, format) {
            let found = packet_found(s, mid, end, format);
            time_search_reads(s, (n - 1) as nat, found, hi, end, target, format)
        } else {
            time_search_reads(s, (n - 1) as nat, lo, mid, end, target, format)
        }
    }
}

/// The time that a search for a start looks for.
pub open spec fn seek_target(start: u64) -> u64 {
    if start >= SEEK_LEAD {
        (start - SEEK_LEAD) as u64
    } else {
        0
    }
}

/// Where reading starts for display sets from a time on, instead of at `pos`.
pub open spec fn time_start(
    s: Seq<u8>,
    pos: int,
    end: int,
    start: u64,
    format: PacketFormat,
) -> int {
    time_search(s, SEEK_PROBES as nat, pos, end, end, seek_target(start), format)
}

/// The number of bytes that are read to find where reading starts.
pub open spec fn time_start_reads(
    s: Seq<u8>,
    pos: int,
    end: int,
    start: u64,
    format: PacketFormat,
) -> int {
    time_search_reads(s, SEEK_PROBES as nat, pos, end, end, seek_target(start), format)
}

/// A time that is found stays found when more packets are looked at.
proof fn lemma_time_stays(s: Seq<u8>, at: int, stop: int, end: int, format: PacketFormat)
    requires
        stop <= end,
    ensures
        time_from(s, at, stop, format) matches Some(t) ==> time_from(s, at, end, format) == Some(t),
    decreases stop - at,
{
    if at + format.size() <= stop && s[at + format.sync()] == SYNC_BYTE {
        lemma_time_stays(s, at + format.size(), stop, end, format);
    }
}

/// Whether a packet may start at `p`, and the packets from there on give first a
/// time that is not behind another.
pub open spec fn is_packet_before(
    s: Seq<u8>,
    p: int,
    end: int,
    target: u64,
    format: PacketFormat,
) -> bool {
    &&& packet_pair_at(s, p, format)
    &&& time_from(s, p, end, format) matches Some(t) && t <= target
}

/// What a probe finds is in its window.
proof fn lemma_probed(s: Seq<u8>, pos: int, end: int, format: PacketFormat)
    ensures
        probed_packet(s, pos, end, format) matches Some((p, t)) ==> pos <= p < window_end(pos, end)
            && packet_pair_at(s, p, format) && time_from(s, p, end, format) == Some(t),
{
    let stop = window_end(pos, end);
    first_pair_is_first(s, pos, stop - format.sync() - format.size(), format);
    if let Some(p) = first_pair(s, pos, stop - format.sync() - format.size(), format) {
        lemma_time_stays(s, p, stop, end, format);
    }
}

/// A search ends where it started, or at a packet from which on the stream gives
/// a time that is not behind the one that is looked for.
pub proof fn search_ends_in_front(
    s: Seq<u8>,
    n: nat,
    lo: int,
    hi: int,
    end: int,
    target: u64,
    format: PacketFormat,
)
    requires
        hi <= end,
    ensures
        ({
            let p = time_search(s, n, lo, hi, end, target, format);
            &&& lo <= p
            &&& lo < hi ==> p < hi
            &&& p == lo || is_packet_before(s, p, end, target, format)
        }),
    decreases n,
{
    if n > 0 && hi - lo > SEEK_MARGIN {
        let mid = lo + (hi - lo) / 2;
        if is_early(s, mid, end, target, format) {
            let found = packet_found(s, mid, end, format);
            lemma_probed(s, mid, end, format);
            search_ends_in_front(s, (n - 1) as nat, found, hi, end, target, format);
        } else {
            search_ends_in_front(s, (n - 1) as nat, lo, mid, end, target, format);
        }
    }
}

/// How large a range `n` probes bring down to the margin.
pub open spec fn search_reach(n: nat) -> int
    decreases n,
{
    if n == 0 {
        SEEK_MARGIN as int
    } else {
        2 * search_reach((n - 1) as nat)
    }
}

/// A search ends close to the time that is looked for: within the margin behind
/// its result is the end, or a place where a probe finds only later times.
pub proof fn search_ends_close(
    s: Seq<u8>,
    n: nat,
    lo: int,
    hi: int,
    end: int,
    target: u64,
    format: PacketFormat,
) -> (late: int)
    requires
        lo <= hi <= end,
        hi - lo <= search_reach(n),
        hi == end || !is_early(s, hi, end, target, format),
    ensures
        ({
            let p = time_search(s, n, lo, hi, end, target, format);
            &&& p <= late <= p + SEEK_MARGIN
            &&& late == end || !is_early(s, late, end, target, format)
        }),
    decreases n,
{
    if n > 0 && hi - lo > SEEK_MARGIN {
        let mid = lo + (hi - lo) / 2;
        if is_early(s, mid, end, target, format) {
            let found = packet_found(s, mid, end, format);
            lemma_probed(s, mid, end, format);
            search_ends_close(s, (n - 1) as nat, found, hi, end, target, format)
        } else {
            search_ends_close(s, (n - 1) as nat, lo, mid, end, target, format)
        }
    } else {
        hi
    }
}

/// In a file of up to two tebibytes, reading starts close in front of the time:
/// within the margin behind the start is the end, or a place where a probe finds
/// only later times.
pub proof fn time_start_is_close(
    s: Seq<u8>,
    pos: int,
    end: int,
    start: u64,
    format: PacketFormat,
) -> (late: int)
    requires
        pos <= end <= pos + 0x200_0000_0000,
    ensures
        ({
            let p = time_start(s, pos, end, start, format);
            &&& p <= late <= p + SEEK_MARGIN
            &&& late == end || !is_early(s, late, end, seek_target(start), format)
        }),
{
    reveal_with_fuel(search_reach, 21);
    search_ends_close(s, SEEK_PROBES as nat, pos, end, end, seek_target(start), format)
}

/// A search reads no more than a window for each probe, however large the file
/// is.
pub proof fn search_reads_windows(
    s: Seq<u8>,
    n: nat,
    lo: int,
    hi: int,
    end: int,
    target: u64,
    format: PacketFormat,
)
    requires
        hi <= end,
    ensures
        0 <= time_search_reads(s, n, lo, hi, end, target, format) <= n * SEEK_WINDOW,
    decreases n,
{
    if n > 0 && hi - lo > SEEK_MARGIN {
        let mid = lo + (hi - lo) / 2;
        if is_early(s, mid, end, target, format) {
            let found = packet_found(s, mid, end, format);
            search_reads_windows(s, (n - 1) as nat, found, hi, end, target, format);
        } else {
            search_reads_windows(s, (n - 1) as nat, lo, mid, end, target, format);
        }
        assert(n * SEEK_WINDOW == (n - 1) * SEEK_WINDOW + SEEK_WINDOW) by (nonlinear_arith);
    } else {
        assert(n * SEEK_WINDOW >= 0) by (nonlinear_arith)
            requires
                n >= 0,
        ;
    }
}

/// The time that a packet gives.
fn time_of_packet(packet: &[u8; 188]) -> (r: Option<u64>)
    ensures
        r == packet_time(packet@),
{
    match extract_payload(packet) {
        Ok((header, payload)) => if header.pusi {
            time_of_pes(payload)
        } else {
            None
        },
        Err(_) => None,
    }
}

/// The first time that the packets of a buffer give, from an offset on. The
/// buffer holds the bytes of a file from `pos` on.
fn time_in_buffer(
    buf: &[u8],
    offset: usize,
    format: PacketFormat,
    Ghost(s): Ghost<Seq<u8>>,
    Ghost(pos): Ghost<int>,
) -> (r: Option<u64>)
    requires
        0 <= pos,
        pos + buf@.len() <= s.len(),
        buf@ == s.subrange(pos, pos + buf@.len()),
        offset <= buf@.len(),
    ensures
        r == time_from(s, pos + offset, pos + buf@.len(), format),
{
    let packet_size: usize = format.packet_size();
    let sync: usize = format.sync_offset();
    let len: usize = buf.len();
    let ghost goal = time_from(s, pos + offset, pos + len, format);
    let mut i: usize = offset;
    while len - i >= packet_size
        invariant
            i <= len == buf@.len(),
            packet_size == format.size(),
            sync == format.sync(),
            0 <= pos,
            pos + len <= s.len(),
            buf@ == s.subrange(pos, pos + len),
            goal == time_from(s, pos + offset, pos + len, format),
            goal == time_from(s, pos + i, pos + len, format),
        decreases len - i,
    {
        if buf[i + sync] != SYNC_BYTE {
            return None;
        }
        let packet = packet_from(buf, i + sync);
        assert(packet@ =~= s.subrange(pos + i + sync, pos + i + sync + 188));
        if let Some(t) = time_of_packet(&packet) {
            return Some(t);
        }
        i += packet_size;
    }
    None
}

/// Looks for a packet and a time at a position.
fn probe_packet<R: Source>(
    reader: &mut SeekBufReader<R>,
    pos: u64,
    end: u64,
    format: PacketFormat,
) -> (r: Option<(u64, u64)>)
    requires
        pos <= end,
    ensures
        final(reader).bytes() == old(reader).bytes(),
        final(reader).consumed() == counted(
            old(reader).consumed(),
            probe_reads(old(reader).bytes(), pos as int, end as int),
        ),
        match (r, probed_packet(old(reader).bytes(), pos as int, end as int, format)) {
            (Some((p, t)), Some((v, w))) => p == v && t == w,
            (None, None) => true,
            _ => false,
        },
{
    let ghost s = reader.bytes();
    let packet_size: usize = format.packet_size();
    let sync: usize = format.sync_offset();
    let n: u64 = if end - pos > SEEK_WINDOW { SEEK_WINDOW } else { end - pos };
    let _ = reader.seek_to(pos);
    let buf = match reader.read_bytes(n) {
        Ok(buf) => buf,
        Err(_) => {
            return None;
        },
    };
    let len: usize = buf.len();
    let ghost stop = window_end(pos as int, end as int);
    assert(stop == pos + len);
    if len < sync + packet_size {
        return None;
    }
    let limit: usize = len - sync - packet_size;
    let mut i: usize = 0;
    while i < limit && !(buf[i + sync] == SYNC_BYTE && buf[i + sync + packet_size] == SYNC_BYTE)
        invariant
            i <= limit,
            limit + sync + packet_size == len == buf@.len(),
            packet_size == format.size(),
            sync == format.sync(),
            pos + len <= s.len(),
            buf@ == s.subrange(pos as int, pos + len),
            first_pair(s, pos as int, pos + limit, format) == first_pair(
                s,
                pos + i,
                pos + limit,
                format,
            ),
        decreases limit - i,
    {
        i += 1;
    }
    if i == limit {
        return None;
    }
    match time_in_buffer(buf.as_slice(), i, format, Ghost(s), Ghost(pos as int)) {
        Some(t) => Some((pos + i as u64, t)),
        None => None,
    }
}

/// Finds where reading starts for display sets from a time in ticks on, instead
/// of at `pos`, by probing the times of the stream. It is close in front of the
/// time, and what is in front of it is not read, other than by the probes.
pub fn find_time_start<R: Source>(
    reader: &mut SeekBufReader<R>,
    pos: u64,
    end: u64,
    start: u64,
    format: PacketFormat,
) -> (r: u64)
    ensures
        final(reader).bytes() == old(reader).bytes(),
        r == time_start(old(reader).bytes(), pos as int, end as int, start, format),
        pos <= r,
        pos < end ==> r < end,
        r == pos || is_packet_before(
            old(reader).bytes(),
            r as int,
            end as int,
            seek_target(start),
            format,
        ),
        ({
            let reads = time_start_reads(
                old(reader).bytes(),
                pos as int,
                end as int,
                start,
                format,
            );
            &&& final(reader).consumed() == counted(old(reader).consumed(), reads)
            &&& 0 <= reads <= SEEK_PROBES * SEEK_WINDOW
        }),
{
    let ghost s = reader.bytes();
    let target: u64 = if start >= SEEK_LEAD { start - SEEK_LEAD } else { 0 };
    let ghost goal = time_start(s, pos as int, end as int, start, format);
    let ghost reads = time_start_reads(s, pos as int, end as int, start, format);
    let ghost mut done: int = 0;
    let mut lo: u64 = pos;
    let mut hi: u64 = end;
    let mut n: u64 = SEEK_PROBES;
    proof {
        search_reads_windows(s, n as nat, lo as int, hi as int, end as int, target, format);
        search_ends_in_front(s, n as nat, lo as int, hi as int, end as int, target, format);
    }
    while n > 0 && hi > lo && hi - lo > SEEK_MARGIN
        invariant
            reader.bytes() == s,
            s == old(reader).bytes(),
            n <= SEEK_PROBES,
            hi <= end,
            done >= 0,
            reader.consumed() == counted(old(reader).consumed(), done),
            reads == time_start_reads(s, pos as int, end as int, start, format),
            0 <= reads <= SEEK_PROBES * SEEK_WINDOW,
            reads == done + time_search_reads(
                s,
                n as nat,
                lo as int,
                hi as int,
                end as int,
                target,
                format,
            ),
            goal == time_start(s, pos as int, end as int, start, format),
            goal == time_search(s, n as nat, lo as int, hi as int, end as int, target, format),
        decreases n,
    {
        let mid: u64 = lo + (hi - lo) / 2;
        n -= 1;
        proof {
            done = done + probe_reads(s, mid as int, end as int);
        }
        match probe_packet(reader, mid, end, format) {
            Some((p, t)) => {
                if t <= target {
                    lo = p;
                } else {
                    hi = mid;
                }
            },
            None => {
                hi = mid;
            },
        }
    }
    lo
}

} // verus!
