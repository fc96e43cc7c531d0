//! Transport stream packets.
use vstd::prelude::*;
use crate::error::{ErrorView, IoError, PgsError};
use crate::io::reader::{counted, SeekBufReader, Source};
use crate::text::{hexadecimal, push_hex};

verus! {

/// The first byte of a transport stream packet.
pub const SYNC_BYTE: u8 = 0x47;

/// The size of a transport stream packet.
pub const TS_PACKET_SIZE: usize = 188;

/// The size of an M2TS packet: a timecode of four bytes and a transport stream
/// packet.
pub const M2TS_PACKET_SIZE: usize = 192;

/// The number of packets that have to be in step for a format to be detected.
pub const SYNC_CHECK_COUNT: usize = 5;

/// The number of bytes that are searched at a time for a packet.
pub const SCAN_CHUNK: u64 = 65536;

/// The format of packets.
#[derive(Debug, Clone, Copy, PartialEq, Eq, Structural)]
pub enum PacketFormat {
    /// 192 bytes: a timecode of four bytes and a packet.
    M2ts,
    /// 188 bytes: a packet.
    RawTs,
}

impl PacketFormat {
    /// The size of a packet.
    pub open spec fn size(self) -> int {
        match self {
            PacketFormat::M2ts => 192,
            PacketFormat::RawTs => 188,
        }
    }

    /// Where in a packet the sync byte is.
    pub open spec fn sync(self) -> int {
        match self {
            PacketFormat::M2ts => 4,
            PacketFormat::RawTs => 0,
        }
    }

    /// The size of a packet.
    pub fn packet_size(self) -> (r: usize)
        ensures
            r == self.size(),
    {
        match self {
            PacketFormat::M2ts => M2TS_PACKET_SIZE,
            PacketFormat::RawTs => TS_PACKET_SIZE,
        }
    }

    /// Where in a packet the sync byte is.
    pub fn sync_offset(self) -> (r: usize)
        ensures
            r == self.sync(),
    {
        match self {
            PacketFormat::M2ts => 4,
            PacketFormat::RawTs => 0,
        }
    }
}

/// The header of a packet.
#[derive(Debug, Clone, Copy, PartialEq, Eq, Structural)]
pub struct TsHeader {
    /// Whether a payload unit starts in the packet.
    pub pusi: bool,
    /// The packet identifier (13 bits).
    pub pid: u16,
    /// Whether the packet has an adaptation field (2) and a payload (1).
    pub adaptation_field_control: u8,
    /// The continuity counter (4 bits).
    pub continuity_counter: u8,
}

/// The packet identifier in the second and third bytes of a header.
pub open spec fn pid_of(high: u8, low: u8) -> u16 {
    (high % 32 * 256 + low) as u16
}

/// The packet identifier in the second and third bytes of a header.
pub fn pid_from(high: u8, low: u8) -> (r: u16)
    ensures
        r == pid_of(high, low),
{
    (high % 32) as u16 * 256 + low as u16
}

/// The header in the first four bytes of a packet.
pub open spec fn header_of(b: Seq<u8>) -> Result<TsHeader, ErrorView> {
    if b[0] != SYNC_BYTE {
        Err(ErrorView::InvalidTs("expected sync 0x47, got 0x"@ + hexadecimal(b[0] as nat, 2)))
    } else {
        Ok(
            TsHeader {
                pusi: b[1] / 64 % 2 == 1,
                pid: pid_of(b[1], b[2]),
                adaptation_field_control: (b[3] / 16 % 4) as u8,
                continuity_counter: (b[3] % 16) as u8,
            },
        )
    }
}

impl TsHeader {
    /// Whether the packet has a payload.
    pub open spec fn carries_payload(self) -> bool {
        self.adaptation_field_control % 2 == 1
    }

    /// Whether the packet has an adaptation field.
    pub open spec fn carries_adaptation(self) -> bool {
        self.adaptation_field_control / 2 % 2 == 1
    }

    /// Parses a header, which starts with the sync byte.
    pub fn parse(bytes: &[u8; 4]) -> (r: Result<TsHeader, PgsError>)
        ensures
            match (r, header_of(bytes@)) {
                (Ok(h), Ok(v)) => h == v,
                (Err(e), Err(v)) => e@ == v,
                _ => false,
            },
    {
        if bytes[0] != SYNC_BYTE {
            let mut text = "expected sync 0x47, got 0x".to_owned();
            push_hex(&mut text, bytes[0] as u64, 2);
            return Err(PgsError::InvalidTs(text));
        }
        Ok(
            TsHeader {
                pusi: bytes[1] / 64 % 2 == 1,
                pid: pid_from(bytes[1], bytes[2]),
                adaptation_field_control: bytes[3] / 16 % 4,
                continuity_counter: bytes[3] % 16,
            },
        )
    }

    /// Whether the packet has a payload.
    pub fn has_payload(self) -> (r: bool)
        ensures
            r == self.carries_payload(),
    {
        self.adaptation_field_control % 2 == 1
    }

    /// Whether the packet has an adaptation field.
    pub fn has_adaptation_field(self) -> (r: bool)
        ensures
            r == self.carries_adaptation(),
    {
        self.adaptation_field_control / 2 % 2 == 1
    }
}

/// Whether the sync byte is at `first` and then every `size` bytes, `count`
/// times.
pub open spec fn in_step(b: Seq<u8>, first: int, size: int, count: nat) -> bool
    decreases count,
{
    count == 0 || (first < b.len() && b[first] == SYNC_BYTE && in_step(
        b,
        first + size,
        size,
        (count - 1) as nat,
    ))
}

/// The packet format of a file, by the sync bytes at its start.
pub open spec fn detected_format(s: Seq<u8>) -> Result<PacketFormat, ErrorView> {
    if s.len() < 1152 {
        Err(ErrorView::Io(IoError::UnexpectedEof))
    } else if in_step(s, 4, 192, SYNC_CHECK_COUNT as nat) {
        Ok(PacketFormat::M2ts)
    } else if in_step(s, 0, 188, SYNC_CHECK_COUNT as nat) {
        Ok(PacketFormat::RawTs)
    } else {
        Err(ErrorView::InvalidTs("no valid TS sync pattern found"@))
    }
}

/// The number of bytes at the start of a file that are read to detect its packet
/// format.
pub open spec fn detection_reads(s: Seq<u8>) -> int {
    if s.len() < 1152 {
        0
    } else {
        1152
    }
}

fn check_sync_pattern(
    buf: &[u8],
    first_offset: usize,
    packet_size: usize,
    count: usize,
) -> (r: bool)
    requires
        first_offset <= 1000,
        packet_size <= 1000,
        count <= 1000,
    ensures
        r == in_step(buf@, first_offset as int, packet_size as int, count as nat),
{
    let mut i: usize = 0;
    let mut offset: usize = first_offset;
    while i < count
        invariant
            i <= count <= 1000,
            packet_size <= 1000,
            offset <= 1000 + 1000 * i,
            in_step(buf@, first_offset as int, packet_size as int, count as nat) == in_step(
                buf@,
                offset as int,
                packet_size as int,
                (count - i) as nat,
            ),
        decreases count - i,
    {
        if offset >= buf.len() || buf[offset] != SYNC_BYTE {
            return false;
        }
        offset += packet_size;
        i += 1;
    }
    true
}

/// Detects the packet format by the sync bytes at the start of the file.
pub fn detect_packet_format<R: Source>(reader: &mut SeekBufReader<R>) -> (r: Result<
    PacketFormat,
    PgsError,
>)
    ensures
        final(reader).bytes() == old(reader).bytes(),
        final(reader).at() == detection_reads(old(reader).bytes()),
        final(reader).consumed() == counted(
            old(reader).consumed(),
            detection_reads(old(reader).bytes()),
        ),
        match (r, detected_format(old(reader).bytes())) {
            (Ok(f), Ok(v)) => f == v,
            (Err(e), Err(v)) => e@ == v,
            _ => false,
        },
{
    let ghost s = reader.bytes();
    let _ = reader.seek_to(0);
    let buf = match reader.read_bytes(1152) {
        Ok(buf) => buf,
        Err(e) => {
            return Err(e);
        },
    };
    proof {
        lemma_in_step_prefix(s, buf@, 4, 192);
        lemma_in_step_prefix(s, buf@, 0, 188);
    }
    if check_sync_pattern(buf.as_slice(), 4, M2TS_PACKET_SIZE, SYNC_CHECK_COUNT) {
        return Ok(PacketFormat::M2ts);
    }
    if check_sync_pattern(buf.as_slice(), 0, TS_PACKET_SIZE, SYNC_CHECK_COUNT) {
        return Ok(PacketFormat::RawTs);
    }
    Err(PgsError::InvalidTs("no valid TS sync pattern found".to_owned()))
}

proof fn lemma_in_step_prefix(s: Seq<u8>, b: Seq<u8>, first: int, size: int)
    requires
        s.len() >= 1152,
        b == s.subrange(0, 1152),
        0 <= first <= 4,
        0 < size <= 192,
    ensures
        in_step(b, first, size, 5) == in_step(s, first, size, 5),
{
    reveal_with_fuel(in_step, 6);
}

/// The header and the payload of a packet of 188 bytes. A packet without a
/// payload has an empty one; an adaptation field stands in front of it.
pub open spec fn payload_of(p: Seq<u8>) -> Result<(TsHeader, Seq<u8>), ErrorView> {
    match header_of(p) {
        Err(e) => Err(e),
        Ok(header) => if !header.carries_payload() {
            Ok((header, Seq::empty()))
        } else if !header.carries_adaptation() {
            Ok((header, p.skip(4)))
        } else if 5 + p[4] > 188 {
            Err(ErrorView::InvalidTs("adaptation field exceeds packet"@))
        } else {
            Ok((header, p.skip(5 + p[4])))
        },
    }
}

/// Takes the header and the payload from a packet.
pub fn extract_payload(ts_data: &[u8; 188]) -> (r: Result<(TsHeader, &[u8]), PgsError>)
    ensures
        match (r, payload_of(ts_data@)) {
            (Ok((h, p)), Ok((v, w))) => h == v && p@ == w,
            (Err(e), Err(v)) => e@ == v,
            _ => false,
        },
{
    let all: &[u8] = ts_data;
    assert(all@ == ts_data@);
    let head = [ts_data[0], ts_data[1], ts_data[2], ts_data[3]];
    let header = match TsHeader::parse(&head) {
        Ok(h) => h,
        Err(e) => {
            return Err(e);
        },
    };
    if !header.has_payload() {
        let none = vstd::slice::slice_subrange(all, 0, 0);
        assert(none@ =~= Seq::<u8>::empty());
        return Ok((header, none));
    }
    let offset: usize = if header.has_adaptation_field() { 5 + ts_data[4] as usize } else { 4 };
    if offset > TS_PACKET_SIZE {
        return Err(PgsError::InvalidTs("adaptation field exceeds packet".to_owned()));
    }
    let payload = vstd::slice::slice_subrange(all, offset, TS_PACKET_SIZE);
    assert(payload@ =~= ts_data@.skip(offset as int));
    Ok((header, payload))
}

/// The packet at `pos`, without its timecode: nothing at the end of the file,
/// an error if it is not there as a whole.
pub open spec fn packet_at(s: Seq<u8>, pos: int, format: PacketFormat) -> Result<
    Option<Seq<u8>>,
    ErrorView,
> {
    if pos >= s.len() {
        Ok(None)
    } else if pos + format.size() > s.len() {
        Err(ErrorView::Io(IoError::PartialRead))
    } else {
        Ok(Some(s.subrange(pos + format.sync(), pos + format.sync() + 188)))
    }
}

/// A packet of 188 bytes from a larger buffer.
pub fn packet_from(buf: &[u8], at: usize) -> (r: [u8; 188])
    requires
        at + 188 <= buf@.len(),
    ensures
        r@ == buf@.subrange(at as int, at + 188),
{
    let mut ts_buf: [u8; 188] = [0u8; 188];
    let len: usize = buf.len();
    let mut i: usize = 0;
    while i < 188
        invariant
            i <= 188,
            at + 188 <= len == buf@.len(),
            ts_buf@.len() == 188,
            forall|k: int| 0 <= k < i ==> ts_buf@[k] == buf@[at + k],
        decreases 188 - i,
    {
        ts_buf[i] = buf[at + i];
        i += 1;
    }
    assert(ts_buf@ =~= buf@.subrange(at as int, at + 188));
    ts_buf
}

/// Reads the next packet, without its timecode. Returns `None` at the end of
/// the file.
pub fn read_next_packet<R: Source>(reader: &mut SeekBufReader<R>, format: PacketFormat) -> (r:
    Result<Option<[u8; 188]>, PgsError>)
    ensures
        final(reader).bytes() == old(reader).bytes(),
        final(reader).consumed() == counted(
            old(reader).consumed(),
            final(reader).at() - old(reader).at(),
        ),
        match (r, packet_at(old(reader).bytes(), old(reader).at() as int, format)) {
            (Ok(Some(p)), Ok(Some(v))) => p@ == v && final(reader).at() == old(reader).at()
                + format.size(),
            (Ok(None), Ok(None)) => final(reader).at() == old(reader).at(),
            (Err(e), Err(v)) => e@ == v && final(reader).at() == old(reader).bytes().len(),
            _ => false,
        },
{
    let packet_size: usize = format.packet_size();
    let mut buf: Vec<u8> = vec![0u8; packet_size];
    match reader.try_read_exact(buf.as_mut_slice()) {
        Ok(true) => {
            let p = packet_from(buf.as_slice(), format.sync_offset());
            assert(p@ =~= old(reader).bytes().subrange(
                old(reader).at() + format.sync(),
                old(reader).at() + format.sync() + 188,
            ));
            Ok(Some(p))
        },
        Ok(false) => Ok(None),
        Err(e) => Err(e),
    }
}

/// Whether a packet may start at `p`: the sync byte is in its place, and again
/// one packet later.
pub open spec fn packet_pair_at(s: Seq<u8>, p: int, format: PacketFormat) -> bool {
    s[p + format.sync()] == SYNC_BYTE && s[p + format.sync() + format.size()] == SYNC_BYTE
}

/// The first position from `lo` on, in front of `hi`, where a packet may start.
pub open spec fn first_pair(s: Seq<u8>, lo: int, hi: int, format: PacketFormat) -> Option<int>
    decreases hi - lo,
{
    if lo >= hi {
        None
    } else if packet_pair_at(s, lo, format) {
        Some(lo)
    } else {
        first_pair(s, lo + 1, hi, format)
    }
}

/// The end of a search of `limit` bytes from `start` on: there, or at the end
/// of the data.
pub open spec fn search_end(s: Seq<u8>, start: int, limit: int) -> int {
    if start + limit <= s.len() {
        start + limit
    } else {
        s.len() as int
    }
}

/// Where packets are found again from `pos` on, in front of `end`: at the first
/// position where a packet may start with the next sync byte in front of the
/// end.
pub open spec fn resync_from(s: Seq<u8>, pos: int, end: int, format: PacketFormat) -> Option<int> {
    first_pair(s, pos, end - format.sync() - format.size(), format)
}

/// The number of bytes that a search for packets from `pos` on, in front of
/// `end`, reads.
///
/// The data is read in chunks, up to the one with both sync bytes of what is
/// found. Each chunk starts in front of the end of the one before it, so that no
/// position is left out.
pub open spec fn resync_reads(s: Seq<u8>, pos: int, end: int, format: PacketFormat) -> int
    decreases end - pos,
{
    let overlap = format.sync() + format.size();
    if pos + overlap >= end {
        0
    } else if end - pos <= SCAN_CHUNK {
        end - pos
    } else if first_pair(s, pos, pos + SCAN_CHUNK - overlap, format) is Some {
        SCAN_CHUNK as int
    } else {
        SCAN_CHUNK + resync_reads(s, pos + SCAN_CHUNK - overlap, end, format)
    }
}

/// What a search finds is a position where a packet may start, and there is none
/// in front of it. Where it finds nothing, there is none at all.
pub proof fn first_pair_is_first(s: Seq<u8>, lo: int, hi: int, format: PacketFormat)
    ensures
        match first_pair(s, lo, hi, format) {
            Some(p) => {
                &&& lo <= p < hi
                &&& packet_pair_at(s, p, format)
                &&& forall|q: int| lo <= q < p ==> !(#[trigger] packet_pair_at(s, q, format))
            },
            None => forall|q: int| lo <= q < hi ==> !(#[trigger] packet_pair_at(s, q, format)),
        },
    decreases hi - lo,
{
    if lo < hi && !packet_pair_at(s, lo, format) {
        first_pair_is_first(s, lo + 1, hi, format);
    }
}

/// A search goes on where an earlier part of it found nothing.
proof fn lemma_first_pair_split(s: Seq<u8>, lo: int, mid: int, hi: int, format: PacketFormat)
    requires
        lo <= mid <= hi,
    ensures
        first_pair(s, lo, hi, format) == match first_pair(s, lo, mid, format) {
            Some(p) => Some(p),
            None => first_pair(s, mid, hi, format),
        },
    decreases mid - lo,
{
    if lo < mid && !packet_pair_at(s, lo, format) {
        lemma_first_pair_split(s, lo + 1, mid, hi, format);
    }
}

/// Looks for the next packet after the sync was lost, from the reader's position
/// on and within `scan_limit` bytes.
///
/// Moves the reader to the packet that was found and returns its position. If
/// there is none, the reader is where no packet can start any more.
pub fn resync<R: Source>(
    reader: &mut SeekBufReader<R>,
    format: PacketFormat,
    scan_limit: u64,
) -> (r: Result<Option<u64>, PgsError>)
    ensures
        final(reader).bytes() == old(reader).bytes(),
        ({
            let s = old(reader).bytes();
            let start = old(reader).at() as int;
            let end = search_end(s, start, scan_limit as int);
            &&& final(reader).consumed() == counted(
                old(reader).consumed(),
                resync_reads(s, start, end, format),
            )
            &&& r matches Ok(Some(p)) ==> {
                &&& start <= p
                &&& p + format.sync() + format.size() < end
                &&& packet_pair_at(s, p as int, format)
                &&& forall|q: int| start <= q < p ==> !(#[trigger] packet_pair_at(s, q, format))
            }
            &&& match (r, resync_from(s, start, end, format)) {
                (Ok(Some(p)), Some(v)) => p == v && final(reader).at() == p,
                (Ok(None), None) => final(reader).at() == if start + format.sync()
                    + format.size() < end {
                    end - format.sync() - format.size()
                } else {
                    start
                },
                _ => false,
            }
        }),
{
    let ghost s = reader.bytes();
    let packet_size: u64 = format.packet_size() as u64;
    let sync: u64 = format.sync_offset() as u64;
    let overlap: u64 = sync + packet_size;
    let start: u64 = reader.position();
    let size: u64 = match reader.file_size() {
        Ok(size) => size,
        Err(_) => {
            return Ok(None);
        },
    };
    let end: u64 = if start <= size && scan_limit <= size - start {
        start + scan_limit
    } else {
        size
    };
    let ghost goal = resync_from(s, start as int, end as int, format);
    let ghost reads = resync_reads(s, start as int, end as int, format);
    let ghost mut done: int = 0;
    let mut at: u64 = start;
    while at < end && end - at > overlap
        invariant
            reader.bytes() == s,
            s == old(reader).bytes(),
            reader.at() == at,
            at >= start,
            at > start ==> at + overlap <= end,
            packet_size == format.size(),
            sync == format.sync(),
            overlap == sync + packet_size,
            start == old(reader).at(),
            end == search_end(s, start as int, scan_limit as int),
            end <= s.len(),
            goal == resync_from(s, start as int, end as int, format),
            reads == resync_reads(s, start as int, end as int, format),
            goal == resync_from(s, at as int, end as int, format),
            done >= 0,
            reader.consumed() == counted(old(reader).consumed(), done),
            reads == done + resync_reads(s, at as int, end as int, format),
        decreases end - at,
    {
        let n: u64 = if end - at < SCAN_CHUNK { end - at } else { SCAN_CHUNK };
        let buf = match reader.read_bytes(n) {
            Ok(buf) => buf,
            Err(_) => {
                return Ok(None);
            },
        };
        proof {
            lemma_first_pair_split(s, at as int, at + n - overlap, end - overlap, format);
        }
        let limit: usize = (n - overlap) as usize;
        let mut i: usize = 0;
        while i < limit
            invariant
                i <= limit,
                buf@ == s.subrange(at as int, at + n),
                at + n <= end <= s.len(),
                limit == n - overlap,
                packet_size == format.size(),
                sync == format.sync(),
                overlap == sync + packet_size,
                reader.bytes() == s,
                s == old(reader).bytes(),
                start == old(reader).at(),
                end == search_end(s, start as int, scan_limit as int),
                end - at > overlap,
                n == if end - at < SCAN_CHUNK {
                    end - at
                } else {
                    SCAN_CHUNK as int
                },
                goal == resync_from(s, start as int, end as int, format),
                reads == resync_reads(s, start as int, end as int, format),
                done >= 0,
                reader.consumed() == counted(old(reader).consumed(), done + n),
                reads == done + resync_reads(s, at as int, end as int, format),
                goal == match first_pair(s, at as int, at + limit, format) {
                    Some(p) => Some(p),
                    None => first_pair(s, at + limit, end - overlap, format),
                },
                first_pair(s, at as int, at + limit, format) == first_pair(
                    s,
                    at + i,
                    at + limit,
                    format,
                ),
            decreases limit - i,
        {
            let first: usize = i + sync as usize;
            let second: usize = first + packet_size as usize;
            if buf[first] == SYNC_BYTE && buf[second] == SYNC_BYTE {
                let found: u64 = at + i as u64;
                proof {
                    first_pair_is_first(s, start as int, end - overlap, format);
                }
                let _ = reader.seek_to(found);
                return Ok(Some(found));
            }
            i += 1;
        }
        proof {
            done = done + n;
        }
        at = at + n - overlap;
        let _ = reader.seek_to(at);
    }
    Ok(None)
}

/// The next packet boundary at or behind `pos`.
pub fn align_to_packet(pos: u64, packet_size: u64) -> (r: u64)
    requires
        packet_size > 0,
        pos % packet_size == 0 || pos + packet_size <= u64::MAX,
    ensures
        r % packet_size == 0,
        pos <= r < pos + packet_size,
{
    let rem: u64 = pos % packet_size;
    if rem == 0 {
        pos
    } else {
        proof {
            lemma_aligned(pos as int, packet_size as int);
        }
        pos + (packet_size - rem)
    }
}

proof fn lemma_aligned(pos: int, size: int)
    requires
        pos >= 0,
        size > 0,
    ensures
        (pos + (size - pos % size)) % size == 0,
        0 <= pos % size < size,
{
    vstd::arithmetic::div_mod::lemma_fundamental_div_mod(pos, size);
    let q = pos / size;
    assert(pos + (size - pos % size) == size * (q + 1)) by (nonlinear_arith)
        requires
            pos == size * q + pos % size,
    ;
    vstd::arithmetic::div_mod::lemma_mod_multiples_basic(q + 1, size);
    assert(size * (q + 1) == (q + 1) * size) by (nonlinear_arith);
}

/// There is only one packet boundary at or behind a position and within one
/// packet of it.
pub proof fn alignment_is_unique(pos: int, size: int, a: int, b: int)
    requires
        size > 0,
        a % size == 0,
        b % size == 0,
        pos <= a < pos + size,
        pos <= b < pos + size,
    ensures
        a == b,
{
    vstd::arithmetic::div_mod::lemma_fundamental_div_mod(a, size);
    vstd::arithmetic::div_mod::lemma_fundamental_div_mod(b, size);
    let x = a / size;
    let y = b / size;
    assert(x == y) by (nonlinear_arith)
        requires
            size > 0,
            a == size * x,
            b == size * y,
            a - b < size,
            b - a < size,
    ;
}

/// Where the first packet of a buffer starts: within the size of one packet,
/// with its sync byte and that of the next packet in the buffer.
pub open spec fn sync_start(data: Seq<u8>, format: PacketFormat) -> Option<int> {
    let last = data.len() - format.sync() - format.size();
    first_pair(
        data,
        0,
        if last < format.size() {
            last
        } else {
            format.size()
        },
        format,
    )
}

/// Finds where the first packet of a buffer starts.
pub fn find_sync_start(data: &[u8], format: PacketFormat) -> (r: Option<usize>)
    ensures
        match (r, sync_start(data@, format)) {
            (Some(i), Some(v)) => i == v && i + format.sync() + format.size() < data@.len(),
            (None, None) => true,
            _ => false,
        },
{
    let packet_size: usize = format.packet_size();
    let sync: usize = format.sync_offset();
    if data.len() < sync + packet_size + 1 {
        return None;
    }
    let len: usize = data.len();
    let last: usize = len - sync - packet_size;
    let limit: usize = if last < packet_size { last } else { packet_size };
    let mut i: usize = 0;
    while i < limit
        invariant
            i <= limit,
            packet_size == format.size(),
            sync == format.sync(),
            len == data@.len(),
            limit + sync + packet_size <= len,
            sync_start(data@, format) == first_pair(data@, i as int, limit as int, format),
        decreases limit - i,
    {
        if data[i + sync] == SYNC_BYTE && data[i + sync + packet_size] == SYNC_BYTE {
            return Some(i);
        }
        i += 1;
    }
    None
}

} // verus!
