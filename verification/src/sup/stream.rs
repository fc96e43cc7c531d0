//! Display sets of a raw PGS file, one at a time.
use vstd::prelude::*;
use crate::bytes::{be16, be32, u16_be, u32_be};
use crate::error::{ErrorView, IoError, PgsError};
use crate::io::reader::{counted, SeekBufReader, Source};
use crate::pgs::display_set::{
    fresh_assembler, pushed, AssemblerView, DisplaySetAssembler, DisplaySetView,
};
use crate::pgs::segment::{PgsSegment, SegmentType, SegmentView, HEADER_SIZE, PGS_MAGIC};
use crate::text::{hexadecimal, push_hex};
use crate::track::{ContainerFormat, TrackDisplaySet, TrackSetView};

verus! {

/// How far from the end the last segment is looked for.
pub const SUP_TAIL_SCAN: u64 = 65536;

/// How far in front of an estimated position reading starts, at most.
pub const SEEK_MARGIN: u64 = 2097152;

/// The error for a segment that does not start with "PG".
pub open spec fn magic_error(a: u8, b: u8) -> ErrorView {
    ErrorView::InvalidPgs(
        "expected PG magic (0x5047), got 0x"@ + hexadecimal(a as nat, 2) + hexadecimal(b as nat, 2),
    )
}

/// The error for a segment of unknown kind.
pub open spec fn kind_error(b: u8) -> ErrorView {
    ErrorView::InvalidPgs("unknown segment type 0x"@ + hexadecimal(b as nat, 2))
}

/// The error for a segment that does not start with "PG".
pub fn magic_failure(a: u8, b: u8) -> (r: PgsError)
    ensures
        r@ == magic_error(a, b),
{
    let mut text = "expected PG magic (0x5047), got 0x".to_owned();
    push_hex(&mut text, a as u64, 2);
    push_hex(&mut text, b as u64, 2);
    PgsError::InvalidPgs(text)
}

/// The error for a segment of unknown kind.
pub fn kind_failure(b: u8) -> (r: PgsError)
    ensures
        r@ == kind_error(b),
{
    let mut text = "unknown segment type 0x".to_owned();
    push_hex(&mut text, b as u64, 2);
    PgsError::InvalidPgs(text)
}

/// The segment at `pos` and the position behind it, or nothing at the end of
/// the file. A segment that is malformed or not there as a whole is an error.
pub open spec fn file_segment_at(s: Seq<u8>, pos: int) -> Result<
    Option<(SegmentView, int)>,
    ErrorView,
> {
    if pos >= s.len() {
        Ok(None)
    } else if pos + 13 > s.len() {
        Err(ErrorView::Io(IoError::PartialRead))
    } else if s[pos] != 0x50 || s[pos + 1] != 0x47 {
        Err(magic_error(s[pos], s[pos + 1]))
    } else {
        match SegmentType::of_byte(s[pos + 10]) {
            None => Err(kind_error(s[pos + 10])),
            Some(segment_type) => {
                let end = pos + 13 + be16(s, pos + 11);
                if end > s.len() {
                    Err(ErrorView::Io(IoError::UnexpectedEof))
                } else {
                    Ok(
                        Some(
                            (
                                SegmentView {
                                    pts: be32(s, pos + 2) as u64,
                                    dts: be32(s, pos + 6) as u64,
                                    segment_type,
                                    payload: s.subrange(pos + 13, end),
                                },
                                end,
                            ),
                        ),
                    )
                }
            },
        }
    }
}

/// What reading on from `pos` with an assembler gives: the next display set, an
/// error, or nothing at the end of the file; and the position and the assembler
/// behind it.
pub open spec fn sup_next(s: Seq<u8>, pos: int, a: AssemblerView) -> (
    Option<Result<DisplaySetView, ErrorView>>,
    int,
    AssemblerView,
)
    decreases s.len() - pos,
{
    match file_segment_at(s, pos) {
        Err(e) => (Some(Err(e)), pos, a),
        Ok(None) => (None, pos, a),
        Ok(Some((segment, next))) => {
            let (after, set) = pushed(a, segment);
            match set {
                Some(ds) => (Some(Ok(ds)), next, after),
                None => if next > pos {
                    sup_next(s, next, after)
                } else {
                    (None, pos, a)
                },
            }
        },
    }
}

/// The number of bytes of a segment's header at `pos` that are there.
pub open spec fn header_reads(s: Seq<u8>, pos: int) -> int {
    if pos + 13 <= s.len() {
        13
    } else if pos < s.len() {
        s.len() - pos
    } else {
        0
    }
}

/// The number of bytes that reading on from `pos` with an assembler reads: all
/// up to the position behind the display set, and, where a malformed segment is
/// found, its header.
pub open spec fn sup_next_reads(s: Seq<u8>, pos: int, a: AssemblerView) -> int {
    let (outcome, next, _) = sup_next(s, pos, a);
    next - pos + if outcome matches Some(Err(_)) {
        header_reads(s, next)
    } else {
        0
    }
}

/// A display set with the one track of a raw PGS file.
pub open spec fn sup_set(ds: DisplaySetView) -> TrackSetView {
    TrackSetView {
        track_id: 0,
        language: None,
        container: ContainerFormat::Sup,
        display_set: ds,
    }
}

/// Reads the display sets of a raw PGS file.
pub struct SupExtractorState<R: Source> {
    reader: SeekBufReader<R>,
    assembler: DisplaySetAssembler,
    done: bool,
}

/// Where the bytes "PG" are next, looking from `pos` on; the end of the file if
/// they are nowhere.
pub open spec fn magic_from(s: Seq<u8>, pos: int) -> int
    decreases s.len() - pos,
{
    if pos < 0 || pos >= s.len() {
        pos
    } else if s[pos] == 0x50 && pos + 1 < s.len() && s[pos + 1] == 0x47 {
        pos
    } else {
        magic_from(s, pos + 1)
    }
}

/// The number of bytes that looking for "PG" from `pos` on reads: all up to the
/// end of what was found, or of the file.
pub open spec fn magic_reads(s: Seq<u8>, pos: int) -> int {
    let found = magic_from(s, pos);
    if found < s.len() {
        found + 2 - pos
    } else {
        found - pos
    }
}

/// The timestamp of the last segment header in `data` from `i` on, or `last` if
/// there is none.
pub open spec fn last_pts_from(data: Seq<u8>, i: int, last: Option<u64>) -> Option<u64>
    decreases
            (if i < data.len() {
                data.len() - i
            } else {
                0
            }),
{
    if i < 0 || i + 13 > data.len() {
        last
    } else if data[i] == 0x50 && data[i + 1] == 0x47 {
        last_pts_from(data, i + 13 + be16(data, i + 11), Some(be32(data, i + 2) as u64))
    } else {
        last_pts_from(data, i + 1, last)
    }
}

/// The timestamps of the first segment and of the last one near the end of a
/// file, if it starts with a segment.
pub open spec fn sup_span(s: Seq<u8>) -> Option<(u64, u64)> {
    if s.len() < 13 || s[0] != 0x50 || s[1] != 0x47 {
        None
    } else {
        let start = if s.len() > SUP_TAIL_SCAN {
            s.len() - SUP_TAIL_SCAN
        } else {
            0
        };
        match last_pts_from(s.skip(start), 0, None) {
            Some(last) => Some((be32(s, 2) as u64, last)),
            None => None,
        }
    }
}

/// The number of bytes that are read for the timestamps of the first segment and
/// of the last one near the end of a file.
pub open spec fn sup_span_reads(s: Seq<u8>) -> int {
    if s.len() < 13 {
        0
    } else if s[0] != 0x50 || s[1] != 0x47 {
        13
    } else if s.len() > SUP_TAIL_SCAN {
        13 + SUP_TAIL_SCAN
    } else {
        13 + s.len() as int
    }
}

/// A margin in front of an estimated position.
pub open spec fn in_front_of(s: Seq<u8>, estimated: u64) -> int {
    let hundredth = s.len() as int / 100;
    let margin = if hundredth < SEEK_MARGIN {
        hundredth
    } else {
        SEEK_MARGIN as int
    };
    if estimated > margin {
        estimated - margin
    } else {
        0
    }
}

/// Where reading starts for an estimated position: at the next segment behind
/// a margin in front of it.
pub open spec fn sup_start(s: Seq<u8>, estimated: u64) -> int {
    magic_from(s, in_front_of(s, estimated))
}

/// Finds the timestamp of the last segment header in a block of data.
pub fn find_last_sup_pts(data: &[u8]) -> (r: Option<u64>)
    ensures
        r == last_pts_from(data@, 0, None),
{
    let mut last_pts: Option<u64> = None;
    let mut i: usize = 0;
    let len: usize = data.len();
    while i <= len && len - i >= HEADER_SIZE
        invariant
            len == data@.len(),
            last_pts_from(data@, 0, None) == last_pts_from(data@, i as int, last_pts),
        decreases len - i,
    {
        if data[i] == PGS_MAGIC[0] && data[i + 1] == PGS_MAGIC[1] {
            last_pts = Some(u32_be(data, i + 2) as u64);
            let payload_len: usize = u16_be(data, i + 11) as usize;
            if len - i - HEADER_SIZE < payload_len {
                assert(last_pts_from(data@, i + 13 + payload_len, last_pts) == last_pts);
                return last_pts;
            }
            i += HEADER_SIZE + payload_len;
        } else {
            i += 1;
        }
    }
    last_pts
}

impl<R: Source> SupExtractorState<R> {
    /// The bytes of the file.
    pub closed spec fn bytes(&self) -> Seq<u8> {
        self.reader.bytes()
    }

    /// The position of the next segment.
    pub closed spec fn at(&self) -> u64 {
        self.reader.at()
    }

    /// The segments of an incomplete display set.
    pub closed spec fn assembler(&self) -> AssemblerView {
        self.assembler@
    }

    /// Whether the file has ended or was found malformed.
    pub closed spec fn is_done(&self) -> bool {
        self.done
    }

    /// The number of bytes that were read.
    pub closed spec fn consumed(&self) -> u64 {
        self.reader.consumed()
    }

    /// Reads from a reader's position on.
    pub fn new(reader: SeekBufReader<R>) -> (r: Self)
        ensures
            r.bytes() == reader.bytes(),
            r.at() == reader.at(),
            r.assembler() == fresh_assembler(),
            !r.is_done(),
            r.consumed() == reader.consumed(),
    {
        SupExtractorState { reader, assembler: DisplaySetAssembler::new(), done: false }
    }

    /// The number of bytes that were read.
    pub fn bytes_read(&self) -> (r: u64)
        ensures
            r == self.consumed(),
    {
        self.reader.bytes_read()
    }

    /// The extraction from the start of the file again. The bytes that are read
    /// are counted from `count` on.
    pub fn restarted(self, count: u64) -> (r: Self)
        ensures
            r.bytes() == self.bytes(),
            r.at() == 0,
            r.assembler() == fresh_assembler(),
            !r.is_done(),
            r.consumed() == count,
    {
        let mut reader = self.reader;
        let _ = reader.seek_to(0);
        reader.recount(count);
        SupExtractorState::new(reader)
    }

    /// The size of the file.
    pub fn file_size(&mut self) -> (r: u64)
        ensures
            r == old(self).bytes().len(),
            *final(self) == *old(self),
    {
        match self.reader.file_size() {
            Ok(n) => n,
            Err(_) => 0,
        }
    }

    /// Finds the timestamps of the first segment and of the last one near the
    /// end of the file. Reading starts over at the start of the file.
    pub fn pts_span(&mut self) -> (r: Option<(u64, u64)>)
        ensures
            r == sup_span(old(self).bytes()),
            final(self).bytes() == old(self).bytes(),
            final(self).consumed() == counted(
                old(self).consumed(),
                sup_span_reads(old(self).bytes()),
            ),
            final(self).at() == 0,
            final(self).assembler() == old(self).assembler(),
            final(self).is_done() == old(self).is_done(),
    {
        let size: u64 = self.file_size();
        let _ = self.reader.seek_to(0);
        let header = match self.reader.read_bytes(HEADER_SIZE as u64) {
            Ok(h) => h,
            Err(_) => {
                return None;
            },
        };
        let _ = self.reader.seek_to(0);
        if header[0] != PGS_MAGIC[0] || header[1] != PGS_MAGIC[1] {
            return None;
        }
        let first: u64 = u32_be(header.as_slice(), 2) as u64;
        let start: u64 = if size > SUP_TAIL_SCAN { size - SUP_TAIL_SCAN } else { 0 };
        let _ = self.reader.seek_to(start);
        let tail = match self.reader.read_bytes(size - start) {
            Ok(t) => t,
            Err(_) => {
                let _ = self.reader.seek_to(0);
                return None;
            },
        };
        let _ = self.reader.seek_to(0);
        assert(tail@ =~= self.reader.bytes().skip(start as int));
        match find_last_sup_pts(tail.as_slice()) {
            Some(last) => Some((first, last)),
            None => None,
        }
    }

    /// Moves to the next segment behind a margin in front of an estimated
    /// position.
    pub fn seek_to_estimate(&mut self, estimated: u64)
        ensures
            final(self).bytes() == old(self).bytes(),
            final(self).consumed() == counted(
                old(self).consumed(),
                magic_reads(old(self).bytes(), in_front_of(old(self).bytes(), estimated)),
            ),
            magic_reads(old(self).bytes(), in_front_of(old(self).bytes(), estimated)) >= 0,
            final(self).at() == sup_start(old(self).bytes(), estimated),
            final(self).assembler() == old(self).assembler(),
            final(self).is_done() == old(self).is_done(),
    {
        let size: u64 = self.file_size();
        let margin: u64 = if size / 100 < SEEK_MARGIN { size / 100 } else { SEEK_MARGIN };
        let start: u64 = if estimated > margin { estimated - margin } else { 0 };
        let _ = self.reader.seek_to(start);
        self.scan_to_pg_magic();
    }

    /// Moves to the next bytes "PG".
    fn scan_to_pg_magic(&mut self)
        ensures
            final(self).bytes() == old(self).bytes(),
            final(self).consumed() == counted(
                old(self).consumed(),
                magic_reads(old(self).bytes(), old(self).at() as int),
            ),
            magic_reads(old(self).bytes(), old(self).at() as int) >= 0,
            final(self).at() == magic_from(old(self).bytes(), old(self).at() as int),
            final(self).assembler() == old(self).assembler(),
            final(self).is_done() == old(self).is_done(),
    {
        let ghost s = self.bytes();
        let ghost goal = magic_from(s, self.at() as int);
        let mut started = false;
        loop
            invariant
                self.bytes() == s,
                self.at() >= old(self).at(),
                self.consumed() == counted(old(self).consumed(), self.at() - old(self).at()),
                s == old(self).bytes(),
                started ==> old(self).at() < self.at() <= s.len() && s[self.at() - 1] == 0x50,
                self.assembler() == old(self).assembler(),
                self.is_done() == old(self).is_done(),
                goal == magic_from(s, old(self).at() as int),
                goal == magic_from(
                    s,
                    if started {
                        self.at() - 1
                    } else {
                        self.at() as int
                    },
                ),
            decreases s.len() - self.at(),
        {
            let ghost pos = self.at() as int;
            let next = match self.reader.read_bytes(1) {
                Ok(b) => b,
                Err(_) => {
                    assert(magic_from(s, pos) == pos);
                    return ;
                },
            };
            if started && next[0] == PGS_MAGIC[1] {
                let pos: u64 = self.reader.position();
                let _ = self.reader.seek_to(pos - 2);
                return ;
            }
            assert(next@[0] == s[pos]);
            assert(goal == magic_from(s, pos));
            started = next[0] == PGS_MAGIC[0];
        }
    }

    /// Reads the next segment. Returns `None` at the end of the file.
    fn next_segment(&mut self) -> (r: Option<Result<PgsSegment, PgsError>>)
        ensures
            final(self).bytes() == old(self).bytes(),
            final(self).consumed() == counted(
                old(self).consumed(),
                final(self).at() - old(self).at(),
            ),
            final(self).assembler() == old(self).assembler(),
            final(self).is_done() == old(self).is_done(),
            match (r, file_segment_at(old(self).bytes(), old(self).at() as int)) {
                (None, Ok(None)) => final(self).at() == old(self).at(),
                (Some(Ok(seg)), Ok(Some((v, next)))) => seg@ == v && final(self).at() == next,
                (Some(Err(e)), Err(v)) => e@ == v && final(self).at() == old(self).at()
                    + header_reads(old(self).bytes(), old(self).at() as int),
                _ => false,
            },
    {
        let ghost s = self.bytes();
        let ghost pos = self.at() as int;
        let mut header: [u8; 13] = [0u8; 13];
        match self.reader.try_read_exact(&mut header) {
            Ok(true) => {},
            Ok(false) => {
                return None;
            },
            Err(e) => {
                return Some(Err(e));
            },
        }
        assert(forall|i: int| 0 <= i < 13 ==> header@[i] == s[pos + i]);
        if header[0] != PGS_MAGIC[0] || header[1] != PGS_MAGIC[1] {
            return Some(Err(magic_failure(header[0], header[1])));
        }
        let segment_type = match SegmentType::from_byte(header[10]) {
            Some(t) => t,
            None => {
                return Some(Err(kind_failure(header[10])));
            },
        };
        let pts: u64 = u32_be(&header, 2) as u64;
        let dts: u64 = u32_be(&header, 6) as u64;
        let payload_size: u64 = u16_be(&header, 11) as u64;
        match self.reader.read_bytes(payload_size) {
            Ok(payload) => {
                assert(payload@ =~= s.subrange(pos + 13, pos + 13 + payload_size));
                Some(Ok(PgsSegment { pts, dts, segment_type, payload }))
            },
            Err(e) => Some(Err(e)),
        }
    }

    /// Reads on to the next display set. Returns `None` at the end of the file
    /// and after an error.
    pub fn next_display_set(&mut self) -> (r: Option<Result<TrackDisplaySet, PgsError>>)
        ensures
            final(self).bytes() == old(self).bytes(),
            old(self).is_done() ==> r is None && *final(self) == *old(self),
            !old(self).is_done() ==> {
                let reads = sup_next_reads(
                    old(self).bytes(),
                    old(self).at() as int,
                    old(self).assembler(),
                );
                &&& reads >= 0
                &&& final(self).at() == old(self).at() + reads
                &&& final(self).consumed() == counted(old(self).consumed(), reads)
            },
            !old(self).is_done() ==> {
                let (outcome, next, after) = sup_next(
                    old(self).bytes(),
                    old(self).at() as int,
                    old(self).assembler(),
                );
                match (r, outcome) {
                    (None, None) => final(self).is_done(),
                    (Some(Ok(tds)), Some(Ok(ds))) => {
                        &&& tds@ == sup_set(ds)
                        &&& !final(self).is_done()
                        &&& final(self).at() == next
                        &&& final(self).assembler() == after
                    },
                    (Some(Err(e)), Some(Err(v))) => e@ == v && final(self).is_done(),
                    _ => false,
                }
            },
    {
        if self.done {
            return None;
        }
        let ghost s = self.bytes();
        let ghost goal = sup_next(s, self.at() as int, self.assembler());
        loop
            invariant
                self.bytes() == s,
                self.at() >= old(self).at(),
                self.consumed() == counted(old(self).consumed(), self.at() - old(self).at()),
                s == old(self).bytes(),
                !self.is_done(),
                !old(self).is_done(),
                goal == sup_next(s, old(self).at() as int, old(self).assembler()),
                goal == sup_next(s, self.at() as int, self.assembler()),
            decreases s.len() - self.at(),
        {
            match self.next_segment() {
                None => {
                    self.done = true;
                    return None;
                },
                Some(Err(e)) => {
                    self.done = true;
                    return Some(Err(e));
                },
                Some(Ok(segment)) => {
                    if let Some(ds) = self.assembler.push(segment) {
                        return Some(
                            Ok(
                                TrackDisplaySet {
                                    track_id: 0,
                                    language: None,
                                    container: ContainerFormat::Sup,
                                    display_set: ds,
                                },
                            ),
                        );
                    }
                },
            }
        }
    }
}

} // verus!
