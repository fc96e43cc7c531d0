//! Counting the display sets of a raw PGS file.
use vstd::prelude::*;
use crate::bytes::{be16, u16_be};
use crate::error::{ErrorView, IoError, PgsError};
use crate::io::reader::{counted, SeekBufReader, Source};
use crate::pgs::segment::{SegmentType, PGS_MAGIC};
use crate::sup::stream::{kind_error, kind_failure, magic_error, magic_failure};
use crate::text::{decimal, push_decimal};

verus! {

/// The numbers of display sets in a raw PGS file.
#[derive(Debug, Clone, Copy, PartialEq, Eq, Structural)]
pub struct SupDisplaySetCounts {
    /// All display sets, that is end segments.
    pub total: u64,
    /// Display sets whose composition has at least one object: visible
    /// subtitles.
    pub content: u64,
    /// Display sets whose composition has no objects: a cleared screen.
    pub clear: u64,
}

/// No display sets.
pub open spec fn no_counts() -> SupDisplaySetCounts {
    SupDisplaySetCounts { total: 0, content: 0, clear: 0 }
}

impl Default for SupDisplaySetCounts {
    fn default() -> (r: Self)
        ensures
            r == no_counts(),
    {
        SupDisplaySetCounts { total: 0, content: 0, clear: 0 }
    }
}

/// The error for a composition that is too short to name its objects.
pub open spec fn short_composition_error(size: nat) -> ErrorView {
    ErrorView::InvalidPgs("PCS payload too small: "@ + decimal(size) + " bytes"@)
}

/// The counts with one more display set, which shows something or does not.
pub open spec fn one_more(c: SupDisplaySetCounts, shows: bool) -> SupDisplaySetCounts {
    SupDisplaySetCounts {
        total: (c.total + 1) as u64,
        content: if shows {
            (c.content + 1) as u64
        } else {
            c.content
        },
        clear: if shows {
            c.clear
        } else {
            (c.clear + 1) as u64
        },
    }
}

/// What the segment at `pos`, whose header is there, makes of the counts, and of
/// whether the display set that is going on shows something.
///
/// A display set is counted at its end segment, by its last composition. Only a
/// composition's payload is looked at, and has to be there.
pub open spec fn count_step(s: Seq<u8>, pos: int, c: SupDisplaySetCounts, shows: bool) -> Result<
    (SupDisplaySetCounts, bool),
    ErrorView,
> {
    let size = be16(s, pos + 11);
    if s[pos] != 0x50 || s[pos + 1] != 0x47 {
        Err(magic_error(s[pos], s[pos + 1]))
    } else {
        match SegmentType::of_byte(s[pos + 10]) {
            None => Err(kind_error(s[pos + 10])),
            Some(SegmentType::PresentationComposition) => if size < 11 {
                Err(short_composition_error(size as nat))
            } else if pos + 13 + size > s.len() {
                Err(ErrorView::Io(IoError::UnexpectedEof))
            } else {
                Ok((c, s[pos + 23] != 0))
            },
            Some(SegmentType::EndOfDisplaySet) => Ok((one_more(c, shows), false)),
            Some(_) => Ok((c, shows)),
        }
    }
}

/// What the segments from `pos` on make of the counts, where the display set
/// that is going on shows something or does not. A file that ends within a
/// header is malformed.
pub open spec fn counts_from(s: Seq<u8>, pos: int, c: SupDisplaySetCounts, shows: bool) -> Result<
    SupDisplaySetCounts,
    ErrorView,
>
    decreases
            (if pos < s.len() {
                s.len() - pos
            } else {
                0
            }),
{
    if pos >= s.len() {
        Ok(c)
    } else if pos + 13 > s.len() {
        Err(ErrorView::Io(IoError::TruncatedHeader))
    } else {
        match count_step(s, pos, c, shows) {
            Err(e) => Err(e),
            Ok((more, showing)) => counts_from(s, pos + 13 + be16(s, pos + 11), more, showing),
        }
    }
}

/// The number of bytes that counting from `pos` on reads: the header of each
/// segment, and the payloads of compositions.
pub open spec fn count_reads(s: Seq<u8>, pos: int) -> nat
    decreases
            (if pos < s.len() {
                s.len() - pos
            } else {
                0
            }),
{
    if pos >= s.len() {
        0
    } else if pos + 13 > s.len() {
        (s.len() - pos) as nat
    } else {
        match count_step(s, pos, no_counts(), false) {
            Err(_) => 13,
            Ok(_) => {
                let size = be16(s, pos + 11);
                let rest = count_reads(s, pos + 13 + size);
                if s[pos + 10] == 0x16 {
                    13 + size as nat + rest
                } else {
                    13 + rest
                }
            },
        }
    }
}

/// In every file, the display sets that show something and those that do not
/// are all display sets.
pub proof fn content_and_clear_are_all(s: Seq<u8>, pos: int, c: SupDisplaySetCounts, shows: bool)
    requires
        0 <= pos,
        c.content + c.clear == c.total,
        c.total <= pos,
        s.len() <= u64::MAX,
    ensures
        counts_from(s, pos, c, shows) matches Ok(r) ==> r.content + r.clear == r.total,
    decreases
            (if pos < s.len() {
                s.len() - pos
            } else {
                0
            }),
{
    if pos + 13 <= s.len() {
        if let Ok((more, showing)) = count_step(s, pos, c, shows) {
            content_and_clear_are_all(s, pos + 13 + be16(s, pos + 11), more, showing);
        }
    }
}

/// Counts the display sets of a raw PGS file by its segments' headers.
///
/// Payloads are skipped, other than those of compositions.
pub fn count_display_sets<R: Source>(reader: &mut SeekBufReader<R>) -> (r: Result<
    SupDisplaySetCounts,
    PgsError,
>)
    ensures
        final(reader).bytes() == old(reader).bytes(),
        final(reader).consumed() == counted(
            old(reader).consumed(),
            count_reads(old(reader).bytes(), old(reader).at() as int) as int,
        ),
        r matches Ok(c) ==> c.content + c.clear == c.total,
        match (r, counts_from(old(reader).bytes(), old(reader).at() as int, no_counts(), false)) {
            (Ok(c), Ok(v)) => c == v,
            (Err(e), Err(v)) => e@ == v,
            _ => false,
        },
{
    let ghost s = reader.bytes();
    let ghost start = reader.at() as int;
    let ghost goal = counts_from(s, start, no_counts(), false);
    let ghost reads = count_reads(s, start) as int;
    let ghost mut done: int = 0;
    let size = match reader.file_size() {
        Ok(n) => n,
        Err(e) => {
            return Err(e);
        },
    };
    let mut counts = SupDisplaySetCounts { total: 0, content: 0, clear: 0 };
    let mut shows = false;
    let mut header: [u8; 13] = [0u8; 13];
    loop
        invariant
            reader.bytes() == s,
            done >= 0,
            reader.consumed() == counted(old(reader).consumed(), done),
            reads == count_reads(s, start),
            reads == done + count_reads(s, reader.at() as int),
            s == old(reader).bytes(),
            start == old(reader).at(),
            header@.len() == 13,
            size == s.len(),
            counts.total <= reader.at(),
            counts.content + counts.clear == counts.total,
            goal == counts_from(s, start, no_counts(), false),
            goal == counts_from(s, reader.at() as int, counts, shows),
        decreases
                (if reader.at() < s.len() {
                    s.len() - reader.at()
                } else {
                    0
                }),
    {
        let ghost pos = reader.at() as int;
        match reader.try_read_exact(&mut header) {
            Ok(true) => {},
            Ok(false) => {
                return Ok(counts);
            },
            Err(_) => {
                return Err(PgsError::Io(IoError::TruncatedHeader));
            },
        }
        assert(forall|i: int| 0 <= i < 13 ==> header@[i] == s[pos + i]);
        if header[0] != PGS_MAGIC[0] || header[1] != PGS_MAGIC[1] {
            return Err(magic_failure(header[0], header[1]));
        }
        let payload_size: u16 = u16_be(&header, 11);
        match SegmentType::from_byte(header[10]) {
            None => {
                return Err(kind_failure(header[10]));
            },
            Some(SegmentType::PresentationComposition) => {
                if payload_size < 11 {
                    let mut text = "PCS payload too small: ".to_owned();
                    push_decimal(&mut text, payload_size as u64);
                    text.push_str(" bytes");
                    return Err(PgsError::InvalidPgs(text));
                }
                match reader.read_bytes(payload_size as u64) {
                    Ok(payload) => {
                        assert(payload@[10] == s[pos + 23]);
                        shows = payload[10] != 0;
                        proof {
                            done = done + 13 + payload_size;
                        }
                    },
                    Err(e) => {
                        return Err(e);
                    },
                }
            },
            Some(kind) => {
                if kind == SegmentType::EndOfDisplaySet {
                    counts.total += 1;
                    if shows {
                        counts.content += 1;
                    } else {
                        counts.clear += 1;
                    }
                    shows = false;
                }
                proof {
                    done = done + 13;
                }
                if size - reader.position() <= payload_size as u64 {
                    assert(pos + 13 + be16(s, pos + 11) >= s.len());
                    assert(count_reads(s, pos + 13 + be16(s, pos + 11)) == 0);
                    assert(goal == counts_from(s, pos + 13 + be16(s, pos + 11), counts, shows));
                    return Ok(counts);
                }
                match reader.skip(payload_size as u64) {
                    Ok(()) => {},
                    Err(e) => {
                        return Err(e);
                    },
                }
            },
        }
    }
}

} // verus!
