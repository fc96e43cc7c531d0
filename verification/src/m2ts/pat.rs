//! Program association tables.
use vstd::prelude::*;
use crate::bytes::{be16, copy_range, u16_be};
use crate::error::{ErrorView, PgsError};
use crate::io::reader::{counted, SeekBufReader, Source};
use crate::m2ts::ts_packet::{
    extract_payload, packet_at, payload_of, pid_from, pid_of, read_next_packet, PacketFormat,
};
use crate::text::{hexadecimal, push_hex};

verus! {

/// The packet identifier of program association tables.
pub const PAT_PID: u16 = 0x0000;

/// The table identifier of program association tables.
pub const PAT_TABLE_ID: u8 = 0x00;

/// The number of packets in which the table is looked for.
pub const MAX_PACKETS_TO_SCAN: usize = 1000;

/// A program and the packet identifier of its map table.
#[derive(Debug, Clone, Copy, PartialEq, Eq, Structural)]
pub struct PatEntry {
    pub program_number: u16,
    pub pmt_pid: u16,
}

/// The section that starts in a packet with the wanted identifier, if the packet
/// at `pos` is one: the payload behind its pointer field.
pub open spec fn section_in(packet: Seq<u8>, pid: u16) -> Result<Option<Seq<u8>>, ErrorView> {
    match payload_of(packet) {
        Err(e) => Err(e),
        Ok((header, payload)) => if header.pid != pid || !header.pusi || payload.len() == 0 || 1
            + payload[0] >= payload.len() {
            Ok(None)
        } else {
            Ok(Some(payload.skip(1 + payload[0])))
        },
    }
}

/// The first section with the wanted identifier among the `n` packets from
/// `pos` on, and the position behind its packet.
pub open spec fn section_from(
    s: Seq<u8>,
    pos: int,
    n: nat,
    format: PacketFormat,
    pid: u16,
) -> Result<Option<(Seq<u8>, int)>, ErrorView>
    decreases n,
{
    if n == 0 {
        Ok(None)
    } else {
        match packet_at(s, pos, format) {
            Err(e) => Err(e),
            Ok(None) => Ok(None),
            Ok(Some(packet)) => match section_in(packet, pid) {
                Err(e) => Err(e),
                Ok(Some(section)) => Ok(Some((section, pos + format.size()))),
                Ok(None) => section_from(s, pos + format.size(), (n - 1) as nat, format, pid),
            },
        }
    }
}

/// Where looking for the first section with the wanted identifier among the `n`
/// packets from `pos` on stops. Everything in front of that is read.
pub open spec fn section_stop(
    s: Seq<u8>,
    pos: int,
    n: nat,
    format: PacketFormat,
    pid: u16,
) -> int
    decreases n,
{
    if n == 0 {
        pos
    } else {
        match packet_at(s, pos, format) {
            Err(_) => s.len() as int,
            Ok(None) => pos,
            Ok(Some(packet)) => match section_in(packet, pid) {
                Ok(None) => section_stop(s, pos + format.size(), (n - 1) as nat, format, pid),
                _ => pos + format.size(),
            },
        }
    }
}

/// Looks for the first section with the wanted identifier in the first `n`
/// packets of a file.
pub fn find_section<R: Source>(
    reader: &mut SeekBufReader<R>,
    format: PacketFormat,
    pid: u16,
    n: usize,
) -> (r: Result<Option<Vec<u8>>, PgsError>)
    ensures
        final(reader).bytes() == old(reader).bytes(),
        final(reader).at() == section_stop(old(reader).bytes(), 0, n as nat, format, pid),
        final(reader).consumed() == counted(old(reader).consumed(), final(reader).at() as int),
        match (r, section_from(old(reader).bytes(), 0, n as nat, format, pid)) {
            (Ok(Some(section)), Ok(Some((v, next)))) => section@ == v && final(reader).at() == next,
            (Ok(None), Ok(None)) => true,
            (Err(e), Err(v)) => e@ == v,
            _ => false,
        },
{
    let ghost s = reader.bytes();
    let ghost goal = section_from(s, 0, n as nat, format, pid);
    let ghost stop = section_stop(s, 0, n as nat, format, pid);
    let _ = reader.seek_to(0);
    let mut left: usize = n;
    while left > 0
        invariant
            reader.bytes() == s,
            reader.consumed() == counted(old(reader).consumed(), reader.at() as int),
            stop == section_stop(s, 0, n as nat, format, pid),
            stop == section_stop(s, reader.at() as int, left as nat, format, pid),
            s == old(reader).bytes(),
            left <= n,
            goal == section_from(s, 0, n as nat, format, pid),
            goal == section_from(s, reader.at() as int, left as nat, format, pid),
        decreases left,
    {
        let packet = match read_next_packet(reader, format) {
            Ok(Some(p)) => p,
            Ok(None) => {
                return Ok(None);
            },
            Err(e) => {
                return Err(e);
            },
        };
        let (header, payload) = match extract_payload(&packet) {
            Ok(p) => p,
            Err(e) => {
                return Err(e);
            },
        };
        left -= 1;
        if header.pid == pid && header.pusi && payload.len() > 0 {
            let start: usize = 1 + payload[0] as usize;
            if start < payload.len() {
                let section = copy_range(payload, start, payload.len());
                assert(section@ =~= payload@.skip(start as int));
                return Ok(Some(section));
            }
        }
    }
    Ok(None)
}

/// The entries of an association table from `i` on, in front of `end`. The
/// network entry, program 0, is passed over.
pub open spec fn pat_entries_from(data: Seq<u8>, i: int, end: int) -> Seq<PatEntry>
    decreases end - i,
{
    if i + 4 > end {
        Seq::empty()
    } else {
        let rest = pat_entries_from(data, i + 4, end);
        let program_number = be16(data, i);
        if program_number != 0 {
            seq![PatEntry { program_number, pmt_pid: pid_of(data[i + 2], data[i + 3]) }] + rest
        } else {
            rest
        }
    }
}

/// The length that a section's header gives.
pub open spec fn section_length(data: Seq<u8>) -> int {
    data[1] % 16 * 256 + data[2]
}

/// Where the entries of a section end that is followed by a checksum.
pub open spec fn entries_end(data: Seq<u8>) -> int {
    if section_length(data) >= 4 {
        section_length(data) - 1
    } else {
        3
    }
}

/// The entries of an association table's section.
pub open spec fn pat_of(data: Seq<u8>) -> Result<Seq<PatEntry>, ErrorView> {
    if data.len() < 8 {
        Err(ErrorView::InvalidTs("PAT section too short"@))
    } else if data[0] != PAT_TABLE_ID {
        Err(
            ErrorView::InvalidTs(
                "expected PAT table_id 0x00, got 0x"@ + hexadecimal(data[0] as nat, 2),
            ),
        )
    } else if entries_end(data) > data.len() || 8 > entries_end(data) {
        Err(ErrorView::InvalidTs("PAT section length mismatch"@))
    } else {
        Ok(pat_entries_from(data, 8, entries_end(data)))
    }
}

/// The association table of a file.
pub open spec fn pat_in(s: Seq<u8>, format: PacketFormat) -> Result<Seq<PatEntry>, ErrorView> {
    match section_from(s, 0, MAX_PACKETS_TO_SCAN as nat, format, PAT_PID) {
        Err(e) => Err(e),
        Ok(None) => Err(ErrorView::InvalidTs("PAT not found"@)),
        Ok(Some((section, _))) => pat_of(section),
    }
}

/// The number of bytes that finding the association table of a file reads.
pub open spec fn pat_reads(s: Seq<u8>, format: PacketFormat) -> int {
    section_stop(s, 0, MAX_PACKETS_TO_SCAN as nat, format, PAT_PID)
}

/// Finds the association table of a file and returns its entries, other than
/// that of the network.
pub fn find_pat<R: Source>(reader: &mut SeekBufReader<R>, format: PacketFormat) -> (r: Result<
    Vec<PatEntry>,
    PgsError,
>)
    ensures
        final(reader).bytes() == old(reader).bytes(),
        final(reader).at() == pat_reads(old(reader).bytes(), format),
        final(reader).consumed() == counted(old(reader).consumed(), final(reader).at() as int),
        match (r, pat_in(old(reader).bytes(), format)) {
            (Ok(entries), Ok(v)) => entries@ == v,
            (Err(e), Err(v)) => e@ == v,
            _ => false,
        },
{
    match find_section(reader, format, PAT_PID, MAX_PACKETS_TO_SCAN) {
        Ok(Some(section)) => parse_pat_section(section.as_slice()),
        Ok(None) => Err(PgsError::InvalidTs("PAT not found".to_owned())),
        Err(e) => Err(e),
    }
}

/// Parses the section of an association table.
pub fn parse_pat_section(data: &[u8]) -> (r: Result<Vec<PatEntry>, PgsError>)
    ensures
        match (r, pat_of(data@)) {
            (Ok(entries), Ok(v)) => entries@ == v,
            (Err(e), Err(v)) => e@ == v,
            _ => false,
        },
{
    if data.len() < 8 {
        return Err(PgsError::InvalidTs("PAT section too short".to_owned()));
    }
    if data[0] != PAT_TABLE_ID {
        let mut text = "expected PAT table_id 0x00, got 0x".to_owned();
        push_hex(&mut text, data[0] as u64, 2);
        return Err(PgsError::InvalidTs(text));
    }
    let length: usize = (data[1] % 16) as usize * 256 + data[2] as usize;
    let end: usize = if length >= 4 { length - 1 } else { 3 };
    if end > data.len() || 8 > end {
        return Err(PgsError::InvalidTs("PAT section length mismatch".to_owned()));
    }
    let mut entries: Vec<PatEntry> = Vec::new();
    let mut i: usize = 8;
    let ghost goal = pat_entries_from(data@, 8, end as int);
    assert(entries@ + goal =~= goal);
    while end - i >= 4
        invariant
            8 <= i <= end <= data@.len(),
            goal == entries@ + pat_entries_from(data@, i as int, end as int),
        decreases end - i,
    {
        let ghost before = entries@;
        let ghost rest = pat_entries_from(data@, i + 4, end as int);
        let program_number: u16 = u16_be(data, i);
        let pid: u16 = pid_from(data[i + 2], data[i + 3]);
        if program_number != 0 {
            entries.push(PatEntry { program_number, pmt_pid: pid });
            assert(before + (seq![PatEntry { program_number, pmt_pid: pid }] + rest) =~= entries@
                + rest);
        }
        i += 4;
    }
    assert(entries@ =~= goal);
    Ok(entries)
}

} // verus!
