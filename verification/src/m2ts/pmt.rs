//! Program map tables.
use vstd::prelude::*;
use crate::error::{ErrorView, PgsError};
use crate::io::reader::{counted, SeekBufReader, Source};
use crate::m2ts::pat::{find_section, section_from, section_length, section_stop};
use crate::m2ts::ts_packet::{pid_from, pid_of, PacketFormat};
use crate::mkv::tracks::text_view;
use crate::text::{
    hexadecimal, language_name, named_language, push_hex, text_from_utf8_lossy, utf8_lossy,
};
use crate::track::copy_text;

verus! {

/// The table identifier of program map tables.
pub const PMT_TABLE_ID: u8 = 0x02;

/// The stream type of PGS subtitles.
pub const PGS_STREAM_TYPE: u8 = 0x90;

/// The tag of a descriptor that names a stream's language.
pub const LANGUAGE_DESCRIPTOR_TAG: u8 = 0x0A;

/// The number of packets in which the table is looked for.
pub const MAX_PACKETS_TO_SCAN: usize = 2000;

/// A stream of a program.
#[derive(Debug)]
pub struct PmtStream {
    pub stream_type: u8,
    pub elementary_pid: u16,
    pub language: Option<String>,
}

/// A stream as a mathematical value.
#[verifier::ext_equal]
pub struct PmtStreamView {
    pub stream_type: u8,
    pub elementary_pid: u16,
    pub language: Option<Seq<char>>,
}

impl View for PmtStream {
    type V = PmtStreamView;

    open spec fn view(&self) -> PmtStreamView {
        PmtStreamView {
            stream_type: self.stream_type,
            elementary_pid: self.elementary_pid,
            language: text_view(self.language),
        }
    }
}

impl Clone for PmtStream {
    fn clone(&self) -> (r: Self)
        ensures
            r@ == self@,
    {
        PmtStream {
            stream_type: self.stream_type,
            elementary_pid: self.elementary_pid,
            language: copy_text(&self.language),
        }
    }
}

/// The views of streams.
pub open spec fn stream_views(streams: Seq<PmtStream>) -> Seq<PmtStreamView> {
    Seq::new(streams.len(), |i: int| streams[i]@)
}

/// The language that the first descriptor from `i` on names that names one. A
/// truncated descriptor ends the list.
pub open spec fn language_from(data: Seq<u8>, i: int) -> Option<Seq<char>>
    decreases data.len() - i,
{
    if i < 0 || i + 2 > data.len() || i + 2 + data[i + 1] > data.len() {
        None
    } else {
        let rest = language_from(data, i + 2 + data[i + 1]);
        if data[i] == LANGUAGE_DESCRIPTOR_TAG && data[i + 1] >= 3 {
            match named_language(utf8_lossy(data.subrange(i + 2, i + 5))) {
                Some(l) => Some(l),
                None => rest,
            }
        } else {
            rest
        }
    }
}

/// Where the descriptors end of a stream entry at `i`, in a section that ends
/// at `end`.
pub open spec fn descriptors_end(data: Seq<u8>, i: int, end: int) -> int {
    let stop = i + 5 + data[i + 3] % 16 * 256 + data[i + 4];
    if stop < end {
        stop
    } else {
        end
    }
}

/// The streams of a program from `i` on, in front of `end`.
pub open spec fn streams_from(data: Seq<u8>, i: int, end: int) -> Seq<PmtStreamView>
    decreases end - i,
{
    if i + 5 > end {
        Seq::empty()
    } else {
        let stop = descriptors_end(data, i, end);
        seq![
            PmtStreamView {
                stream_type: data[i],
                elementary_pid: pid_of(data[i + 1], data[i + 2]),
                language: language_from(data.subrange(i + 5, stop), 0),
            },
        ] + streams_from(data, stop, end)
    }
}

/// Where the streams of a section end that is followed by a checksum.
pub open spec fn streams_end(data: Seq<u8>) -> int {
    if section_length(data) >= 1 {
        section_length(data) - 1
    } else {
        0
    }
}

/// Where the streams of a section start, behind the program's descriptors.
pub open spec fn streams_start(data: Seq<u8>) -> int {
    12 + data[10] % 16 * 256 + data[11]
}

/// The streams of a map table's section.
pub open spec fn pmt_of(data: Seq<u8>) -> Result<Seq<PmtStreamView>, ErrorView> {
    if data.len() < 12 {
        Err(ErrorView::InvalidTs("PMT section too short"@))
    } else if data[0] != PMT_TABLE_ID {
        Err(
            ErrorView::InvalidTs(
                "expected PMT table_id 0x02, got 0x"@ + hexadecimal(data[0] as nat, 2),
            ),
        )
    } else if streams_start(data) > data.len() || streams_end(data) > data.len() {
        Err(ErrorView::InvalidTs("PMT section length mismatch"@))
    } else {
        Ok(streams_from(data, streams_start(data), streams_end(data)))
    }
}

/// The map table of a file with a packet identifier, and the position behind
/// its packet.
pub open spec fn pmt_in(s: Seq<u8>, format: PacketFormat, pid: u16) -> Result<
    (Seq<PmtStreamView>, int),
    ErrorView,
> {
    match section_from(s, 0, MAX_PACKETS_TO_SCAN as nat, format, pid) {
        Err(e) => Err(e),
        Ok(None) => Err(ErrorView::InvalidTs("PMT not found"@)),
        Ok(Some((section, next))) => match pmt_of(section) {
            Err(e) => Err(e),
            Ok(streams) => Ok((streams, next)),
        },
    }
}

/// The number of bytes that finding the map table with a packet identifier reads.
pub open spec fn pmt_reads(s: Seq<u8>, format: PacketFormat, pid: u16) -> int {
    section_stop(s, 0, MAX_PACKETS_TO_SCAN as nat, format, pid)
}

/// Finds the map table with a packet identifier and returns its streams.
pub fn find_pmt<R: Source>(reader: &mut SeekBufReader<R>, format: PacketFormat, pmt_pid: u16) -> (r:
    Result<Vec<PmtStream>, PgsError>)
    ensures
        final(reader).bytes() == old(reader).bytes(),
        final(reader).at() == pmt_reads(old(reader).bytes(), format, pmt_pid),
        final(reader).consumed() == counted(old(reader).consumed(), final(reader).at() as int),
        match (r, pmt_in(old(reader).bytes(), format, pmt_pid)) {
            (Ok(streams), Ok((v, next))) => stream_views(streams@) == v && final(reader).at() == next,
            (Err(e), Err(v)) => e@ == v,
            _ => false,
        },
{
    match find_section(reader, format, pmt_pid, MAX_PACKETS_TO_SCAN) {
        Ok(Some(section)) => parse_pmt_section(section.as_slice()),
        Ok(None) => Err(PgsError::InvalidTs("PMT not found".to_owned())),
        Err(e) => Err(e),
    }
}

/// Parses the section of a map table.
pub fn parse_pmt_section(data: &[u8]) -> (r: Result<Vec<PmtStream>, PgsError>)
    ensures
        match (r, pmt_of(data@)) {
            (Ok(streams), Ok(v)) => stream_views(streams@) == v,
            (Err(e), Err(v)) => e@ == v,
            _ => false,
        },
{
    if data.len() < 12 {
        return Err(PgsError::InvalidTs("PMT section too short".to_owned()));
    }
    if data[0] != PMT_TABLE_ID {
        let mut text = "expected PMT table_id 0x02, got 0x".to_owned();
        push_hex(&mut text, data[0] as u64, 2);
        return Err(PgsError::InvalidTs(text));
    }
    let length: usize = (data[1] % 16) as usize * 256 + data[2] as usize;
    let start: usize = 12 + (data[10] % 16) as usize * 256 + data[11] as usize;
    let end: usize = if length >= 1 { length - 1 } else { 0 };
    if start > data.len() || end > data.len() {
        return Err(PgsError::InvalidTs("PMT section length mismatch".to_owned()));
    }
    let mut streams: Vec<PmtStream> = Vec::new();
    let mut i: usize = start;
    let ghost goal = streams_from(data@, start as int, end as int);
    assert(stream_views(streams@) + goal =~= goal);
    while i <= end && end - i >= 5
        invariant
            end <= data@.len(),
            i <= data@.len(),
            goal == stream_views(streams@) + streams_from(data@, i as int, end as int),
        decreases
                (if i <= end {
                    end - i
                } else {
                    0
                }),
    {
        let info_length: usize = (data[i + 3] % 16) as usize * 256 + data[i + 4] as usize;
        let stop: usize = if info_length < end - i - 5 { i + 5 + info_length } else { end };
        let descriptors = vstd::slice::slice_subrange(data, i + 5, stop);
        let stream = PmtStream {
            stream_type: data[i],
            elementary_pid: pid_from(data[i + 1], data[i + 2]),
            language: parse_language_from_descriptors(descriptors),
        };
        let ghost before = stream_views(streams@);
        let ghost view = stream@;
        let ghost rest = streams_from(data@, stop as int, end as int);
        streams.push(stream);
        proof {
            assert(stream_views(streams@) =~= before.push(view));
            assert(before + (seq![view] + rest) =~= stream_views(streams@) + rest);
        }
        i = stop;
    }
    assert(stream_views(streams@) =~= goal);
    Ok(streams)
}

fn parse_language_from_descriptors(data: &[u8]) -> (r: Option<String>)
    ensures
        text_view(r) == language_from(data@, 0),
{
    let mut i: usize = 0;
    let ghost goal = language_from(data@, 0);
    while data.len() - i >= 2
        invariant
            i <= data@.len(),
            goal == language_from(data@, 0),
            goal == language_from(data@, i as int),
        decreases data@.len() - i,
    {
        let length: usize = data[i + 1] as usize;
        if data.len() - i - 2 < length {
            return None;
        }
        if data[i] == LANGUAGE_DESCRIPTOR_TAG && length >= 3 {
            let field = vstd::slice::slice_subrange(data, i + 2, i + 5);
            let text = text_from_utf8_lossy(field);
            if let Some(l) = language_name(text.as_str()) {
                return Some(l);
            }
        }
        i += 2 + length;
    }
    None
}

/// The PGS streams among streams.
pub open spec fn pgs_streams(streams: Seq<PmtStreamView>) -> Seq<PmtStreamView>
    decreases streams.len(),
{
    if streams.len() == 0 {
        Seq::empty()
    } else {
        let before = pgs_streams(streams.drop_last());
        if streams.last().stream_type == PGS_STREAM_TYPE {
            before.push(streams.last())
        } else {
            before
        }
    }
}

/// The views of referenced streams.
pub open spec fn stream_ref_views(streams: Seq<&PmtStream>) -> Seq<PmtStreamView> {
    Seq::new(streams.len(), |i: int| streams[i]@)
}

/// The PGS streams among streams.
pub fn find_pgs_streams(streams: &[PmtStream]) -> (r: Vec<&PmtStream>)
    ensures
        stream_ref_views(r@) == pgs_streams(stream_views(streams@)),
{
    let ghost all = stream_views(streams@);
    let mut found: Vec<&PmtStream> = Vec::new();
    let mut i: usize = 0;
    assert(stream_ref_views(found@) =~= pgs_streams(all.take(0)));
    while i < streams.len()
        invariant
            i <= streams@.len(),
            all == stream_views(streams@),
            stream_ref_views(found@) == pgs_streams(all.take(i as int)),
        decreases streams@.len() - i,
    {
        let stream = &streams[i];
        let ghost before = stream_ref_views(found@);
        if stream.stream_type == PGS_STREAM_TYPE {
            found.push(stream);
            assert(stream_ref_views(found@) =~= before.push(stream@));
        }
        i += 1;
        proof {
            assert(all.take(i as int).drop_last() =~= all.take(i - 1));
            assert(all.take(i as int).last() == stream@);
        }
    }
    assert(all.take(i as int) =~= all);
    found
}

} // verus!
