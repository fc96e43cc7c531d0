//! The EBML header, the segment's layout and its general information.
use vstd::prelude::*;
use crate::ebml::children::{
    data_reads, element_end, end_of, expected_header_reads, expected_reads, fold_children,
    fold_reads, text_at, uint_at, uint_reads,
};
use crate::ebml::ids;
use crate::ebml::vint::{
    element_at, element_header_reads, id_at, read_element, read_element_id, read_element_size,
    Element,
};
use crate::error::{ErrorView, IoError, PgsError};
use crate::io::reader::{counted, SeekBufReader, Source};
use crate::text::{hexadecimal, push_hex};

verus! {

/// The positions of the main elements of a segment.
#[derive(Debug, Clone, Copy, PartialEq, Eq, Structural)]
pub struct SegmentLayout {
    /// Where the segment's data starts.
    pub segment_data_start: u64,
    /// Where the Tracks element is, if it was found.
    pub tracks_position: Option<u64>,
    /// Where the Cues element is, if it was found.
    pub cues_position: Option<u64>,
    /// Where the Info element is, if it was found.
    pub info_position: Option<u64>,
    /// Where the Tags element is, if it was found.
    pub tags_position: Option<u64>,
    /// Where the first Cluster is, if it was found.
    pub first_cluster_position: Option<u64>,
    /// Where the segment's data ends.
    pub segment_data_end: u64,
}

/// A layout of a segment of which nothing has been found.
pub open spec fn empty_layout(start: u64, end: u64) -> SegmentLayout {
    SegmentLayout {
        segment_data_start: start,
        tracks_position: None,
        cues_position: None,
        info_position: None,
        tags_position: None,
        first_cluster_position: None,
        segment_data_end: end,
    }
}

impl Default for SegmentLayout {
    fn default() -> (r: Self)
        ensures
            r == empty_layout(0, 0),
    {
        SegmentLayout {
            segment_data_start: 0,
            tracks_position: None,
            cues_position: None,
            info_position: None,
            tags_position: None,
            first_cluster_position: None,
            segment_data_end: 0,
        }
    }
}

/// What a child of the EBML header makes of the document type.
pub open spec fn doc_type_step(s: Seq<u8>, e: Element, doc_type: Seq<char>) -> Result<
    (Seq<char>, int),
    ErrorView,
> {
    if e.id == ids::DOC_TYPE {
        match text_at(s, e.data, e.size) {
            Err(error) => Err(error),
            Ok(text) => Ok((text, e.data + e.size)),
        }
    } else {
        match end_of(e.data, e.size) {
            Err(error) => Err(error),
            Ok(next) => Ok((doc_type, next)),
        }
    }
}

/// The document type in the children of an EBML header from `pos` on.
pub open spec fn doc_type_from(s: Seq<u8>, pos: int, end: int, doc_type: Seq<char>) -> Result<
    (Seq<char>, int),
    ErrorView,
> {
    fold_children(s, pos, end, doc_type, |e: Element, t: Seq<char>| doc_type_step(s, e, t))
}

/// The number of bytes that reading the children of an EBML header from `pos` on
/// reads.
pub open spec fn doc_type_reads(s: Seq<u8>, pos: int, end: int, doc_type: Seq<char>) -> int {
    fold_reads(
        s,
        pos,
        end,
        doc_type,
        |e: Element, t: Seq<char>| doc_type_step(s, e, t),
        |e: Element|
            if e.id == ids::DOC_TYPE {
                data_reads(s, e)
            } else {
                0
            },
    )
}

/// The number of bytes that reading the EBML header at `pos` reads.
pub open spec fn ebml_header_reads(s: Seq<u8>, pos: int) -> int {
    expected_reads(
        s,
        pos,
        ids::EBML,
        |data: int, end: int| doc_type_reads(s, data, end, Seq::empty()),
    )
}

/// The document type of the EBML header at `pos` and the position behind the
/// header. Only Matroska and WebM are supported.
pub open spec fn ebml_header_at(s: Seq<u8>, pos: int) -> Result<(Seq<char>, int), ErrorView> {
    match id_at(s, pos) {
        None => Err(ErrorView::InvalidVint),
        Some(id) => if id.value != ids::EBML {
            Err(
                ErrorView::InvalidEbml(
                    "expected EBML header (0x1A45DFA3), got 0x"@ + hexadecimal(id.value as nat, 0),
                ),
            )
        } else {
            match element_at(s, pos) {
                None => Err(ErrorView::InvalidVint),
                Some(e) => match end_of(e.data, e.size) {
                    Err(error) => Err(error),
                    Ok(end) => match doc_type_from(s, e.data, end, Seq::empty()) {
                        Err(error) => Err(error),
                        Ok((doc_type, next)) => if doc_type.len() == 0 {
                            Err(ErrorView::InvalidEbml("missing DocType"@))
                        } else if doc_type != "matroska"@ && doc_type != "webm"@ {
                            Err(ErrorView::InvalidEbml("unsupported DocType: "@ + doc_type))
                        } else {
                            Ok((doc_type, next))
                        },
                    },
                },
            }
        },
    }
}

fn unexpected_id(prefix: &str, id: u64) -> (r: String)
    ensures
        r@ == prefix@ + hexadecimal(id as nat, 0),
{
    let mut text = prefix.to_owned();
    push_hex(&mut text, id, 0);
    text
}

/// Validates the EBML header and returns its document type.
pub fn parse_ebml_header<R: Source>(reader: &mut SeekBufReader<R>) -> (r: Result<String, PgsError>)
    ensures
        final(reader).bytes() == old(reader).bytes(),
        ({
            let reads = ebml_header_reads(old(reader).bytes(), old(reader).at() as int);
            &&& final(reader).consumed() == counted(old(reader).consumed(), reads)
            &&& reads >= 0
        }),
        match (r, ebml_header_at(old(reader).bytes(), old(reader).at() as int)) {
            (Ok(t), Ok((v, next))) => t@ == v && final(reader).at() == next,
            (Err(e), Err(v)) => e@ == v,
            _ => false,
        },
{
    let ghost s = reader.bytes();
    let ghost start = reader.at() as int;
    let id = match read_element_id(reader) {
        Ok(id) => id,
        Err(e) => {
            return Err(e);
        },
    };
    if id.value != ids::EBML {
        return Err(
            PgsError::InvalidEbml(
                unexpected_id("expected EBML header (0x1A45DFA3), got 0x", id.value),
            ),
        );
    }
    let size = match read_element_size(reader) {
        Ok(size) => size,
        Err(e) => {
            return Err(e);
        },
    };
    let header_end = match element_end(reader.position(), size.value) {
        Ok(end) => end,
        Err(e) => {
            return Err(e);
        },
    };
    let mut doc_type = String::new();
    let ghost goal = doc_type_from(s, reader.at() as int, header_end as int, Seq::empty());
    let ghost reads = ebml_header_reads(s, start);
    let ghost mut done: int = reader.at() - start;
    while reader.position() < header_end
        invariant
            reader.bytes() == s,
            done >= 0,
            reader.consumed() == counted(old(reader).consumed(), done),
            reads == ebml_header_reads(s, start),
            reads == done + doc_type_reads(s, reader.at() as int, header_end as int, doc_type@),
            s == old(reader).bytes(),
            start == old(reader).at(),
            goal == doc_type_from(s, reader.at() as int, header_end as int, doc_type@),
            goal is Err ==> ebml_header_at(s, start) == goal,
        decreases
                (if reader.at() < s.len() {
                    s.len() - reader.at()
                } else {
                    0
                }),
    {
        let ghost pos = reader.at() as int;
        let (child_id, child_size) = match read_element(reader) {
            Ok(e) => e,
            Err(e) => {
                return Err(e);
            },
        };
        assert(pos < s.len());
        proof {
            let e = Element { id: child_id, size: child_size, data: reader.at() as int };
            done = done + element_header_reads(s, pos) + if e.id == ids::DOC_TYPE {
                data_reads(s, e)
            } else {
                0
            };
        }
        if child_id == ids::DOC_TYPE {
            doc_type = match reader.read_string(child_size) {
                Ok(t) => t,
                Err(e) => {
                    return Err(e);
                },
            };
        } else {
            match reader.skip(child_size) {
                Ok(()) => {},
                Err(e) => {
                    return Err(e);
                },
            }
        }
    }
    if doc_type.as_str().is_empty() {
        return Err(PgsError::InvalidEbml("missing DocType".to_owned()));
    }
    if doc_type != "matroska".to_owned() && doc_type != "webm".to_owned() {
        let mut text = "unsupported DocType: ".to_owned();
        text.push_str(doc_type.as_str());
        return Err(PgsError::InvalidEbml(text));
    }
    Ok(doc_type)
}

/// What a child of a Seek element makes of the identifier and the position that
/// it holds.
pub open spec fn seek_step(s: Seq<u8>, e: Element, a: (Option<u64>, Option<u64>)) -> Result<
    ((Option<u64>, Option<u64>), int),
    ErrorView,
> {
    if e.id == ids::SEEK_ID || e.id == ids::SEEK_POSITION {
        match uint_at(s, e.data, e.size) {
            Err(error) => Err(error),
            Ok(v) => Ok(
                (
                    if e.id == ids::SEEK_ID {
                        (Some(v), a.1)
                    } else {
                        (a.0, Some(v))
                    },
                    e.data + e.size,
                ),
            ),
        }
    } else {
        match end_of(e.data, e.size) {
            Err(error) => Err(error),
            Ok(next) => Ok((a, next)),
        }
    }
}

/// The identifier and the position in the children of a Seek element from
/// `pos` on.
pub open spec fn seek_from(
    s: Seq<u8>,
    pos: int,
    end: int,
    a: (Option<u64>, Option<u64>),
) -> Result<((Option<u64>, Option<u64>), int), ErrorView> {
    fold_children(
        s,
        pos,
        end,
        a,
        |e: Element, b: (Option<u64>, Option<u64>)| seek_step(s, e, b),
    )
}

/// The number of bytes that reading the children of a Seek element from `pos` on
/// reads.
pub open spec fn seek_reads(s: Seq<u8>, pos: int, end: int, a: (Option<u64>, Option<u64>)) -> int {
    fold_reads(
        s,
        pos,
        end,
        a,
        |e: Element, b: (Option<u64>, Option<u64>)| seek_step(s, e, b),
        |e: Element| seek_step_reads(s, e),
    )
}

/// The number of bytes of a Seek element's child, behind its header, that are
/// read.
pub open spec fn seek_step_reads(s: Seq<u8>, e: Element) -> int {
    if e.id == ids::SEEK_ID || e.id == ids::SEEK_POSITION {
        uint_reads(s, e)
    } else {
        0
    }
}

/// The number of bytes that reading a Seek element's data of `size` bytes at
/// `pos` reads.
pub open spec fn seek_entry_reads(s: Seq<u8>, pos: int, size: u64) -> int {
    match end_of(pos, size) {
        Err(_) => 0,
        Ok(end) => seek_reads(s, pos, end, (None, None)),
    }
}

/// The position, unless one is known already.
pub open spec fn first_known(known: Option<u64>, position: u64) -> Option<u64> {
    match known {
        Some(p) => Some(p),
        None => Some(position),
    }
}

/// A layout to which an element at a position has been added. Where an element
/// is known already, its first position stays.
pub open spec fn located(layout: SegmentLayout, id: u64, position: u64) -> SegmentLayout {
    if id == ids::TRACKS {
        SegmentLayout {
            tracks_position: first_known(layout.tracks_position, position),
            ..layout
        }
    } else if id == ids::CUES {
        SegmentLayout { cues_position: first_known(layout.cues_position, position), ..layout }
    } else if id == ids::INFO {
        SegmentLayout { info_position: first_known(layout.info_position, position), ..layout }
    } else if id == ids::CLUSTER {
        SegmentLayout {
            first_cluster_position: first_known(layout.first_cluster_position, position),
            ..layout
        }
    } else if id == ids::TAGS {
        SegmentLayout { tags_position: first_known(layout.tags_position, position), ..layout }
    } else {
        layout
    }
}

/// What a Seek element's data of `size` bytes at `pos` makes of a layout, and
/// the position behind it. The position that it holds counts from the start of
/// the segment's data.
pub open spec fn seek_entry_at(s: Seq<u8>, pos: int, size: u64, layout: SegmentLayout) -> Result<
    (SegmentLayout, int),
    ErrorView,
> {
    match end_of(pos, size) {
        Err(error) => Err(error),
        Ok(end) => match seek_from(s, pos, end, (None, None)) {
            Err(error) => Err(error),
            Ok(((Some(id), Some(offset)), next)) => match end_of(
                layout.segment_data_start as int,
                offset,
            ) {
                Err(error) => Err(error),
                Ok(position) => Ok((located(layout, id, position as u64), next)),
            },
            Ok((_, next)) => Ok((layout, next)),
        },
    }
}

/// What a child of a SeekHead makes of a layout.
pub open spec fn seek_head_step(s: Seq<u8>, e: Element, layout: SegmentLayout) -> Result<
    (SegmentLayout, int),
    ErrorView,
> {
    if e.id == ids::SEEK {
        seek_entry_at(s, e.data, e.size, layout)
    } else {
        match end_of(e.data, e.size) {
            Err(error) => Err(error),
            Ok(next) => Ok((layout, next)),
        }
    }
}

/// What the children of a SeekHead from `pos` on make of a layout.
pub open spec fn seek_head_from(s: Seq<u8>, pos: int, end: int, layout: SegmentLayout) -> Result<
    (SegmentLayout, int),
    ErrorView,
> {
    fold_children(s, pos, end, layout, |e: Element, l: SegmentLayout| seek_head_step(s, e, l))
}

/// What a SeekHead's data of `size` bytes at `pos` makes of a layout, and the
/// position behind it.
pub open spec fn seek_head_at(s: Seq<u8>, pos: int, size: u64, layout: SegmentLayout) -> Result<
    (SegmentLayout, int),
    ErrorView,
> {
    match end_of(pos, size) {
        Err(error) => Err(error),
        Ok(end) => seek_head_from(s, pos, end, layout),
    }
}

/// The number of bytes of a SeekHead's child, behind its header, that are read.
pub open spec fn seek_head_step_reads(s: Seq<u8>, e: Element) -> int {
    if e.id == ids::SEEK {
        seek_entry_reads(s, e.data, e.size)
    } else {
        0
    }
}

/// The number of bytes that reading the children of a SeekHead from `pos` on
/// reads.
pub open spec fn seek_head_reads_from(
    s: Seq<u8>,
    pos: int,
    end: int,
    layout: SegmentLayout,
) -> int {
    fold_reads(
        s,
        pos,
        end,
        layout,
        |e: Element, l: SegmentLayout| seek_head_step(s, e, l),
        |e: Element| seek_head_step_reads(s, e),
    )
}

/// The number of bytes that reading a SeekHead's data of `size` bytes at `pos`
/// reads.
pub open spec fn seek_head_reads(s: Seq<u8>, pos: int, size: u64, layout: SegmentLayout) -> int {
    match end_of(pos, size) {
        Err(_) => 0,
        Ok(end) => seek_head_reads_from(s, pos, end, layout),
    }
}

/// The layout that the children of a segment from `pos` on give.
///
/// Looking stops at the first Cluster, at a malformed header, and at an unknown
/// element of unknown size.
pub open spec fn layout_from(s: Seq<u8>, pos: int, layout: SegmentLayout) -> Result<
    SegmentLayout,
    ErrorView,
>
    decreases
            (if pos < s.len() {
                s.len() - pos
            } else {
                0
            }),
{
    if pos >= layout.segment_data_end {
        Ok(layout)
    } else {
        match element_at(s, pos) {
            None => Ok(layout),
            Some(e) => if e.id == ids::CLUSTER {
                Ok(located(layout, e.id, pos as u64))
            } else if is_main(e.id) || e.size != u64::MAX || e.id == ids::SEEK_HEAD {
                match layout_step(s, pos, e, layout) {
                    Err(error) => Err(error),
                    Ok((more, next)) => if next > pos {
                        layout_from(s, next, more)
                    } else {
                        Err(ErrorView::Io(IoError::InvalidPosition))
                    },
                }
            } else {
                Ok(layout)
            },
        }
    }
}

/// Whether an element is one whose position a layout holds.
pub open spec fn is_main(id: u64) -> bool {
    id == ids::INFO || id == ids::TRACKS || id == ids::CUES || id == ids::TAGS
}

/// What a child of a segment at `pos` makes of a layout, and the position
/// behind it.
pub open spec fn layout_step(s: Seq<u8>, pos: int, e: Element, layout: SegmentLayout) -> Result<
    (SegmentLayout, int),
    ErrorView,
> {
    if e.id == ids::SEEK_HEAD {
        seek_head_at(s, e.data, e.size, layout)
    } else {
        match end_of(e.data, e.size) {
            Err(error) => Err(error),
            Ok(next) => Ok((located(layout, e.id, pos as u64), next)),
        }
    }
}

/// The number of bytes that finding the layout in the children of a segment from
/// `pos` on reads: their headers, and the SeekHead.
pub open spec fn layout_reads(s: Seq<u8>, pos: int, layout: SegmentLayout) -> int
    decreases
            (if pos < s.len() {
                s.len() - pos
            } else {
                0
            }),
{
    if pos >= layout.segment_data_end {
        0
    } else {
        element_header_reads(s, pos) + match element_at(s, pos) {
            None => 0,
            Some(e) => if e.id == ids::CLUSTER {
                0
            } else if is_main(e.id) || e.size != u64::MAX || e.id == ids::SEEK_HEAD {
                (if e.id == ids::SEEK_HEAD {
                    seek_head_reads(s, e.data, e.size, layout)
                } else {
                    0
                }) + match layout_step(s, pos, e, layout) {
                    Err(_) => 0,
                    Ok((more, next)) => if next > pos {
                        layout_reads(s, next, more)
                    } else {
                        0
                    },
                }
            } else {
                0
            },
        }
    }
}

/// The number of bytes that finding the layout of the segment at `pos` reads.
pub open spec fn segment_reads(s: Seq<u8>, pos: int) -> int {
    expected_header_reads(s, pos, ids::SEGMENT) + match (id_at(s, pos), element_at(s, pos)) {
        (Some(id), Some(e)) => if id.value != ids::SEGMENT {
            0
        } else if e.size == u64::MAX {
            layout_reads(s, e.data, empty_layout(e.data as u64, u64::MAX))
        } else {
            match end_of(e.data, e.size) {
                Err(_) => 0,
                Ok(end) => layout_reads(s, e.data, empty_layout(e.data as u64, end as u64)),
            }
        },
        _ => 0,
    }
}

/// The layout of the segment at `pos`. A segment of unknown size extends to the
/// end of the file.
pub open spec fn segment_at(s: Seq<u8>, pos: int) -> Result<SegmentLayout, ErrorView> {
    match id_at(s, pos) {
        None => Err(ErrorView::InvalidVint),
        Some(id) => if id.value != ids::SEGMENT {
            Err(
                ErrorView::InvalidMkv(
                    "expected Segment (0x18538067), got 0x"@ + hexadecimal(id.value as nat, 0),
                ),
            )
        } else {
            match element_at(s, pos) {
                None => Err(ErrorView::InvalidVint),
                Some(e) => if e.size == u64::MAX {
                    layout_from(s, e.data, empty_layout(e.data as u64, u64::MAX))
                } else {
                    match end_of(e.data, e.size) {
                        Err(error) => Err(error),
                        Ok(end) => layout_from(
                            s,
                            e.data,
                            empty_layout(e.data as u64, end as u64),
                        ),
                    }
                },
            }
        },
    }
}

fn locate(layout: &mut SegmentLayout, id: u64, position: u64)
    ensures
        *final(layout) == located(*old(layout), id, position),
{
    if id == ids::TRACKS {
        if layout.tracks_position.is_none() {
            layout.tracks_position = Some(position);
        }
    } else if id == ids::CUES {
        if layout.cues_position.is_none() {
            layout.cues_position = Some(position);
        }
    } else if id == ids::INFO {
        if layout.info_position.is_none() {
            layout.info_position = Some(position);
        }
    } else if id == ids::CLUSTER {
        if layout.first_cluster_position.is_none() {
            layout.first_cluster_position = Some(position);
        }
    } else if id == ids::TAGS {
        if layout.tags_position.is_none() {
            layout.tags_position = Some(position);
        }
    }
}

/// Parses the segment's header and finds its main elements.
pub fn parse_segment<R: Source>(reader: &mut SeekBufReader<R>) -> (r: Result<
    SegmentLayout,
    PgsError,
>)
    ensures
        final(reader).bytes() == old(reader).bytes(),
        ({
            let reads = segment_reads(old(reader).bytes(), old(reader).at() as int);
            &&& final(reader).consumed() == counted(old(reader).consumed(), reads)
            &&& reads >= 0
        }),
        match (r, segment_at(old(reader).bytes(), old(reader).at() as int)) {
            (Ok(layout), Ok(v)) => layout == v,
            (Err(e), Err(v)) => e@ == v,
            _ => false,
        },
{
    let ghost s = reader.bytes();
    let ghost start = reader.at() as int;
    let id = match read_element_id(reader) {
        Ok(id) => id,
        Err(e) => {
            return Err(e);
        },
    };
    if id.value != ids::SEGMENT {
        return Err(
            PgsError::InvalidMkv(unexpected_id("expected Segment (0x18538067), got 0x", id.value)),
        );
    }
    let size = match read_element_size(reader) {
        Ok(size) => size,
        Err(e) => {
            return Err(e);
        },
    };
    let segment_data_start: u64 = reader.position();
    let segment_data_end: u64 = if size.value == u64::MAX {
        u64::MAX
    } else {
        match element_end(segment_data_start, size.value) {
            Ok(end) => end,
            Err(e) => {
                return Err(e);
            },
        }
    };
    let mut layout: SegmentLayout = Default::default();
    layout.segment_data_start = segment_data_start;
    layout.segment_data_end = segment_data_end;
    let ghost goal = segment_at(s, start);
    let ghost reads = segment_reads(s, start);
    let ghost mut done: int = reader.at() - start;
    while reader.position() < segment_data_end
        invariant_except_break
            reader.bytes() == s,
            done >= 0,
            reader.consumed() == counted(old(reader).consumed(), done),
            reads == segment_reads(s, start),
            reads == done + layout_reads(s, reader.at() as int, layout),
            s == old(reader).bytes(),
            start == old(reader).at(),
            goal == segment_at(s, start),
            layout.segment_data_end == segment_data_end,
            goal == layout_from(s, reader.at() as int, layout),
        ensures
            reader.bytes() == s,
            reads >= 0,
            reader.consumed() == counted(old(reader).consumed(), reads),
            goal == Ok::<SegmentLayout, ErrorView>(layout),
        decreases
                (if reader.at() < s.len() {
                    s.len() - reader.at()
                } else {
                    0
                }),
    {
        let elem_pos: u64 = reader.position();
        let (child_id, child_size) = match read_element(reader) {
            Ok(e) => e,
            Err(_) => {
                break ;
            },
        };
        assert(elem_pos < s.len());
        proof {
            done = done + element_header_reads(s, elem_pos as int) + if child_id == ids::SEEK_HEAD {
                seek_head_reads(s, reader.at() as int, child_size, layout)
            } else {
                0
            };
        }
        if child_id == ids::SEEK_HEAD {
            match parse_seekhead(reader, child_size, &mut layout) {
                Ok(()) => {},
                Err(e) => {
                    return Err(e);
                },
            }
        } else if child_id == ids::CLUSTER {
            locate(&mut layout, child_id, elem_pos);
            break ;
        } else {
            let main = child_id == ids::INFO || child_id == ids::TRACKS || child_id == ids::CUES
                || child_id == ids::TAGS;
            if !main && child_size == u64::MAX {
                break ;
            }
            locate(&mut layout, child_id, elem_pos);
            match reader.skip(child_size) {
                Ok(()) => {},
                Err(e) => {
                    return Err(e);
                },
            }
        }
    }
    Ok(layout)
}

fn parse_seekhead<R: Source>(
    reader: &mut SeekBufReader<R>,
    data_size: u64,
    layout: &mut SegmentLayout,
) -> (r: Result<(), PgsError>)
    ensures
        final(reader).bytes() == old(reader).bytes(),
        ({
            let reads = seek_head_reads(
                old(reader).bytes(),
                old(reader).at() as int,
                data_size,
                *old(layout),
            );
            &&& final(reader).consumed() == counted(old(reader).consumed(), reads)
            &&& reads >= 0
        }),
        final(layout).segment_data_end == old(layout).segment_data_end,
        match (
            r,
            seek_head_at(old(reader).bytes(), old(reader).at() as int, data_size, *old(layout)),
        ) {
            (Ok(()), Ok((v, next))) => {
                &&& *final(layout) == v
                &&& final(reader).at() == next
                &&& next >= old(reader).at()
            },
            (Err(e), Err(v)) => e@ == v,
            _ => false,
        },
{
    let ghost s = reader.bytes();
    let ghost start = reader.at() as int;
    let ghost goal = seek_head_at(s, start, data_size, *layout);
    let ghost reads = seek_head_reads(s, start, data_size, *layout);
    let ghost mut done: int = 0;
    let end = match element_end(reader.position(), data_size) {
        Ok(end) => end,
        Err(e) => {
            return Err(e);
        },
    };
    while reader.position() < end
        invariant
            reader.bytes() == s,
            done >= 0,
            reader.consumed() == counted(old(reader).consumed(), done),
            reads == seek_head_reads(s, start, data_size, *old(layout)),
            reads == done + seek_head_reads_from(s, reader.at() as int, end as int, *layout),
            s == old(reader).bytes(),
            start == old(reader).at(),
            reader.at() >= start,
            layout.segment_data_end == old(layout).segment_data_end,
            goal == seek_head_at(s, start, data_size, *old(layout)),
            goal == seek_head_from(s, reader.at() as int, end as int, *layout),
        decreases
                (if reader.at() < s.len() {
                    s.len() - reader.at()
                } else {
                    0
                }),
    {
        let ghost pos = reader.at() as int;
        let (child_id, child_size) = match read_element(reader) {
            Ok(e) => e,
            Err(e) => {
                return Err(e);
            },
        };
        assert(pos < s.len());
        proof {
            let e = Element { id: child_id, size: child_size, data: reader.at() as int };
            done = done + element_header_reads(s, pos) + seek_head_step_reads(s, e);
        }
        if child_id == ids::SEEK {
            match parse_seek_entry(reader, child_size, layout) {
                Ok(()) => {},
                Err(e) => {
                    return Err(e);
                },
            }
        } else {
            match reader.skip(child_size) {
                Ok(()) => {},
                Err(e) => {
                    return Err(e);
                },
            }
        }
    }
    Ok(())
}

fn parse_seek_entry<R: Source>(
    reader: &mut SeekBufReader<R>,
    data_size: u64,
    layout: &mut SegmentLayout,
) -> (r: Result<(), PgsError>)
    ensures
        final(reader).bytes() == old(reader).bytes(),
        ({
            let reads = seek_entry_reads(old(reader).bytes(), old(reader).at() as int, data_size);
            &&& final(reader).consumed() == counted(old(reader).consumed(), reads)
            &&& reads >= 0
        }),
        final(layout).segment_data_end == old(layout).segment_data_end,
        match (
            r,
            seek_entry_at(old(reader).bytes(), old(reader).at() as int, data_size, *old(layout)),
        ) {
            (Ok(()), Ok((v, next))) => {
                &&& *final(layout) == v
                &&& final(reader).at() == next
                &&& next >= old(reader).at()
            },
            (Err(e), Err(v)) => e@ == v,
            _ => false,
        },
{
    let ghost s = reader.bytes();
    let ghost start = reader.at() as int;
    let end = match element_end(reader.position(), data_size) {
        Ok(end) => end,
        Err(e) => {
            return Err(e);
        },
    };
    let mut seek_id: Option<u64> = None;
    let mut seek_position: Option<u64> = None;
    let ghost goal = seek_from(s, start, end as int, (None, None));
    let ghost reads = seek_reads(s, start, end as int, (None, None));
    let ghost mut done: int = 0;
    while reader.position() < end
        invariant
            reader.bytes() == s,
            done >= 0,
            reader.consumed() == counted(old(reader).consumed(), done),
            reads == seek_reads(s, start, end as int, (None, None)),
            reads == done + seek_reads(
                s,
                reader.at() as int,
                end as int,
                (seek_id, seek_position),
            ),
            s == old(reader).bytes(),
            start == old(reader).at(),
            reader.at() >= start,
            end == start + data_size,
            *layout == *old(layout),
            goal == seek_from(s, start, end as int, (None, None)),
            goal == seek_from(s, reader.at() as int, end as int, (seek_id, seek_position)),
        decreases
                (if reader.at() < s.len() {
                    s.len() - reader.at()
                } else {
                    0
                }),
    {
        let ghost pos = reader.at() as int;
        let (child_id, child_size) = match read_element(reader) {
            Ok(e) => e,
            Err(e) => {
                return Err(e);
            },
        };
        assert(pos < s.len());
        proof {
            let e = Element { id: child_id, size: child_size, data: reader.at() as int };
            done = done + element_header_reads(s, pos) + seek_step_reads(s, e);
        }
        if child_id == ids::SEEK_ID {
            seek_id = match reader.read_uint_be(child_size) {
                Ok(v) => Some(v),
                Err(e) => {
                    return Err(e);
                },
            };
        } else if child_id == ids::SEEK_POSITION {
            seek_position = match reader.read_uint_be(child_size) {
                Ok(v) => Some(v),
                Err(e) => {
                    return Err(e);
                },
            };
        } else {
            match reader.skip(child_size) {
                Ok(()) => {},
                Err(e) => {
                    return Err(e);
                },
            }
        }
    }
    if let (Some(id), Some(offset)) = (seek_id, seek_position) {
        let position = match element_end(layout.segment_data_start, offset) {
            Ok(p) => p,
            Err(e) => {
                return Err(e);
            },
        };
        locate(layout, id, position);
    }
    Ok(())
}

/// A floating-point number of an element, as the bits that the file holds.
#[derive(Debug, Clone, Copy, PartialEq, Eq, Structural)]
pub enum FloatBits {
    /// A number of four bytes.
    Single(u32),
    /// A number of eight bytes.
    Double(u64),
}

/// The general information about a segment.
#[derive(Debug, Clone, Copy, PartialEq, Eq, Structural)]
pub struct SegmentInfo {
    /// Nanoseconds per timestamp unit; a million unless the file says otherwise.
    pub timestamp_scale: u64,
    /// The segment's duration in timestamp units, if the file gives it.
    pub duration: Option<FloatBits>,
}

/// What a child of an Info element makes of the information.
pub open spec fn info_step(s: Seq<u8>, e: Element, info: SegmentInfo) -> Result<
    (SegmentInfo, int),
    ErrorView,
> {
    if e.id == ids::TIMESTAMP_SCALE {
        match uint_at(s, e.data, e.size) {
            Err(error) => Err(error),
            Ok(v) => Ok((SegmentInfo { timestamp_scale: v, ..info }, e.data + e.size)),
        }
    } else if e.id == ids::DURATION && (e.size == 4 || e.size == 8) {
        match uint_at(s, e.data, e.size) {
            Err(error) => Err(error),
            Ok(v) => Ok(
                (
                    SegmentInfo {
                        duration: Some(
                            if e.size == 4 {
                                FloatBits::Single(v as u32)
                            } else {
                                FloatBits::Double(v)
                            },
                        ),
                        ..info
                    },
                    e.data + e.size,
                ),
            ),
        }
    } else {
        match end_of(e.data, e.size) {
            Err(error) => Err(error),
            Ok(next) => Ok((info, next)),
        }
    }
}

/// What the children of an Info element from `pos` on make of the information.
pub open spec fn info_from(s: Seq<u8>, pos: int, end: int, info: SegmentInfo) -> Result<
    (SegmentInfo, int),
    ErrorView,
> {
    fold_children(s, pos, end, info, |e: Element, i: SegmentInfo| info_step(s, e, i))
}

/// The number of bytes of an Info element's child, behind its header, that are
/// read.
pub open spec fn info_step_reads(s: Seq<u8>, e: Element) -> int {
    if e.id == ids::TIMESTAMP_SCALE || (e.id == ids::DURATION && (e.size == 4 || e.size == 8)) {
        uint_reads(s, e)
    } else {
        0
    }
}

/// The number of bytes that reading the children of an Info element from `pos` on
/// reads.
pub open spec fn info_reads_from(s: Seq<u8>, pos: int, end: int, info: SegmentInfo) -> int {
    fold_reads(
        s,
        pos,
        end,
        info,
        |e: Element, i: SegmentInfo| info_step(s, e, i),
        |e: Element| info_step_reads(s, e),
    )
}

/// The number of bytes that reading the Info element at `pos` reads.
pub open spec fn info_reads(s: Seq<u8>, pos: int) -> int {
    expected_reads(
        s,
        pos,
        ids::INFO,
        |data: int, end: int| info_reads_from(s, data, end, default_info()),
    )
}

/// The information of a segment that says nothing.
pub open spec fn default_info() -> SegmentInfo {
    SegmentInfo { timestamp_scale: 1_000_000, duration: None }
}

/// The information in the Info element at `pos`.
pub open spec fn info_at(s: Seq<u8>, pos: int) -> Result<SegmentInfo, ErrorView> {
    match id_at(s, pos) {
        None => Err(ErrorView::InvalidVint),
        Some(id) => if id.value != ids::INFO {
            Err(ErrorView::InvalidMkv("expected Info element"@))
        } else {
            match element_at(s, pos) {
                None => Err(ErrorView::InvalidVint),
                Some(e) => match end_of(e.data, e.size) {
                    Err(error) => Err(error),
                    Ok(end) => match info_from(s, e.data, end, default_info()) {
                        Err(error) => Err(error),
                        Ok((info, _)) => Ok(info),
                    },
                },
            }
        },
    }
}

/// Parses the Info element at a position.
pub fn parse_info<R: Source>(reader: &mut SeekBufReader<R>, info_position: u64) -> (r: Result<
    SegmentInfo,
    PgsError,
>)
    ensures
        final(reader).bytes() == old(reader).bytes(),
        ({
            let reads = info_reads(old(reader).bytes(), info_position as int);
            &&& final(reader).consumed() == counted(old(reader).consumed(), reads)
            &&& reads >= 0
        }),
        match (r, info_at(old(reader).bytes(), info_position as int)) {
            (Ok(info), Ok(v)) => info == v,
            (Err(e), Err(v)) => e@ == v,
            _ => false,
        },
{
    let ghost s = reader.bytes();
    let _ = reader.seek_to(info_position);
    let id = match read_element_id(reader) {
        Ok(id) => id,
        Err(e) => {
            return Err(e);
        },
    };
    if id.value != ids::INFO {
        return Err(PgsError::InvalidMkv("expected Info element".to_owned()));
    }
    let size = match read_element_size(reader) {
        Ok(size) => size,
        Err(e) => {
            return Err(e);
        },
    };
    let end = match element_end(reader.position(), size.value) {
        Ok(end) => end,
        Err(e) => {
            return Err(e);
        },
    };
    let mut info = SegmentInfo { timestamp_scale: 1_000_000, duration: None };
    let ghost goal = info_from(s, reader.at() as int, end as int, info);
    let ghost reads = info_reads(s, info_position as int);
    let ghost mut done: int = reader.at() - info_position;
    while reader.position() < end
        invariant
            reader.bytes() == s,
            done >= 0,
            reader.consumed() == counted(old(reader).consumed(), done),
            reads == info_reads(s, info_position as int),
            reads == done + info_reads_from(s, reader.at() as int, end as int, info),
            s == old(reader).bytes(),
            goal == info_from(s, reader.at() as int, end as int, info),
            goal matches Err(e) ==> info_at(s, info_position as int) == Err::<
                SegmentInfo,
                ErrorView,
            >(e),
        decreases
                (if reader.at() < s.len() {
                    s.len() - reader.at()
                } else {
                    0
                }),
    {
        let ghost pos = reader.at() as int;
        let (child_id, child_size) = match read_element(reader) {
            Ok(e) => e,
            Err(e) => {
                return Err(e);
            },
        };
        assert(pos < s.len());
        let ghost data = reader.at() as int;
        proof {
            let e = Element { id: child_id, size: child_size, data };
            done = done + element_header_reads(s, pos) + info_step_reads(s, e);
        }
        if child_id == ids::TIMESTAMP_SCALE {
            info.timestamp_scale = match reader.read_uint_be(child_size) {
                Ok(v) => v,
                Err(e) => {
                    return Err(e);
                },
            };
        } else if child_id == ids::DURATION && child_size == 4 {
            match reader.read_u32_be() {
                Ok(v) => {
                    info.duration = Some(FloatBits::Single(v));
                },
                Err(e) => {
                    return Err(e);
                },
            }
        } else if child_id == ids::DURATION && child_size == 8 {
            match reader.read_u64_be() {
                Ok(v) => {
                    info.duration = Some(FloatBits::Double(v));
                },
                Err(e) => {
                    return Err(e);
                },
            }
        } else {
            match reader.skip(child_size) {
                Ok(()) => {},
                Err(e) => {
                    return Err(e);
                },
            }
        }
    }
    Ok(info)
}

} // verus!
