//! The PGS tracks of a segment.
use vstd::prelude::*;
use crate::ebml::children::{
    bytes_at, data_reads, element_end, end_of, expected_reads, fold_children, fold_reads, text_at,
    uint_at, uint_reads,
};
use crate::ebml::ids;
use crate::ebml::vint::{
    element_at, element_header_reads, id_at, read_element, read_element_id, read_element_size,
    Element,
};
use crate::error::{ErrorView, IoError, PgsError};
use crate::io::reader::{counted, SeekBufReader, Source};
use crate::lang::{language_normalized, normalize_language};

verus! {

/// The codec identifier of PGS tracks.
pub const PGS_CODEC_ID: &'static str = "S_HDMV/PGS";

/// The track type of subtitles.
pub const TRACK_TYPE_SUBTITLE: u64 = 0x11;

/// How a track's block data is compressed.
#[derive(Debug)]
pub enum ContentCompAlgo {
    /// The block data is a zlib stream.
    Zlib,
    /// The block data lacks these leading bytes.
    HeaderStripping(Vec<u8>),
}

/// A compression as a mathematical value.
pub enum CompressionView {
    Zlib,
    HeaderStripping(Seq<u8>),
}

impl View for ContentCompAlgo {
    type V = CompressionView;

    open spec fn view(&self) -> CompressionView {
        match self {
            ContentCompAlgo::Zlib => CompressionView::Zlib,
            ContentCompAlgo::HeaderStripping(prefix) => CompressionView::HeaderStripping(prefix@),
        }
    }
}

impl Clone for ContentCompAlgo {
    fn clone(&self) -> (r: Self)
        ensures
            r@ == self@,
    {
        match self {
            ContentCompAlgo::Zlib => ContentCompAlgo::Zlib,
            ContentCompAlgo::HeaderStripping(prefix) => ContentCompAlgo::HeaderStripping(
                prefix.clone(),
            ),
        }
    }
}

/// The view of an optional compression.
pub open spec fn compression_view(c: Option<ContentCompAlgo>) -> Option<CompressionView> {
    match c {
        Some(algo) => Some(algo@),
        None => None,
    }
}

/// The view of an optional text.
pub open spec fn text_view(t: Option<String>) -> Option<Seq<char>> {
    match t {
        Some(text) => Some(text@),
        None => None,
    }
}

/// A PGS track.
#[derive(Debug)]
pub struct MkvPgsTrack {
    /// The number that the track's blocks carry.
    pub track_number: u64,
    /// The unique identifier that tags refer to.
    pub track_uid: Option<u64>,
    /// The language code, if there is one.
    pub language: Option<String>,
    /// The track's name, if there is one.
    pub name: Option<String>,
    /// Whether the track should be active by default.
    pub flag_default: Option<bool>,
    /// Whether the track holds forced subtitles.
    pub flag_forced: Option<bool>,
    /// How the track's block data is compressed, if it is.
    pub compression: Option<ContentCompAlgo>,
}

/// A track as a mathematical value.
#[verifier::ext_equal]
pub struct TrackView {
    pub track_number: u64,
    pub track_uid: Option<u64>,
    pub language: Option<Seq<char>>,
    pub name: Option<Seq<char>>,
    pub flag_default: Option<bool>,
    pub flag_forced: Option<bool>,
    pub compression: Option<CompressionView>,
}

impl View for MkvPgsTrack {
    type V = TrackView;

    open spec fn view(&self) -> TrackView {
        TrackView {
            track_number: self.track_number,
            track_uid: self.track_uid,
            language: text_view(self.language),
            name: text_view(self.name),
            flag_default: self.flag_default,
            flag_forced: self.flag_forced,
            compression: compression_view(self.compression),
        }
    }
}

/// The views of tracks.
pub open spec fn track_views(tracks: Seq<MkvPgsTrack>) -> Seq<TrackView> {
    Seq::new(tracks.len(), |i: int| tracks[i]@)
}

/// What a child of a ContentCompression element makes of the algorithm number
/// and its settings.
pub open spec fn compression_step(s: Seq<u8>, e: Element, a: (u64, Seq<u8>)) -> Result<
    ((u64, Seq<u8>), int),
    ErrorView,
> {
    if e.id == ids::CONTENT_COMP_ALGO {
        match uint_at(s, e.data, e.size) {
            Err(error) => Err(error),
            Ok(v) => Ok(((v, a.1), e.data + e.size)),
        }
    } else if e.id == ids::CONTENT_COMP_SETTINGS {
        match bytes_at(s, e.data, e.size) {
            Err(error) => Err(error),
            Ok(v) => Ok(((a.0, v), e.data + e.size)),
        }
    } else {
        match end_of(e.data, e.size) {
            Err(error) => Err(error),
            Ok(next) => Ok((a, next)),
        }
    }
}

/// The algorithm number and settings in the children of a ContentCompression
/// element from `pos` on.
pub open spec fn compression_from(s: Seq<u8>, pos: int, end: int, a: (u64, Seq<u8>)) -> Result<
    ((u64, Seq<u8>), int),
    ErrorView,
> {
    fold_children(s, pos, end, a, |e: Element, b: (u64, Seq<u8>)| compression_step(s, e, b))
}

/// The compression that an algorithm number and settings stand for. Algorithms
/// that are not supported count as none.
pub open spec fn compression_of(algo: u64, settings: Seq<u8>) -> Option<CompressionView> {
    if algo == 0 {
        Some(CompressionView::Zlib)
    } else if algo == 3 {
        Some(CompressionView::HeaderStripping(settings))
    } else {
        None
    }
}

/// The compression in a ContentCompression element's data of `size` bytes at
/// `pos`, and the position behind it. The algorithm is zlib unless the element
/// says otherwise.
pub open spec fn compression_at(s: Seq<u8>, pos: int, size: u64) -> Result<
    (Option<CompressionView>, int),
    ErrorView,
> {
    match end_of(pos, size) {
        Err(error) => Err(error),
        Ok(end) => match compression_from(s, pos, end, (0, Seq::empty())) {
            Err(error) => Err(error),
            Ok((a, next)) => Ok((compression_of(a.0, a.1), next)),
        },
    }
}

/// The first compression in a ContentEncoding element from `pos` on, and the
/// position behind it.
pub open spec fn encoding_from(s: Seq<u8>, pos: int, end: int) -> Result<
    (Option<CompressionView>, int),
    ErrorView,
>
    decreases
            (if pos < s.len() {
                s.len() - pos
            } else {
                0
            }),
{
    if pos >= end {
        Ok((None, pos))
    } else {
        match element_at(s, pos) {
            None => Err(ErrorView::InvalidVint),
            Some(e) => if e.id == ids::CONTENT_COMPRESSION {
                compression_at(s, e.data, e.size)
            } else {
                match end_of(e.data, e.size) {
                    Err(error) => Err(error),
                    Ok(next) => if next > pos {
                        encoding_from(s, next, end)
                    } else {
                        Err(ErrorView::Io(IoError::InvalidPosition))
                    },
                }
            },
        }
    }
}

/// The first compression in a ContentEncoding element's data of `size` bytes at
/// `pos`, and the position behind it.
pub open spec fn encoding_at(s: Seq<u8>, pos: int, size: u64) -> Result<
    (Option<CompressionView>, int),
    ErrorView,
> {
    match end_of(pos, size) {
        Err(error) => Err(error),
        Ok(end) => encoding_from(s, pos, end),
    }
}

/// The first supported compression in a ContentEncodings element from `pos`
/// on, and the position behind it.
pub open spec fn encodings_from(s: Seq<u8>, pos: int, end: int) -> Result<
    (Option<CompressionView>, int),
    ErrorView,
>
    decreases
            (if pos < s.len() {
                s.len() - pos
            } else {
                0
            }),
{
    if pos >= end {
        Ok((None, pos))
    } else {
        match element_at(s, pos) {
            None => Err(ErrorView::InvalidVint),
            Some(e) => {
                let child = if e.id == ids::CONTENT_ENCODING {
                    encoding_at(s, e.data, e.size)
                } else {
                    match end_of(e.data, e.size) {
                        Err(error) => Err(error),
                        Ok(next) => Ok((None, next)),
                    }
                };
                match child {
                    Err(error) => Err(error),
                    Ok((Some(algo), next)) => Ok((Some(algo), next)),
                    Ok((None, next)) => if next > pos {
                        encodings_from(s, next, end)
                    } else {
                        Err(ErrorView::Io(IoError::InvalidPosition))
                    },
                }
            },
        }
    }
}

/// The first supported compression in a ContentEncodings element's data of
/// `size` bytes at `pos`, and the position behind it.
pub open spec fn encodings_at(s: Seq<u8>, pos: int, size: u64) -> Result<
    (Option<CompressionView>, int),
    ErrorView,
> {
    match end_of(pos, size) {
        Err(error) => Err(error),
        Ok(end) => encodings_from(s, pos, end),
    }
}

/// The number of bytes of a ContentCompression element's child, behind its header,
/// that are read.
pub open spec fn compression_step_reads(s: Seq<u8>, e: Element) -> int {
    if e.id == ids::CONTENT_COMP_ALGO {
        uint_reads(s, e)
    } else if e.id == ids::CONTENT_COMP_SETTINGS {
        data_reads(s, e)
    } else {
        0
    }
}

/// The number of bytes that reading the children of a ContentCompression
/// element from `pos` on reads.
pub open spec fn compression_reads_from(s: Seq<u8>, pos: int, end: int, a: (u64, Seq<u8>)) -> int {
    fold_reads(
        s,
        pos,
        end,
        a,
        |e: Element, x: (u64, Seq<u8>)| compression_step(s, e, x),
        |e: Element| compression_step_reads(s, e),
    )
}

/// The number of bytes that reading a ContentCompression element's data of `size`
/// bytes at `pos` reads.
pub open spec fn compression_reads(s: Seq<u8>, pos: int, size: u64) -> int {
    match end_of(pos, size) {
        Err(_) => 0,
        Ok(end) => compression_reads_from(s, pos, end, (0, Seq::empty())),
    }
}

/// The number of bytes that looking for the first compression in a
/// ContentEncoding element from `pos` on reads.
pub open spec fn encoding_reads_from(s: Seq<u8>, pos: int, end: int) -> int
    decreases
            (if pos < s.len() {
                s.len() - pos
            } else {
                0
            }),
{
    if pos >= end {
        0
    } else {
        element_header_reads(s, pos) + match element_at(s, pos) {
            None => 0,
            Some(e) => if e.id == ids::CONTENT_COMPRESSION {
                compression_reads(s, e.data, e.size)
            } else {
                match end_of(e.data, e.size) {
                    Err(_) => 0,
                    Ok(next) => if next > pos {
                        encoding_reads_from(s, next, end)
                    } else {
                        0
                    },
                }
            },
        }
    }
}

/// The number of bytes that looking for the first compression in a
/// ContentEncoding element's data of `size` bytes at `pos` reads.
pub open spec fn encoding_reads(s: Seq<u8>, pos: int, size: u64) -> int {
    match end_of(pos, size) {
        Err(_) => 0,
        Ok(end) => encoding_reads_from(s, pos, end),
    }
}

/// The number of bytes that looking for the first supported compression in a
/// ContentEncodings element from `pos` on reads.
pub open spec fn encodings_reads_from(s: Seq<u8>, pos: int, end: int) -> int
    decreases
            (if pos < s.len() {
                s.len() - pos
            } else {
                0
            }),
{
    if pos >= end {
        0
    } else {
        element_header_reads(s, pos) + match element_at(s, pos) {
            None => 0,
            Some(e) => if e.id == ids::CONTENT_ENCODING {
                encoding_reads(s, e.data, e.size) + match encoding_at(s, e.data, e.size) {
                    Ok((None, next)) => if next > pos {
                        encodings_reads_from(s, next, end)
                    } else {
                        0
                    },
                    _ => 0,
                }
            } else {
                match end_of(e.data, e.size) {
                    Err(_) => 0,
                    Ok(next) => if next > pos {
                        encodings_reads_from(s, next, end)
                    } else {
                        0
                    },
                }
            },
        }
    }
}

/// The number of bytes that looking for the first supported compression in a
/// ContentEncodings element's data of `size` bytes at `pos` reads.
pub open spec fn encodings_reads(s: Seq<u8>, pos: int, size: u64) -> int {
    match end_of(pos, size) {
        Err(_) => 0,
        Ok(end) => encodings_reads_from(s, pos, end),
    }
}

/// Whether a compression read is what `expected` says, the reader where it says,
/// and `reads` bytes were read.
spec fn compression_read<R: Source>(
    before: &SeekBufReader<R>,
    after: &SeekBufReader<R>,
    r: Result<Option<ContentCompAlgo>, PgsError>,
    expected: Result<(Option<CompressionView>, int), ErrorView>,
    reads: int,
) -> bool {
    &&& after.bytes() == before.bytes()
    &&& after.consumed() == counted(before.consumed(), reads)
    &&& reads >= 0
    &&& match (r, expected) {
        (Ok(c), Ok((v, next))) => {
            &&& compression_view(c) == v
            &&& after.at() == next
            &&& next >= before.at()
        },
        (Err(e), Err(v)) => e@ == v,
        _ => false,
    }
}

fn parse_content_compression<R: Source>(
    reader: &mut SeekBufReader<R>,
    data_size: u64,
) -> (r: Result<
    Option<ContentCompAlgo>,
    PgsError,
>)
    ensures
        compression_read(
            old(reader),
            final(reader),
            r,
            compression_at(old(reader).bytes(), old(reader).at() as int, data_size),
            compression_reads(old(reader).bytes(), old(reader).at() as int, data_size),
        ),
{
    let ghost s = reader.bytes();
    let ghost start = reader.at() as int;
    let end = match element_end(reader.position(), data_size) {
        Ok(end) => end,
        Err(e) => {
            return Err(e);
        },
    };
    let mut algo: u64 = 0;
    let mut settings: Vec<u8> = Vec::new();
    let ghost goal = compression_from(s, start, end as int, (0, Seq::empty()));
    let ghost reads = compression_reads(s, start, data_size);
    let ghost mut done: int = 0;
    while reader.position() < end
        invariant
            reader.bytes() == s,
            done >= 0,
            reader.consumed() == counted(old(reader).consumed(), done),
            reads == compression_reads(s, start, data_size),
            reads == done + compression_reads_from(
                s,
                reader.at() as int,
                end as int,
                (algo, settings@),
            ),
            s == old(reader).bytes(),
            start == old(reader).at(),
            reader.at() >= start,
            end == start + data_size,
            goal == compression_from(s, start, end as int, (0, Seq::empty())),
            goal == compression_from(s, reader.at() as int, end as int, (algo, settings@)),
        decreases
                (if reader.at() < s.len() {
                    s.len() - reader.at()
                } else {
                    0
                }),
    {
        let ghost pos = reader.at() as int;
        let (child_id, child_size) = match read_element(reader) {
            Ok(e) => e,
            Err(e) => {
                return Err(e);
            },
        };
        assert(pos < s.len());
        proof {
            let e = Element { id: child_id, size: child_size, data: reader.at() as int };
            done = done + element_header_reads(s, pos) + compression_step_reads(s, e);
        }
        if child_id == ids::CONTENT_COMP_ALGO {
            algo = match reader.read_uint_be(child_size) {
                Ok(v) => v,
                Err(e) => {
                    return Err(e);
                },
            };
        } else if child_id == ids::CONTENT_COMP_SETTINGS {
            settings = match reader.read_bytes(child_size) {
                Ok(v) => v,
                Err(e) => {
                    return Err(e);
                },
            };
        } else {
            match reader.skip(child_size) {
                Ok(()) => {},
                Err(e) => {
                    return Err(e);
                },
            }
        }
    }
    if algo == 0 {
        Ok(Some(ContentCompAlgo::Zlib))
    } else if algo == 3 {
        Ok(Some(ContentCompAlgo::HeaderStripping(settings)))
    } else {
        Ok(None)
    }
}

fn parse_content_encoding<R: Source>(reader: &mut SeekBufReader<R>, data_size: u64) -> (r: Result<
    Option<ContentCompAlgo>,
    PgsError,
>)
    ensures
        compression_read(
            old(reader),
            final(reader),
            r,
            encoding_at(old(reader).bytes(), old(reader).at() as int, data_size),
            encoding_reads(old(reader).bytes(), old(reader).at() as int, data_size),
        ),
{
    let ghost s = reader.bytes();
    let ghost start = reader.at() as int;
    let end = match element_end(reader.position(), data_size) {
        Ok(end) => end,
        Err(e) => {
            return Err(e);
        },
    };
    let ghost goal = encoding_from(s, start, end as int);
    let ghost reads = encoding_reads(s, start, data_size);
    let ghost mut done: int = 0;
    while reader.position() < end
        invariant
            reader.bytes() == s,
            done >= 0,
            reader.consumed() == counted(old(reader).consumed(), done),
            reads == encoding_reads(s, start, data_size),
            reads == done + encoding_reads_from(s, reader.at() as int, end as int),
            s == old(reader).bytes(),
            start == old(reader).at(),
            reader.at() >= start,
            end == start + data_size,
            goal == encoding_from(s, start, end as int),
            goal == encoding_from(s, reader.at() as int, end as int),
        decreases
                (if reader.at() < s.len() {
                    s.len() - reader.at()
                } else {
                    0
                }),
    {
        let ghost pos = reader.at() as int;
        let (child_id, child_size) = match read_element(reader) {
            Ok(e) => e,
            Err(e) => {
                return Err(e);
            },
        };
        assert(pos < s.len());
        proof {
            done = done + element_header_reads(s, pos);
        }
        if child_id == ids::CONTENT_COMPRESSION {
            return parse_content_compression(reader, child_size);
        }
        match reader.skip(child_size) {
            Ok(()) => {},
            Err(e) => {
                return Err(e);
            },
        }
    }
    Ok(None)
}

fn parse_content_encodings<R: Source>(reader: &mut SeekBufReader<R>, data_size: u64) -> (r: Result<
    Option<ContentCompAlgo>,
    PgsError,
>)
    ensures
        compression_read(
            old(reader),
            final(reader),
            r,
            encodings_at(old(reader).bytes(), old(reader).at() as int, data_size),
            encodings_reads(old(reader).bytes(), old(reader).at() as int, data_size),
        ),
{
    let ghost s = reader.bytes();
    let ghost start = reader.at() as int;
    let end = match element_end(reader.position(), data_size) {
        Ok(end) => end,
        Err(e) => {
            return Err(e);
        },
    };
    let ghost goal = encodings_from(s, start, end as int);
    let ghost reads = encodings_reads(s, start, data_size);
    let ghost mut done: int = 0;
    while reader.position() < end
        invariant
            reader.bytes() == s,
            done >= 0,
            reader.consumed() == counted(old(reader).consumed(), done),
            reads == encodings_reads(s, start, data_size),
            reads == done + encodings_reads_from(s, reader.at() as int, end as int),
            s == old(reader).bytes(),
            start == old(reader).at(),
            reader.at() >= start,
            end == start + data_size,
            goal == encodings_from(s, start, end as int),
            goal == encodings_from(s, reader.at() as int, end as int),
        decreases
                (if reader.at() < s.len() {
                    s.len() - reader.at()
                } else {
                    0
                }),
    {
        let ghost pos = reader.at() as int;
        let (child_id, child_size) = match read_element(reader) {
            Ok(e) => e,
            Err(e) => {
                return Err(e);
            },
        };
        assert(pos < s.len());
        proof {
            let e = Element { id: child_id, size: child_size, data: reader.at() as int };
            done = done + element_header_reads(s, pos) + if e.id == ids::CONTENT_ENCODING {
                encoding_reads(s, e.data, e.size)
            } else {
                0
            };
        }
        if child_id == ids::CONTENT_ENCODING {
            match parse_content_encoding(reader, child_size) {
                Ok(Some(algo)) => {
                    return Ok(Some(algo));
                },
                Ok(None) => {},
                Err(e) => {
                    return Err(e);
                },
            }
        } else {
            match reader.skip(child_size) {
                Ok(()) => {},
                Err(e) => {
                    return Err(e);
                },
            }
        }
    }
    Ok(None)
}

/// The fields of a track entry that have been read.
struct TrackFields {
    track_number: Option<u64>,
    track_uid: Option<u64>,
    track_type: Option<u64>,
    codec_id: Option<String>,
    language: Option<String>,
    language_tag: Option<String>,
    name: Option<String>,
    flag_default: Option<bool>,
    flag_forced: Option<bool>,
    compression: Option<ContentCompAlgo>,
}

/// The fields of a track entry as a mathematical value.
#[verifier::ext_equal]
pub struct FieldsView {
    pub track_number: Option<u64>,
    pub track_uid: Option<u64>,
    pub track_type: Option<u64>,
    pub codec_id: Option<Seq<char>>,
    pub language: Option<Seq<char>>,
    /// The language as a BCP 47 tag.
    pub language_tag: Option<Seq<char>>,
    pub name: Option<Seq<char>>,
    pub flag_default: Option<bool>,
    pub flag_forced: Option<bool>,
    pub compression: Option<CompressionView>,
}

impl View for TrackFields {
    type V = FieldsView;

    closed spec fn view(&self) -> FieldsView {
        FieldsView {
            track_number: self.track_number,
            track_uid: self.track_uid,
            track_type: self.track_type,
            codec_id: text_view(self.codec_id),
            language: text_view(self.language),
            language_tag: text_view(self.language_tag),
            name: text_view(self.name),
            flag_default: self.flag_default,
            flag_forced: self.flag_forced,
            compression: compression_view(self.compression),
        }
    }
}

/// No field.
pub open spec fn no_fields() -> FieldsView {
    FieldsView {
        track_number: None,
        track_uid: None,
        track_type: None,
        codec_id: None,
        language: None,
        language_tag: None,
        name: None,
        flag_default: None,
        flag_forced: None,
        compression: None,
    }
}

/// Whether a field of a track entry is a number.
pub open spec fn is_number_field(id: u64) -> bool {
    id == ids::TRACK_NUMBER || id == ids::TRACK_UID || id == ids::TRACK_TYPE || id
        == ids::FLAG_DEFAULT || id == ids::FLAG_FORCED
}

/// Whether a field of a track entry is a text.
pub open spec fn is_text_field(id: u64) -> bool {
    id == ids::CODEC_ID || id == ids::TRACK_NAME || id == ids::LANGUAGE || id
        == ids::LANGUAGE_BCP47
}

/// The fields with a number field set.
pub open spec fn with_number(f: FieldsView, id: u64, v: u64) -> FieldsView {
    if id == ids::TRACK_NUMBER {
        FieldsView { track_number: Some(v), ..f }
    } else if id == ids::TRACK_UID {
        FieldsView { track_uid: Some(v), ..f }
    } else if id == ids::TRACK_TYPE {
        FieldsView { track_type: Some(v), ..f }
    } else if id == ids::FLAG_DEFAULT {
        FieldsView { flag_default: Some(v == 1), ..f }
    } else {
        FieldsView { flag_forced: Some(v == 1), ..f }
    }
}

/// The fields with a text field set.
pub open spec fn with_text(f: FieldsView, id: u64, t: Seq<char>) -> FieldsView {
    if id == ids::CODEC_ID {
        FieldsView { codec_id: Some(t), ..f }
    } else if id == ids::TRACK_NAME {
        FieldsView { name: Some(t), ..f }
    } else if id == ids::LANGUAGE {
        FieldsView { language: Some(t), ..f }
    } else {
        FieldsView { language_tag: Some(t), ..f }
    }
}

/// What a child of a track entry makes of its fields. The last of several
/// values of a field counts.
pub open spec fn entry_step(s: Seq<u8>, e: Element, f: FieldsView) -> Result<
    (FieldsView, int),
    ErrorView,
> {
    if is_number_field(e.id) {
        match uint_at(s, e.data, e.size) {
            Err(error) => Err(error),
            Ok(v) => Ok((with_number(f, e.id, v), e.data + e.size)),
        }
    } else if is_text_field(e.id) {
        match text_at(s, e.data, e.size) {
            Err(error) => Err(error),
            Ok(t) => Ok((with_text(f, e.id, t), e.data + e.size)),
        }
    } else if e.id == ids::CONTENT_ENCODINGS {
        match encodings_at(s, e.data, e.size) {
            Err(error) => Err(error),
            Ok((compression, next)) => Ok((FieldsView { compression, ..f }, next)),
        }
    } else {
        match end_of(e.data, e.size) {
            Err(error) => Err(error),
            Ok(next) => Ok((f, next)),
        }
    }
}

/// The fields in the children of a track entry from `pos` on.
pub open spec fn entry_from(s: Seq<u8>, pos: int, end: int, f: FieldsView) -> Result<
    (FieldsView, int),
    ErrorView,
> {
    fold_children(s, pos, end, f, |e: Element, g: FieldsView| entry_step(s, e, g))
}

/// The number of bytes of a track entry's child, behind its header, that are read.
pub open spec fn entry_step_reads(s: Seq<u8>, e: Element) -> int {
    if is_number_field(e.id) {
        uint_reads(s, e)
    } else if is_text_field(e.id) {
        data_reads(s, e)
    } else if e.id == ids::CONTENT_ENCODINGS {
        encodings_reads(s, e.data, e.size)
    } else {
        0
    }
}

/// The number of bytes that reading the children of a track entry from `pos` on
/// reads.
pub open spec fn entry_reads_from(s: Seq<u8>, pos: int, end: int, f: FieldsView) -> int {
    fold_reads(
        s,
        pos,
        end,
        f,
        |e: Element, x: FieldsView| entry_step(s, e, x),
        |e: Element| entry_step_reads(s, e),
    )
}

/// The number of bytes that reading a track entry's data of `size` bytes at `pos`
/// reads.
pub open spec fn entry_reads(s: Seq<u8>, pos: int, size: u64) -> int {
    match end_of(pos, size) {
        Err(_) => 0,
        Ok(end) => entry_reads_from(s, pos, end, no_fields()),
    }
}

/// A language as a track gives it: "und" is none, any other has its shortest
/// form.
pub open spec fn track_language(language: Option<Seq<char>>) -> Option<Seq<char>> {
    match language {
        Some(l) => if l == "und"@ {
            None
        } else {
            Some(language_normalized(l))
        },
        None => None,
    }
}

/// The language that an entry names: its BCP 47 tag goes before its old code,
/// whatever their order.
pub open spec fn named_language(f: FieldsView) -> Option<Seq<char>> {
    match f.language_tag {
        Some(tag) => Some(tag),
        None => f.language,
    }
}

/// The track that the fields of an entry describe, if it is a PGS track. Such a
/// track needs a number.
pub open spec fn track_of(f: FieldsView) -> Result<Option<TrackView>, ErrorView> {
    if f.track_type != Some(TRACK_TYPE_SUBTITLE) || f.codec_id != Some(PGS_CODEC_ID@) {
        Ok(None)
    } else {
        match f.track_number {
            None => Err(ErrorView::InvalidMkv("PGS track missing TrackNumber"@)),
            Some(track_number) => Ok(
                Some(
                    TrackView {
                        track_number,
                        track_uid: f.track_uid,
                        language: track_language(named_language(f)),
                        name: f.name,
                        flag_default: f.flag_default,
                        flag_forced: f.flag_forced,
                        compression: f.compression,
                    },
                ),
            ),
        }
    }
}

/// The track in a track entry's data of `size` bytes at `pos`, if it is a PGS
/// track, and the position behind it.
pub open spec fn entry_at(s: Seq<u8>, pos: int, size: u64) -> Result<
    (Option<TrackView>, int),
    ErrorView,
> {
    match end_of(pos, size) {
        Err(error) => Err(error),
        Ok(end) => match entry_from(s, pos, end, no_fields()) {
            Err(error) => Err(error),
            Ok((f, next)) => match track_of(f) {
                Err(error) => Err(error),
                Ok(track) => Ok((track, next)),
            },
        },
    }
}

/// What a child of a Tracks element makes of the tracks.
pub open spec fn tracks_step(s: Seq<u8>, e: Element, tracks: Seq<TrackView>) -> Result<
    (Seq<TrackView>, int),
    ErrorView,
> {
    if e.id == ids::TRACK_ENTRY {
        match entry_at(s, e.data, e.size) {
            Err(error) => Err(error),
            Ok((Some(track), next)) => Ok((tracks.push(track), next)),
            Ok((None, next)) => Ok((tracks, next)),
        }
    } else {
        match end_of(e.data, e.size) {
            Err(error) => Err(error),
            Ok(next) => Ok((tracks, next)),
        }
    }
}

/// The PGS tracks in the children of a Tracks element from `pos` on, behind
/// `tracks`.
pub open spec fn tracks_from(s: Seq<u8>, pos: int, end: int, tracks: Seq<TrackView>) -> Result<
    (Seq<TrackView>, int),
    ErrorView,
> {
    fold_children(s, pos, end, tracks, |e: Element, t: Seq<TrackView>| tracks_step(s, e, t))
}

/// The number of bytes of a Tracks element's child, behind its header, that are
/// read.
pub open spec fn tracks_step_reads(s: Seq<u8>, e: Element) -> int {
    if e.id == ids::TRACK_ENTRY {
        entry_reads(s, e.data, e.size)
    } else {
        0
    }
}

/// The number of bytes that reading the children of a Tracks element from `pos` on
/// reads.
pub open spec fn tracks_reads_from(s: Seq<u8>, pos: int, end: int, tracks: Seq<TrackView>) -> int {
    fold_reads(
        s,
        pos,
        end,
        tracks,
        |e: Element, x: Seq<TrackView>| tracks_step(s, e, x),
        |e: Element| tracks_step_reads(s, e),
    )
}

/// The number of bytes that reading the Tracks element at `pos` reads.
pub open spec fn tracks_reads(s: Seq<u8>, pos: int) -> int {
    expected_reads(
        s,
        pos,
        ids::TRACKS,
        |data: int, end: int| tracks_reads_from(s, data, end, Seq::empty()),
    )
}

/// The PGS tracks in the Tracks element at `pos`.
pub open spec fn tracks_at(s: Seq<u8>, pos: int) -> Result<Seq<TrackView>, ErrorView> {
    match id_at(s, pos) {
        None => Err(ErrorView::InvalidVint),
        Some(id) => if id.value != ids::TRACKS {
            Err(ErrorView::InvalidMkv("expected Tracks element"@))
        } else {
            match element_at(s, pos) {
                None => Err(ErrorView::InvalidVint),
                Some(e) => match end_of(e.data, e.size) {
                    Err(error) => Err(error),
                    Ok(end) => match tracks_from(s, e.data, end, Seq::empty()) {
                        Err(error) => Err(error),
                        Ok((tracks, _)) => Ok(tracks),
                    },
                },
            }
        },
    }
}

/// Whether a text is present and equal to another.
fn is_text(t: &Option<String>, other: &str) -> (r: bool)
    ensures
        r == (text_view(*t) == Some(other@)),
{
    match t {
        Some(text) => *text == other.to_owned(),
        None => false,
    }
}

/// Reads one field of a track entry.
fn read_field<R: Source>(
    reader: &mut SeekBufReader<R>,
    id: u64,
    size: u64,
    fields: &mut TrackFields,
) -> (r: Result<(), PgsError>)
    ensures
        final(reader).bytes() == old(reader).bytes(),
        ({
            let reads = entry_step_reads(
                old(reader).bytes(),
                Element { id, size, data: old(reader).at() as int },
            );
            &&& final(reader).consumed() == counted(old(reader).consumed(), reads)
            &&& reads >= 0
        }),
        match (
            r,
            entry_step(
                old(reader).bytes(),
                Element { id, size, data: old(reader).at() as int },
                old(fields)@,
            ),
        ) {
            (Ok(()), Ok((v, next))) => {
                &&& final(fields)@ == v
                &&& final(reader).at() == next
                &&& next >= old(reader).at()
            },
            (Err(e), Err(v)) => e@ == v,
            _ => false,
        },
{
    if id == ids::TRACK_NUMBER || id == ids::TRACK_UID || id == ids::TRACK_TYPE || id
        == ids::FLAG_DEFAULT || id == ids::FLAG_FORCED {
        let v = match reader.read_uint_be(size) {
            Ok(v) => v,
            Err(e) => {
                return Err(e);
            },
        };
        if id == ids::TRACK_NUMBER {
            fields.track_number = Some(v);
        } else if id == ids::TRACK_UID {
            fields.track_uid = Some(v);
        } else if id == ids::TRACK_TYPE {
            fields.track_type = Some(v);
        } else if id == ids::FLAG_DEFAULT {
            fields.flag_default = Some(v == 1);
        } else {
            fields.flag_forced = Some(v == 1);
        }
    } else if id == ids::CODEC_ID || id == ids::TRACK_NAME || id == ids::LANGUAGE || id
        == ids::LANGUAGE_BCP47 {
        let t = match reader.read_string(size) {
            Ok(t) => t,
            Err(e) => {
                return Err(e);
            },
        };
        if id == ids::CODEC_ID {
            fields.codec_id = Some(t);
        } else if id == ids::TRACK_NAME {
            fields.name = Some(t);
        } else if id == ids::LANGUAGE {
            fields.language = Some(t);
        } else {
            fields.language_tag = Some(t);
        }
    } else if id == ids::CONTENT_ENCODINGS {
        fields.compression = match parse_content_encodings(reader, size) {
            Ok(c) => c,
            Err(e) => {
                return Err(e);
            },
        };
    } else {
        match reader.skip(size) {
            Ok(()) => {},
            Err(e) => {
                return Err(e);
            },
        }
    }
    Ok(())
}

fn parse_track_entry<R: Source>(reader: &mut SeekBufReader<R>, data_size: u64) -> (r: Result<
    Option<MkvPgsTrack>,
    PgsError,
>)
    ensures
        final(reader).bytes() == old(reader).bytes(),
        ({
            let reads = entry_reads(old(reader).bytes(), old(reader).at() as int, data_size);
            &&& final(reader).consumed() == counted(old(reader).consumed(), reads)
            &&& reads >= 0
        }),
        match (r, entry_at(old(reader).bytes(), old(reader).at() as int, data_size)) {
            (Ok(Some(track)), Ok((Some(v), next))) => {
                &&& track@ == v
                &&& final(reader).at() == next
                &&& next >= old(reader).at()
            },
            (Ok(None), Ok((None, next))) => final(reader).at() == next && next >= old(reader).at(),
            (Err(e), Err(v)) => e@ == v,
            _ => false,
        },
{
    let ghost s = reader.bytes();
    let ghost start = reader.at() as int;
    let end = match element_end(reader.position(), data_size) {
        Ok(end) => end,
        Err(e) => {
            return Err(e);
        },
    };
    let mut fields = TrackFields {
        track_number: None,
        track_uid: None,
        track_type: None,
        codec_id: None,
        language: None,
        language_tag: None,
        name: None,
        flag_default: None,
        flag_forced: None,
        compression: None,
    };
    let ghost goal = entry_from(s, start, end as int, no_fields());
    let ghost reads = entry_reads(s, start, data_size);
    let ghost mut done: int = 0;
    while reader.position() < end
        invariant
            reader.bytes() == s,
            done >= 0,
            reader.consumed() == counted(old(reader).consumed(), done),
            reads == entry_reads(s, start, data_size),
            reads == done + entry_reads_from(s, reader.at() as int, end as int, fields@),
            s == old(reader).bytes(),
            start == old(reader).at(),
            reader.at() >= start,
            end == start + data_size,
            goal == entry_from(s, start, end as int, no_fields()),
            goal == entry_from(s, reader.at() as int, end as int, fields@),
        decreases
                (if reader.at() < s.len() {
                    s.len() - reader.at()
                } else {
                    0
                }),
    {
        let ghost pos = reader.at() as int;
        let (child_id, child_size) = match read_element(reader) {
            Ok(e) => e,
            Err(e) => {
                return Err(e);
            },
        };
        assert(pos < s.len());
        proof {
            let e = Element { id: child_id, size: child_size, data: reader.at() as int };
            done = done + element_header_reads(s, pos) + entry_step_reads(s, e);
        }
        match read_field(reader, child_id, child_size, &mut fields) {
            Ok(()) => {},
            Err(e) => {
                return Err(e);
            },
        }
    }
    let subtitle = match fields.track_type {
        Some(t) => t == TRACK_TYPE_SUBTITLE,
        None => false,
    };
    if !subtitle || !is_text(&fields.codec_id, PGS_CODEC_ID) {
        return Ok(None);
    }
    let track_number = match fields.track_number {
        Some(n) => n,
        None => {
            return Err(PgsError::InvalidMkv("PGS track missing TrackNumber".to_owned()));
        },
    };
    let named = match fields.language_tag {
        Some(tag) => Some(tag),
        None => fields.language,
    };
    let language = if is_text(&named, "und") {
        None
    } else {
        match &named {
            Some(l) => Some(normalize_language(l.as_str())),
            None => None,
        }
    };
    Ok(
        Some(
            MkvPgsTrack {
                track_number,
                track_uid: fields.track_uid,
                language,
                name: fields.name,
                flag_default: fields.flag_default,
                flag_forced: fields.flag_forced,
                compression: fields.compression,
            },
        ),
    )
}

/// Parses the Tracks element at a position and returns the PGS tracks in it.
pub fn parse_tracks<R: Source>(reader: &mut SeekBufReader<R>, tracks_position: u64) -> (r: Result<
    Vec<MkvPgsTrack>,
    PgsError,
>)
    ensures
        final(reader).bytes() == old(reader).bytes(),
        ({
            let reads = tracks_reads(old(reader).bytes(), tracks_position as int);
            &&& final(reader).consumed() == counted(old(reader).consumed(), reads)
            &&& reads >= 0
        }),
        match (r, tracks_at(old(reader).bytes(), tracks_position as int)) {
            (Ok(tracks), Ok(v)) => track_views(tracks@) == v,
            (Err(e), Err(v)) => e@ == v,
            _ => false,
        },
{
    let ghost s = reader.bytes();
    let _ = reader.seek_to(tracks_position);
    let id = match read_element_id(reader) {
        Ok(id) => id,
        Err(e) => {
            return Err(e);
        },
    };
    if id.value != ids::TRACKS {
        return Err(PgsError::InvalidMkv("expected Tracks element".to_owned()));
    }
    let size = match read_element_size(reader) {
        Ok(size) => size,
        Err(e) => {
            return Err(e);
        },
    };
    let end = match element_end(reader.position(), size.value) {
        Ok(end) => end,
        Err(e) => {
            return Err(e);
        },
    };
    let mut pgs_tracks: Vec<MkvPgsTrack> = Vec::new();
    assert(track_views(pgs_tracks@) =~= Seq::<TrackView>::empty());
    let ghost goal = tracks_from(s, reader.at() as int, end as int, Seq::empty());
    let ghost reads = tracks_reads(s, tracks_position as int);
    let ghost mut done: int = reader.at() - tracks_position;
    while reader.position() < end
        invariant
            reader.bytes() == s,
            done >= 0,
            reader.consumed() == counted(old(reader).consumed(), done),
            reads == tracks_reads(s, tracks_position as int),
            reads == done + tracks_reads_from(
                s,
                reader.at() as int,
                end as int,
                track_views(pgs_tracks@),
            ),
            s == old(reader).bytes(),
            goal == tracks_from(s, reader.at() as int, end as int, track_views(pgs_tracks@)),
            goal matches Err(e) ==> tracks_at(s, tracks_position as int) == Err::<
                Seq<TrackView>,
                ErrorView,
            >(e),
        decreases
                (if reader.at() < s.len() {
                    s.len() - reader.at()
                } else {
                    0
                }),
    {
        let ghost pos = reader.at() as int;
        let (child_id, child_size) = match read_element(reader) {
            Ok(e) => e,
            Err(e) => {
                return Err(e);
            },
        };
        assert(pos < s.len());
        proof {
            let e = Element { id: child_id, size: child_size, data: reader.at() as int };
            done = done + element_header_reads(s, pos) + tracks_step_reads(s, e);
        }
        if child_id == ids::TRACK_ENTRY {
            match parse_track_entry(reader, child_size) {
                Ok(Some(track)) => {
                    let ghost before = track_views(pgs_tracks@);
                    pgs_tracks.push(track);
                    assert(track_views(pgs_tracks@) =~= before.push(track@));
                },
                Ok(None) => {},
                Err(e) => {
                    return Err(e);
                },
            }
        } else {
            match reader.skip(child_size) {
                Ok(()) => {},
                Err(e) => {
                    return Err(e);
                },
            }
        }
    }
    Ok(pgs_tracks)
}

} // verus!
