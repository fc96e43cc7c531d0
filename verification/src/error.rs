//! The errors of the library.
use vstd::prelude::*;
use crate::text::{decimal, push_decimal};

verus! {

/// What can go wrong when bytes are taken from a source.
#[derive(Debug, Clone, Copy, PartialEq, Eq, Structural)]
pub enum IoError {
    /// The source ends before the requested bytes do.
    UnexpectedEof,
    /// The source ends before the bytes to be drained do.
    DrainEof,
    /// The source ends in the middle of a read that may only end in front of it.
    PartialRead,
    /// The source ends within a segment's header.
    TruncatedHeader,
    /// The bytes are not valid UTF-8 behind the first `valid_up_to` of them: a
    /// sequence of `error_len` bytes is invalid or, without that, the last one is
    /// incomplete.
    InvalidUtf8 { valid_up_to: u64, error_len: Option<u8> },
    /// A number of more than eight bytes.
    IntegerTooLong,
    /// A position or an element size that cannot be represented.
    InvalidPosition,
}

/// All errors that can occur during extraction and encoding.
#[derive(Debug)]
pub enum PgsError {
    Io(IoError),
    /// Not a valid EBML file or an unsupported DocType.
    InvalidEbml(String),
    /// An EBML variable-length integer is malformed.
    InvalidVint,
    /// An MKV structural element is malformed or unexpected.
    InvalidMkv(String),
    /// The TS or M2TS packet structure is malformed.
    InvalidTs(String),
    /// A PGS segment header is malformed.
    InvalidPgs(String),
    /// The container holds no PGS tracks.
    NoPgsTracks,
    /// The requested track does not exist.
    TrackNotFound(u32),
    /// The container format could not be detected.
    UnknownFormat,
    /// A display set cannot be encoded.
    EncodingError(String),
}

/// An error as a mathematical value.
pub enum ErrorView {
    Io(IoError),
    InvalidEbml(Seq<char>),
    InvalidVint,
    InvalidMkv(Seq<char>),
    InvalidTs(Seq<char>),
    InvalidPgs(Seq<char>),
    NoPgsTracks,
    TrackNotFound(u32),
    UnknownFormat,
    EncodingError(Seq<char>),
}

impl View for PgsError {
    type V = ErrorView;

    open spec fn view(&self) -> ErrorView {
        match self {
            PgsError::Io(e) => ErrorView::Io(*e),
            PgsError::InvalidEbml(m) => ErrorView::InvalidEbml(m@),
            PgsError::InvalidVint => ErrorView::InvalidVint,
            PgsError::InvalidMkv(m) => ErrorView::InvalidMkv(m@),
            PgsError::InvalidTs(m) => ErrorView::InvalidTs(m@),
            PgsError::InvalidPgs(m) => ErrorView::InvalidPgs(m@),
            PgsError::NoPgsTracks => ErrorView::NoPgsTracks,
            PgsError::TrackNotFound(id) => ErrorView::TrackNotFound(*id),
            PgsError::UnknownFormat => ErrorView::UnknownFormat,
            PgsError::EncodingError(m) => ErrorView::EncodingError(m@),
        }
    }
}

/// The text that describes an I/O error.
pub open spec fn io_error_text(e: IoError) -> Seq<char> {
    match e {
        IoError::UnexpectedEof => "failed to fill whole buffer"@,
        IoError::DrainEof => "unexpected EOF during drain"@,
        IoError::PartialRead => "unexpected EOF in middle of read"@,
        IoError::TruncatedHeader => "truncated PGS segment header"@,
        IoError::InvalidUtf8 { valid_up_to, error_len } => match error_len {
            Some(n) => "invalid utf-8 sequence of "@ + decimal(n as nat) + " bytes from index "@
                + decimal(valid_up_to as nat),
            None => "incomplete utf-8 byte sequence from index "@ + decimal(valid_up_to as nat),
        },
        IoError::IntegerTooLong => "integer of more than 8 bytes"@,
        IoError::InvalidPosition => "invalid seek to a negative or overflowing position"@,
    }
}

/// The text that describes an error.
pub open spec fn error_text(e: ErrorView) -> Seq<char> {
    match e {
        ErrorView::Io(io) => "I/O error: "@ + io_error_text(io),
        ErrorView::InvalidEbml(m) => "invalid EBML: "@ + m,
        ErrorView::InvalidVint => "malformed EBML VINT"@,
        ErrorView::InvalidMkv(m) => "invalid MKV: "@ + m,
        ErrorView::InvalidTs(m) => "invalid TS: "@ + m,
        ErrorView::InvalidPgs(m) => "invalid PGS: "@ + m,
        ErrorView::NoPgsTracks => "no PGS tracks found"@,
        ErrorView::TrackNotFound(id) => "track "@ + decimal(id as nat) + " not found"@,
        ErrorView::UnknownFormat => "unknown container format"@,
        ErrorView::EncodingError(m) => "encoding error: "@ + m,
    }
}

impl IoError {
    /// The text that describes this error.
    pub fn message(&self) -> (r: String)
        ensures
            r@ == io_error_text(*self),
    {
        match self {
            IoError::UnexpectedEof => "failed to fill whole buffer".to_owned(),
            IoError::DrainEof => "unexpected EOF during drain".to_owned(),
            IoError::PartialRead => "unexpected EOF in middle of read".to_owned(),
            IoError::TruncatedHeader => "truncated PGS segment header".to_owned(),
            IoError::InvalidUtf8 { valid_up_to, error_len } => match error_len {
                Some(n) => {
                    let mut s = "invalid utf-8 sequence of ".to_owned();
                    push_decimal(&mut s, *n as u64);
                    s.push_str(" bytes from index ");
                    push_decimal(&mut s, *valid_up_to);
                    s
                },
                None => {
                    let mut s = "incomplete utf-8 byte sequence from index ".to_owned();
                    push_decimal(&mut s, *valid_up_to);
                    s
                },
            },
            IoError::IntegerTooLong => "integer of more than 8 bytes".to_owned(),
            IoError::InvalidPosition => {
                "invalid seek to a negative or overflowing position".to_owned()
            },
        }
    }
}

/// `prefix` followed by `text`.
fn joined(prefix: &str, text: &str) -> (r: String)
    ensures
        r@ == prefix@ + text@,
{
    let mut s = prefix.to_owned();
    s.push_str(text);
    s
}

impl PgsError {
    /// The text that describes this error.
    pub fn message(&self) -> (r: String)
        ensures
            r@ == error_text(self@),
    {
        match self {
            PgsError::Io(e) => joined("I/O error: ", e.message().as_str()),
            PgsError::InvalidEbml(m) => joined("invalid EBML: ", m.as_str()),
            PgsError::InvalidVint => "malformed EBML VINT".to_owned(),
            PgsError::InvalidMkv(m) => joined("invalid MKV: ", m.as_str()),
            PgsError::InvalidTs(m) => joined("invalid TS: ", m.as_str()),
            PgsError::InvalidPgs(m) => joined("invalid PGS: ", m.as_str()),
            PgsError::NoPgsTracks => "no PGS tracks found".to_owned(),
            PgsError::TrackNotFound(id) => {
                let mut s = "track ".to_owned();
                push_decimal(&mut s, *id as u64);
                s.push_str(" not found");
                s
            },
            PgsError::UnknownFormat => "unknown container format".to_owned(),
            PgsError::EncodingError(m) => joined("encoding error: ", m.as_str()),
        }
    }
}

impl From<IoError> for PgsError {
    fn from(e: IoError) -> (r: Self) {
        PgsError::Io(e)
    }
}

impl vstd::std_specs::convert::FromSpecImpl<IoError> for PgsError {
    open spec fn obeys_from_spec() -> bool {
        true
    }

    open spec fn from_spec(e: IoError) -> PgsError {
        PgsError::Io(e)
    }
}

} // verus!
