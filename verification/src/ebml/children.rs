//! The values of elements and the children of containers.
use vstd::prelude::*;
use crate::bytes::be_value;
use crate::ebml::vint::{element_at, element_header_reads, id_at, vint_stop, Element};
use crate::error::{ErrorView, IoError, PgsError};
use crate::text::utf8_error;
use vstd::utf8::{decode_utf8, valid_utf8};

verus! {

/// The `n` bytes at `pos`.
pub open spec fn bytes_at(s: Seq<u8>, pos: int, n: u64) -> Result<Seq<u8>, ErrorView> {
    if pos + n <= s.len() {
        Ok(s.subrange(pos, pos + n))
    } else {
        Err(ErrorView::Io(IoError::UnexpectedEof))
    }
}

/// The number that the `n` bytes at `pos` spell.
pub open spec fn uint_at(s: Seq<u8>, pos: int, n: u64) -> Result<u64, ErrorView> {
    if n > 8 {
        Err(ErrorView::Io(IoError::IntegerTooLong))
    } else if pos + n <= s.len() {
        Ok(be_value(s.subrange(pos, pos + n)) as u64)
    } else {
        Err(ErrorView::Io(IoError::UnexpectedEof))
    }
}

/// The text that the `n` bytes at `pos` encode.
pub open spec fn text_at(s: Seq<u8>, pos: int, n: u64) -> Result<Seq<char>, ErrorView> {
    if pos + n > s.len() {
        Err(ErrorView::Io(IoError::UnexpectedEof))
    } else if valid_utf8(s.subrange(pos, pos + n)) {
        Ok(decode_utf8(s.subrange(pos, pos + n)))
    } else {
        Err(ErrorView::Io(utf8_error(s.subrange(pos, pos + n))))
    }
}

/// The end of `n` bytes at `pos`, if it can be represented.
pub open spec fn end_of(pos: int, n: u64) -> Result<int, ErrorView> {
    if pos + n <= u64::MAX {
        Ok(pos + n)
    } else {
        Err(ErrorView::Io(IoError::InvalidPosition))
    }
}

/// The end of `n` bytes at `pos`, if it can be represented.
pub fn element_end(pos: u64, n: u64) -> (r: Result<u64, PgsError>)
    ensures
        match (r, end_of(pos as int, n)) {
            (Ok(end), Ok(v)) => end == v,
            (Err(e), Err(v)) => e@ == v,
            _ => false,
        },
{
    if n <= u64::MAX - pos {
        Ok(pos + n)
    } else {
        Err(PgsError::Io(IoError::InvalidPosition))
    }
}

/// Goes through the children of a container from `pos` on, until a child
/// starts at `end` or behind it.
///
/// `step` takes a child and what the children before it have come to. It gives
/// what they come to with this child, and the position behind it. The result
/// is what all children come to and where the last one ends. A malformed child
/// header is an error.
pub open spec fn fold_children<A>(
    s: Seq<u8>,
    pos: int,
    end: int,
    acc: A,
    step: spec_fn(Element, A) -> Result<(A, int), ErrorView>,
) -> Result<(A, int), ErrorView>
    decreases
            (if pos < s.len() {
                s.len() - pos
            } else {
                0
            }),
{
    if pos >= end {
        Ok((acc, pos))
    } else {
        match element_at(s, pos) {
            None => Err(ErrorView::InvalidVint),
            Some(e) => match step(e, acc) {
                Err(error) => Err(error),
                Ok((next_acc, next)) => if next > pos {
                    fold_children(s, next, end, next_acc, step)
                } else {
                    Err(ErrorView::Io(IoError::InvalidPosition))
                },
            },
        }
    }
}

/// The number of bytes that reading the data of an element reads: none if they
/// are not all there.
pub open spec fn data_reads(s: Seq<u8>, e: Element) -> int {
    if e.data + e.size <= s.len() {
        e.size as int
    } else {
        0
    }
}

/// The number of bytes that reading an element's data as a number reads.
pub open spec fn uint_reads(s: Seq<u8>, e: Element) -> int {
    if e.size <= 8 {
        data_reads(s, e)
    } else {
        0
    }
}

/// The number of bytes that going through the children of a container from `pos`
/// on reads: the header of each child, and what `reads` says of its data.
pub open spec fn fold_reads<A>(
    s: Seq<u8>,
    pos: int,
    end: int,
    acc: A,
    step: spec_fn(Element, A) -> Result<(A, int), ErrorView>,
    reads: spec_fn(Element) -> int,
) -> int
    decreases
            (if pos < s.len() {
                s.len() - pos
            } else {
                0
            }),
{
    if pos >= end {
        0
    } else {
        element_header_reads(s, pos) + match element_at(s, pos) {
            None => 0,
            Some(e) => reads(e) + match step(e, acc) {
                Err(_) => 0,
                Ok((next_acc, next)) => if next > pos {
                    fold_reads(s, next, end, next_acc, step, reads)
                } else {
                    0
                },
            },
        }
    }
}

/// The number of bytes that reading the header of the element at `pos` reads,
/// which goes on behind the identifier only if it is the expected one.
pub open spec fn expected_header_reads(s: Seq<u8>, pos: int, id: u64) -> int {
    match id_at(s, pos) {
        None => vint_stop(s, pos, 4) - pos,
        Some(found) => if found.value != id {
            found.width as int
        } else {
            element_header_reads(s, pos)
        },
    }
}

/// The number of bytes that going through the expected element at `pos` reads,
/// where `inner` says what its data from a position up to another takes.
pub open spec fn expected_reads(
    s: Seq<u8>,
    pos: int,
    id: u64,
    inner: spec_fn(int, int) -> int,
) -> int {
    expected_header_reads(s, pos, id) + match (id_at(s, pos), element_at(s, pos)) {
        (Some(found), Some(e)) => if found.value != id {
            0
        } else {
            match end_of(e.data, e.size) {
                Err(_) => 0,
                Ok(end) => inner(e.data, end),
            }
        },
        _ => 0,
    }
}

} // verus!
