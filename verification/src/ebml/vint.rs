//! Variable-length integers and element headers.
use vstd::prelude::*;
use crate::bytes::{be_value, uint_be};
use crate::error::{ErrorView, PgsError};
use crate::io::reader::{counted, SeekBufReader, Source};

verus! {

/// A variable-length integer: its value and its width in bytes.
#[derive(Debug, Clone, Copy, PartialEq, Eq, Structural)]
pub struct Vint {
    pub value: u64,
    pub width: u8,
}

/// The width that the first byte announces, or 0 if it announces none. A
/// leading one bit at place `n` announces `n` bytes.
pub open spec fn vint_width(first: u8) -> int {
    if first >= 0x80 {
        1
    } else if first >= 0x40 {
        2
    } else if first >= 0x20 {
        3
    } else if first >= 0x10 {
        4
    } else if first >= 0x08 {
        5
    } else if first >= 0x04 {
        6
    } else if first >= 0x02 {
        7
    } else if first >= 0x01 {
        8
    } else {
        0
    }
}

/// The leading one bit of an integer of `width` bytes; it has seven data bits
/// for each byte.
pub open spec fn vint_marker(width: int) -> nat {
    if width == 1 {
        0x80
    } else if width == 2 {
        0x4000
    } else if width == 3 {
        0x20_0000
    } else if width == 4 {
        0x1000_0000
    } else if width == 5 {
        0x8_0000_0000
    } else if width == 6 {
        0x400_0000_0000
    } else if width == 7 {
        0x2_0000_0000_0000
    } else {
        0x100_0000_0000_0000
    }
}

/// The element identifier at `pos`: at most four bytes, the leading one bit
/// included.
pub open spec fn id_at(s: Seq<u8>, pos: int) -> Option<Vint> {
    if pos < 0 || pos >= s.len() {
        None
    } else {
        let width = vint_width(s[pos]);
        if width == 0 || width > 4 || pos + width > s.len() {
            None
        } else {
            Some(Vint { value: be_value(s.subrange(pos, pos + width)) as u64, width: width as u8 })
        }
    }
}

/// The data size at `pos`: at most eight bytes, the leading one bit removed. A
/// size whose data bits are all one is unknown and stands as `u64::MAX`.
pub open spec fn size_at(s: Seq<u8>, pos: int) -> Option<Vint> {
    if pos < 0 || pos >= s.len() {
        None
    } else {
        let width = vint_width(s[pos]);
        if width == 0 || pos + width > s.len() {
            None
        } else {
            let value = be_value(s.subrange(pos, pos + width)) - vint_marker(width);
            Some(
                Vint {
                    value: if value == vint_marker(width) - 1 {
                        u64::MAX
                    } else {
                        value as u64
                    },
                    width: width as u8,
                },
            )
        }
    }
}

/// Where reading stops that fails to read an integer of at most `max_width`
/// bytes at `pos`.
pub open spec fn vint_stop(s: Seq<u8>, pos: int, max_width: int) -> int {
    if pos >= s.len() {
        pos
    } else if vint_width(s[pos]) == 0 || vint_width(s[pos]) > max_width {
        pos + 1
    } else {
        s.len() as int
    }
}

/// The range of an integer whose first byte announces `width` bytes.
proof fn lemma_vint_range(s: Seq<u8>)
    requires
        s.len() > 0,
        vint_width(s[0]) == s.len(),
    ensures
        vint_marker(s.len() as int) <= be_value(s) < 2 * vint_marker(s.len() as int),
{
    lemma_leading_byte(s);
    let n = s.len() as int;
    let first = s[0] as int;
    let low = vint_low(n);
    let p = vint_place(n) as int;
    assert(low <= first < 2 * low);
    assert(low * p == vint_marker(n));
    assert(low * p <= first * p && (first + 1) * p <= 2 * (low * p)) by (nonlinear_arith)
        requires
            low <= first,
            first + 1 <= 2 * low,
            p >= 0,
    ;
}

/// The smallest first byte of an integer of `width` bytes.
spec fn vint_low(width: int) -> int {
    if width == 1 {
        0x80
    } else if width == 2 {
        0x40
    } else if width == 3 {
        0x20
    } else if width == 4 {
        0x10
    } else if width == 5 {
        0x08
    } else if width == 6 {
        0x04
    } else if width == 7 {
        0x02
    } else {
        0x01
    }
}

proof fn lemma_leading_byte(s: Seq<u8>)
    requires
        0 < s.len() <= 8,
    ensures
        s[0] * vint_place(s.len() as int) <= be_value(s) < (s[0] + 1) * vint_place(s.len() as int),
    decreases s.len(),
{
    if s.len() == 1 {
        reveal_with_fuel(be_value, 2);
    } else {
        let init = s.drop_last();
        lemma_leading_byte(init);
        let p = vint_place(init.len() as int);
        let first = s[0] as int;
        assert(vint_place(s.len() as int) == 256 * p);
        assert(first * (256 * p) == 256 * (first * p) && (first + 1) * (256 * p) == 256 * ((first
            + 1) * p)) by (nonlinear_arith);
    }
}

/// The place value of the first of `width` bytes.
spec fn vint_place(width: int) -> nat {
    if width == 1 {
        1
    } else if width == 2 {
        0x100
    } else if width == 3 {
        0x1_0000
    } else if width == 4 {
        0x100_0000
    } else if width == 5 {
        0x1_0000_0000
    } else if width == 6 {
        0x100_0000_0000
    } else if width == 7 {
        0x1_0000_0000_0000
    } else {
        0x100_0000_0000_0000
    }
}

fn width_of(first: u8) -> (r: u8)
    ensures
        r == vint_width(first),
{
    if first >= 0x80 {
        1
    } else if first >= 0x40 {
        2
    } else if first >= 0x20 {
        3
    } else if first >= 0x10 {
        4
    } else if first >= 0x08 {
        5
    } else if first >= 0x04 {
        6
    } else if first >= 0x02 {
        7
    } else if first >= 0x01 {
        8
    } else {
        0
    }
}

fn marker_of(width: u8) -> (r: u64)
    ensures
        r == vint_marker(width as int),
{
    if width == 1 {
        0x80
    } else if width == 2 {
        0x4000
    } else if width == 3 {
        0x20_0000
    } else if width == 4 {
        0x1000_0000
    } else if width == 5 {
        0x8_0000_0000
    } else if width == 6 {
        0x400_0000_0000
    } else if width == 7 {
        0x2_0000_0000_0000
    } else {
        0x100_0000_0000_0000
    }
}

/// Reads an integer of at most `max_width` bytes, the leading one bit
/// included.
fn read_raw<R: Source>(reader: &mut SeekBufReader<R>, max_width: u8) -> (r: Result<Vint, PgsError>)
    requires
        max_width <= 8,
    ensures
        final(reader).bytes() == old(reader).bytes(),
        final(reader).consumed() == counted(
            old(reader).consumed(),
            final(reader).at() - old(reader).at(),
        ),
        ({
            let s = old(reader).bytes();
            let pos = old(reader).at() as int;
            let there = pos < s.len() && 0 < vint_width(s[pos]) <= max_width && pos + vint_width(
                s[pos],
            ) <= s.len();
            &&& r is Ok <==> there
            &&& r matches Ok(v) ==> {
                &&& v.width == vint_width(s[pos])
                &&& v.value == be_value(s.subrange(pos, pos + v.width))
                &&& final(reader).at() == pos + v.width
            }
            &&& r matches Err(e) ==> e@ == ErrorView::InvalidVint && final(reader).at()
                == vint_stop(s, pos, max_width as int)
        }),
{
    let first = match reader.read_bytes(1) {
        Ok(data) => data,
        Err(_) => {
            return Err(PgsError::InvalidVint);
        },
    };
    let width: u8 = width_of(first[0]);
    if width == 0 || width > max_width {
        return Err(PgsError::InvalidVint);
    }
    let mut data = first;
    let mut rest = match reader.read_bytes(width as u64 - 1) {
        Ok(data) => data,
        Err(_) => {
            let _ = reader.drain(width as u64 - 1);
            return Err(PgsError::InvalidVint);
        },
    };
    data.append(&mut rest);
    assert(data@ =~= old(reader).bytes().subrange(old(reader).at() as int, old(reader).at() + width));
    Ok(Vint { value: uint_be(data.as_slice()), width })
}

/// Reads an element identifier.
pub fn read_element_id<R: Source>(reader: &mut SeekBufReader<R>) -> (r: Result<Vint, PgsError>)
    ensures
        final(reader).bytes() == old(reader).bytes(),
        final(reader).consumed() == counted(
            old(reader).consumed(),
            final(reader).at() - old(reader).at(),
        ),
        r is Ok <==> id_at(old(reader).bytes(), old(reader).at() as int) is Some,
        r matches Ok(v) ==> id_at(old(reader).bytes(), old(reader).at() as int) == Some(v)
            && final(reader).at() == old(reader).at() + v.width,
        r matches Err(e) ==> e@ == ErrorView::InvalidVint && final(reader).at() == vint_stop(
            old(reader).bytes(),
            old(reader).at() as int,
            4,
        ),
{
    read_raw(reader, 4)
}

/// Reads a data size.
pub fn read_element_size<R: Source>(reader: &mut SeekBufReader<R>) -> (r: Result<Vint, PgsError>)
    ensures
        final(reader).bytes() == old(reader).bytes(),
        final(reader).consumed() == counted(
            old(reader).consumed(),
            final(reader).at() - old(reader).at(),
        ),
        r is Ok <==> size_at(old(reader).bytes(), old(reader).at() as int) is Some,
        r matches Ok(v) ==> size_at(old(reader).bytes(), old(reader).at() as int) == Some(v)
            && final(reader).at() == old(reader).at() + v.width,
        r matches Err(e) ==> e@ == ErrorView::InvalidVint && final(reader).at() == vint_stop(
            old(reader).bytes(),
            old(reader).at() as int,
            8,
        ),
{
    let raw = match read_raw(reader, 8) {
        Ok(v) => v,
        Err(e) => {
            return Err(e);
        },
    };
    proof {
        let s = old(reader).bytes();
        let pos = old(reader).at() as int;
        lemma_vint_range(s.subrange(pos, pos + raw.width));
    }
    let marker: u64 = marker_of(raw.width);
    let value: u64 = raw.value - marker;
    Ok(Vint { value: if value == marker - 1 { u64::MAX } else { value }, width: raw.width })
}

/// Reads the track number in a block's header, which is encoded like a size.
pub fn read_track_number<R: Source>(reader: &mut SeekBufReader<R>) -> (r: Result<Vint, PgsError>)
    ensures
        final(reader).bytes() == old(reader).bytes(),
        final(reader).consumed() == counted(
            old(reader).consumed(),
            final(reader).at() - old(reader).at(),
        ),
        r is Ok <==> size_at(old(reader).bytes(), old(reader).at() as int) is Some,
        r matches Ok(v) ==> size_at(old(reader).bytes(), old(reader).at() as int) == Some(v)
            && final(reader).at() == old(reader).at() + v.width,
        r matches Err(e) ==> e@ == ErrorView::InvalidVint && final(reader).at() == vint_stop(
            old(reader).bytes(),
            old(reader).at() as int,
            8,
        ),
{
    read_element_size(reader)
}

/// An element: its identifier, its data size and where its data starts.
pub struct Element {
    pub id: u64,
    pub size: u64,
    pub data: int,
}

/// The element at `pos`.
pub open spec fn element_at(s: Seq<u8>, pos: int) -> Option<Element> {
    match id_at(s, pos) {
        None => None,
        Some(id) => match size_at(s, pos + id.width) {
            None => None,
            Some(size) => Some(
                Element { id: id.value, size: size.value, data: pos + id.width + size.width },
            ),
        },
    }
}

/// Where reading stops that fails to read an element's header at `pos`.
pub open spec fn header_stop(s: Seq<u8>, pos: int) -> int {
    match id_at(s, pos) {
        None => vint_stop(s, pos, 4),
        Some(id) => vint_stop(s, pos + id.width, 8),
    }
}

/// The number of bytes that reading an element's header at `pos` reads.
pub open spec fn element_header_reads(s: Seq<u8>, pos: int) -> int {
    match element_at(s, pos) {
        Some(e) => e.data - pos,
        None => header_stop(s, pos) - pos,
    }
}

/// Reads an element's header. Returns its identifier and its data size.
pub fn read_element<R: Source>(reader: &mut SeekBufReader<R>) -> (r: Result<(u64, u64), PgsError>)
    ensures
        final(reader).bytes() == old(reader).bytes(),
        final(reader).consumed() == counted(
            old(reader).consumed(),
            final(reader).at() - old(reader).at(),
        ),
        r is Ok <==> element_at(old(reader).bytes(), old(reader).at() as int) is Some,
        r matches Ok((id, size)) ==> element_at(old(reader).bytes(), old(reader).at() as int)
            == Some(Element { id, size, data: final(reader).at() as int }) && final(reader).at()
            > old(reader).at(),
        r matches Err(e) ==> e@ == ErrorView::InvalidVint && final(reader).at() == header_stop(
            old(reader).bytes(),
            old(reader).at() as int,
        ),
{
    let id = match read_element_id(reader) {
        Ok(id) => id,
        Err(e) => {
            return Err(e);
        },
    };
    match read_element_size(reader) {
        Ok(size) => Ok((id.value, size.value)),
        Err(e) => Err(e),
    }
}

} // verus!
