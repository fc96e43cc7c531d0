//! Elements as they are written, and that they are read back.
use vstd::prelude::*;
use crate::bytes::be_value;
use crate::ebml::children::{bytes_at, text_at, uint_at};
use crate::ebml::vint::{element_at, id_at, size_at, Element, Vint};
use crate::error::ErrorView;
use vstd::utf8::encode_utf8;

verus! {

/// 256 to the power of `n`.
pub open spec fn power256(n: nat) -> nat
    decreases n,
{
    if n == 0 {
        1
    } else {
        256 * power256((n - 1) as nat)
    }
}

/// 128 to the power of `n`.
pub open spec fn power128(n: nat) -> nat
    decreases n,
{
    if n == 0 {
        1
    } else {
        128 * power128((n - 1) as nat)
    }
}

/// The `n` low bytes of a number, the most significant first.
pub open spec fn be_bytes(v: nat, n: nat) -> Seq<u8>
    decreases n,
{
    if n == 0 {
        Seq::empty()
    } else {
        be_bytes(v / 256, (n - 1) as nat).push((v % 256) as u8)
    }
}

/// Bytes spell the number whose bytes they are.
pub proof fn bytes_spell_their_number(v: nat, n: nat)
    requires
        v < power256(n),
    ensures
        be_bytes(v, n).len() == n,
        be_value(be_bytes(v, n)) == v,
    decreases n,
{
    if n > 0 {
        assert(v / 256 < power256((n - 1) as nat));
        bytes_spell_their_number(v / 256, (n - 1) as nat);
        assert(be_bytes(v, n).drop_last() =~= be_bytes(v / 256, (n - 1) as nat));
    }
}

proof fn lemma_first_byte(v: nat, n: nat)
    requires
        n > 0,
        v < power256(n),
    ensures
        be_bytes(v, n).len() == n,
        be_bytes(v, n)[0] == v / power256((n - 1) as nat),
    decreases n,
{
    if n == 1 {
        assert(be_bytes(v, 1) =~= seq![(v % 256) as u8]) by {
            reveal_with_fuel(be_bytes, 2);
        }
        reveal_with_fuel(power256, 2);
        assert(v / 1 == v);
    } else {
        let m = (n - 1) as nat;
        let p = power256((m - 1) as nat);
        assert(v / 256 < power256(m));
        lemma_first_byte(v / 256, m);
        lemma_power256_positive((m - 1) as nat);
        assert(power256(m) == 256 * p);
        vstd::arithmetic::div_mod::lemma_div_denominator(v as int, 256, p as int);
        assert((v / 256) / p == v / (256 * p));
    }
}

proof fn lemma_power256_positive(n: nat)
    ensures
        power256(n) > 0,
    decreases n,
{
    if n > 0 {
        lemma_power256_positive((n - 1) as nat);
    }
}

/// A data size of `w` bytes: a one bit behind `w - 1` zero bits, and then the
/// number.
pub open spec fn size_bytes(v: nat, w: nat) -> Seq<u8> {
    be_bytes(power128(w) + v, w)
}

/// Whether data of a size can be written with a size of `w` bytes.
pub open spec fn size_fits(n: nat, w: nat) -> bool {
    1 <= w <= 8 && n < power128(w) - 1
}

/// Whether a number is an element identifier: its leading bits say how many
/// bytes it has.
pub open spec fn is_id(id: u64) -> bool {
    0x80 <= id < 0x100 || 0x4000 <= id < 0x8000 || 0x20_0000 <= id < 0x40_0000 || 0x1000_0000 <= id
        < 0x2000_0000
}

/// The number of bytes of an element identifier.
pub open spec fn id_width(id: u64) -> nat {
    if id < 0x100 {
        1
    } else if id < 0x1_0000 {
        2
    } else if id < 0x100_0000 {
        3
    } else {
        4
    }
}

/// An element identifier as it is written.
pub open spec fn id_bytes(id: u64) -> Seq<u8> {
    be_bytes(id as nat, id_width(id))
}

/// An element with a size of `w` bytes.
pub open spec fn element_bytes(id: u64, w: nat, data: Seq<u8>) -> Seq<u8> {
    id_bytes(id) + size_bytes(data.len(), w) + data
}

/// Whether `s` holds `part` at `pos`.
pub open spec fn holds(s: Seq<u8>, pos: int, part: Seq<u8>) -> bool {
    0 <= pos && pos + part.len() <= s.len() && s.subrange(pos, pos + part.len()) == part
}

pub(crate) proof fn lemma_holds_parts(s: Seq<u8>, pos: int, a: Seq<u8>, b: Seq<u8>)
    requires
        holds(s, pos, a + b),
    ensures
        holds(s, pos, a),
        holds(s, pos + a.len(), b),
{
    let t = a + b;
    assert(s.subrange(pos, pos + a.len()) =~= a) by {
        assert forall|i: int| 0 <= i < a.len() implies s[pos + i] == a[i] by {
            assert(s.subrange(pos, pos + t.len())[i] == t[i]);
        }
    }
    assert(s.subrange(pos + a.len(), pos + a.len() + b.len()) =~= b) by {
        assert forall|i: int| 0 <= i < b.len() implies s[pos + a.len() + i] == b[i] by {
            assert(s.subrange(pos, pos + t.len())[a.len() + i] == t[a.len() + i]);
        }
    }
}

pub(crate) proof fn lemma_holds_at(s: Seq<u8>, pos: int, part: Seq<u8>, i: int)
    requires
        holds(s, pos, part),
        0 <= i < part.len(),
    ensures
        s[pos + i] == part[i],
{
    assert(s.subrange(pos, pos + part.len())[i] == part[i]);
}

proof fn lemma_powers()
    ensures
        power128(1) == 0x80,
        power128(2) == 0x4000,
        power128(3) == 0x20_0000,
        power128(4) == 0x1000_0000,
        power128(5) == 0x8_0000_0000,
        power128(6) == 0x400_0000_0000,
        power128(7) == 0x2_0000_0000_0000,
        power128(8) == 0x100_0000_0000_0000,
        power256(0) == 1,
        power256(1) == 0x100,
        power256(2) == 0x1_0000,
        power256(3) == 0x100_0000,
        power256(4) == 0x1_0000_0000,
        power256(5) == 0x100_0000_0000,
        power256(6) == 0x1_0000_0000_0000,
        power256(7) == 0x100_0000_0000_0000,
        power256(8) == 0x1_0000_0000_0000_0000,
{
    reveal_with_fuel(power128, 9);
    reveal_with_fuel(power256, 9);
}

/// A size that is written with any number of bytes is read back. One whose bits
/// are all ones is unknown.
pub proof fn written_size_is_read(s: Seq<u8>, pos: int, v: nat, w: nat)
    requires
        1 <= w <= 8,
        v < power128(w),
        holds(s, pos, size_bytes(v, w)),
    ensures
        size_bytes(v, w).len() == w,
        size_at(s, pos) == Some(
            Vint {
                value: if v == power128(w) - 1 {
                    u64::MAX
                } else {
                    v as u64
                },
                width: w as u8,
            },
        ),
{
    lemma_powers();
    let total = power128(w) + v;
    assert(total < power256(w)) by {
        assert(w == 1 || w == 2 || w == 3 || w == 4 || w == 5 || w == 6 || w == 7 || w == 8);
    }
    bytes_spell_their_number(total, w);
    lemma_first_byte(total, w);
    lemma_holds_at(s, pos, size_bytes(v, w), 0);
    let first = s[pos];
    let p = power256((w - 1) as nat);
    assert(first == total / p);
    if w == 1 {
        assert(0x80 <= first < 0x100);
    } else if w == 2 {
        assert(0x40 <= first < 0x80);
    } else if w == 3 {
        assert(0x20 <= first < 0x40);
    } else if w == 4 {
        assert(0x10 <= first < 0x20);
    } else if w == 5 {
        assert(0x08 <= first < 0x10);
    } else if w == 6 {
        assert(0x04 <= first < 0x08);
    } else if w == 7 {
        assert(0x02 <= first < 0x04);
    } else {
        assert(w == 8);
        assert(0x01 <= first < 0x02);
    }
}

/// An identifier that is written is read back.
pub proof fn written_id_is_read(s: Seq<u8>, pos: int, id: u64)
    requires
        is_id(id),
        holds(s, pos, id_bytes(id)),
    ensures
        id_bytes(id).len() == id_width(id),
        id_at(s, pos) == Some(Vint { value: id, width: id_width(id) as u8 }),
{
    lemma_powers();
    let n = id_width(id);
    bytes_spell_their_number(id as nat, n);
    lemma_first_byte(id as nat, n);
    lemma_holds_at(s, pos, id_bytes(id), 0);
    let first = s[pos];
    let p = power256((n - 1) as nat);
    assert(first == id as nat / p);
    if n == 1 {
        assert(first == id);
    } else if n == 2 {
        assert(0x40 <= first < 0x80);
    } else if n == 3 {
        assert(p == 0x1_0000);
        assert(0x20_0000 <= id < 0x40_0000);
        assert(0x20 <= first < 0x40);
    } else {
        assert(p == 0x100_0000);
        assert(0x1000_0000 <= id < 0x2000_0000);
        assert(0x10 <= (id as nat) / 0x100_0000nat < 0x20);
        assert(0x10 <= first < 0x20);
    }
}

/// Where the data of an element starts that is written at `pos`.
pub open spec fn data_start(pos: int, id: u64, w: nat) -> int {
    pos + id_width(id) + w
}

/// An element that is written is read back: its identifier, its size, and where
/// its data is.
pub proof fn written_element_is_read(s: Seq<u8>, pos: int, id: u64, w: nat, data: Seq<u8>)
    requires
        is_id(id),
        size_fits(data.len(), w),
        holds(s, pos, element_bytes(id, w, data)),
    ensures
        element_at(s, pos) == Some(
            Element { id, size: data.len() as u64, data: data_start(pos, id, w) },
        ),
        holds(s, data_start(pos, id, w), data),
        element_bytes(id, w, data).len() == id_width(id) + w + data.len(),
        pos < data_start(pos, id, w) <= s.len(),
        data.len() <= u64::MAX,
{
    lemma_powers();
    let a = id_bytes(id);
    let b = size_bytes(data.len(), w);
    assert(element_bytes(id, w, data) =~= a + (b + data));
    lemma_holds_parts(s, pos, a, b + data);
    written_id_is_read(s, pos, id);
    lemma_holds_parts(s, pos + a.len(), b, data);
    written_size_is_read(s, pos + a.len(), data.len(), w);
}

/// A number of at most eight bytes that is written is read back.
pub proof fn written_number_is_read(s: Seq<u8>, pos: int, v: u64, n: nat)
    requires
        n <= 8,
        v < power256(n),
        holds(s, pos, be_bytes(v as nat, n)),
    ensures
        uint_at(s, pos, n as u64) == Ok::<u64, ErrorView>(v),
        be_bytes(v as nat, n).len() == n,
{
    bytes_spell_their_number(v as nat, n);
}

/// A text that is written is read back.
pub proof fn written_text_is_read(s: Seq<u8>, pos: int, t: Seq<char>)
    requires
        holds(s, pos, encode_utf8(t)),
        encode_utf8(t).len() <= u64::MAX,
    ensures
        text_at(s, pos, encode_utf8(t).len() as u64) == Ok::<Seq<char>, ErrorView>(t),
{
    vstd::utf8::encode_utf8_valid_utf8(t);
    vstd::utf8::encode_utf8_decode_utf8(t);
}

/// Data that is written is read back.
pub proof fn written_data_is_read(s: Seq<u8>, pos: int, data: Seq<u8>)
    requires
        holds(s, pos, data),
        data.len() <= u64::MAX,
    ensures
        bytes_at(s, pos, data.len() as u64) == Ok::<Seq<u8>, ErrorView>(data),
{
}

} // verus!
