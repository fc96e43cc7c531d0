//! Big-endian integers in byte sequences.
use vstd::prelude::*;

verus! {

/// The number that `s[i..i + 2]` spells.
pub open spec fn be16(s: Seq<u8>, i: int) -> u16 {
    (s[i] * 256 + s[i + 1]) as u16
}

/// The number that `s[i..i + 3]` spells.
pub open spec fn be24(s: Seq<u8>, i: int) -> u32 {
    (s[i] * 0x1_0000 + s[i + 1] * 256 + s[i + 2]) as u32
}

/// The number that `s[i..i + 4]` spells.
pub open spec fn be32(s: Seq<u8>, i: int) -> u32 {
    (s[i] * 0x100_0000 + s[i + 1] * 0x1_0000 + s[i + 2] * 256 + s[i + 3]) as u32
}

/// The number that the bytes of `s` spell.
pub open spec fn be_value(s: Seq<u8>) -> nat
    decreases s.len(),
{
    if s.len() == 0 {
        0
    } else {
        be_value(s.drop_last()) * 256 + s.last() as nat
    }
}

/// A number spelled by at most eight bytes fits in 64 bits.
pub proof fn lemma_be_value_bound(s: Seq<u8>)
    requires
        s.len() <= 8,
    ensures
        be_value(s) <= u64::MAX,
        s.len() <= 7 ==> be_value(s) < 0x100_0000_0000_0000,
        s.len() <= 4 ==> be_value(s) <= u32::MAX,
        s.len() <= 2 ==> be_value(s) <= u16::MAX,
{
    reveal_with_fuel(be_value, 9);
}

/// The number that two bytes spell.
pub proof fn lemma_be_value16(s: Seq<u8>, i: int)
    requires
        0 <= i,
        i + 2 <= s.len(),
    ensures
        be_value(s.subrange(i, i + 2)) == be16(s, i),
{
    reveal_with_fuel(be_value, 3);
    let t = s.subrange(i, i + 2);
    assert(t.drop_last().last() == t[0]);
    assert(t.drop_last().drop_last().len() == 0);
}

/// The number that `data` spells.
pub fn uint_be(data: &[u8]) -> (r: u64)
    requires
        data@.len() <= 8,
    ensures
        r == be_value(data@),
{
    let mut value: u64 = 0;
    let mut i: usize = 0;
    while i < data.len()
        invariant
            i <= data@.len() <= 8,
            value == be_value(data@.take(i as int)),
        decreases data@.len() - i,
    {
        proof {
            let t = data@.take(i as int);
            lemma_be_value_bound(t);
            assert(data@.take(i + 1).drop_last() =~= t);
        }
        value = value * 256 + data[i] as u64;
        i += 1;
    }
    assert(data@.take(i as int) =~= data@);
    value
}

/// The two bytes of `v`.
pub open spec fn be16_bytes(v: u16) -> Seq<u8> {
    seq![(v / 256) as u8, (v % 256) as u8]
}

/// The low three bytes of `v`.
pub open spec fn be24_bytes(v: u32) -> Seq<u8> {
    seq![(v / 0x1_0000 % 256) as u8, (v / 256 % 256) as u8, (v % 256) as u8]
}

/// The four bytes of `v`.
pub open spec fn be32_bytes(v: u32) -> Seq<u8> {
    seq![
        (v / 0x100_0000) as u8,
        (v / 0x1_0000 % 256) as u8,
        (v / 256 % 256) as u8,
        (v % 256) as u8,
    ]
}

proof fn lemma_digits4(a: int, b: int, c: int, d: int, v: int)
    requires
        0 <= a < 256,
        0 <= b < 256,
        0 <= c < 256,
        0 <= d < 256,
        v == a * 0x100_0000 + b * 0x1_0000 + c * 256 + d,
    ensures
        v / 0x100_0000 == a,
        v / 0x1_0000 % 256 == b,
        v / 256 % 256 == c,
        v % 256 == d,
{
    assert(v / 256 == a * 0x1_0000 + b * 256 + c);
    assert(v / 0x1_0000 == a * 256 + b);
}

proof fn lemma_digits4_sum(v: int)
    requires
        0 <= v <= u32::MAX,
    ensures
        v == (v / 0x100_0000) * 0x100_0000 + (v / 0x1_0000 % 256) * 0x1_0000 + (v / 256 % 256) * 256
            + v % 256,
        v / 0x100_0000 < 256,
{
    let q = v / 0x1_0000;
    assert(q == (v / 0x100_0000) * 256 + q % 256) by {
        assert(v / 0x100_0000 == q / 256);
    }
    let p = v / 256;
    assert(p == q * 256 + p % 256) by {
        assert(q == p / 256);
    }
}

/// Four bytes spell the number whose bytes they are.
pub proof fn lemma_be32(s: Seq<u8>, i: int, v: u32)
    requires
        0 <= i,
        i + 4 <= s.len(),
    ensures
        s.subrange(i, i + 4) == be32_bytes(v) <==> be32(s, i) == v,
{
    let t = s.subrange(i, i + 4);
    let b = be32_bytes(v);
    assert(t[0] == s[i] && t[1] == s[i + 1] && t[2] == s[i + 2] && t[3] == s[i + 3]);
    if be32(s, i) == v {
        lemma_digits4(s[i] as int, s[i + 1] as int, s[i + 2] as int, s[i + 3] as int, v as int);
        assert(t =~= b);
    }
    if t == b {
        lemma_digits4_sum(v as int);
        assert(t[0] == b[0] && t[1] == b[1] && t[2] == b[2] && t[3] == b[3]);
    }
}

/// Three bytes spell the number whose bytes they are.
pub proof fn lemma_be24(s: Seq<u8>, i: int, v: u32)
    requires
        0 <= i,
        i + 3 <= s.len(),
        v < 0x100_0000,
    ensures
        s.subrange(i, i + 3) == be24_bytes(v) <==> be24(s, i) == v,
{
    let t = s.subrange(i, i + 3);
    let b = be24_bytes(v);
    assert(t[0] == s[i] && t[1] == s[i + 1] && t[2] == s[i + 2]);
    if be24(s, i) == v {
        lemma_digits4(0, s[i] as int, s[i + 1] as int, s[i + 2] as int, v as int);
        assert(t =~= b);
    }
    if t == b {
        lemma_digits4_sum(v as int);
        assert(t[0] == b[0] && t[1] == b[1] && t[2] == b[2]);
    }
}

/// Two bytes spell the number whose bytes they are.
pub proof fn lemma_be16(s: Seq<u8>, i: int, v: u16)
    requires
        0 <= i,
        i + 2 <= s.len(),
    ensures
        s.subrange(i, i + 2) == be16_bytes(v) <==> be16(s, i) == v,
{
    let t = s.subrange(i, i + 2);
    assert(t[0] == s[i] && t[1] == s[i + 1]);
    let b = be16_bytes(v);
    if be16(s, i) == v {
        assert(b[0] == s[i] && b[1] == s[i + 1]);
        assert(t =~= b);
    }
    if t == b {
        assert(b[0] == s[i] && b[1] == s[i + 1]);
    }
}

/// Reads two bytes as a number.
pub fn u16_be(data: &[u8], offset: usize) -> (r: u16)
    requires
        offset + 2 <= data@.len(),
    ensures
        r == be16(data@, offset as int),
{
    data[offset] as u16 * 256 + data[offset + 1] as u16
}

/// Reads three bytes as a number.
pub fn u24_be(data: &[u8], offset: usize) -> (r: u32)
    requires
        offset + 3 <= data@.len(),
    ensures
        r == be24(data@, offset as int),
{
    data[offset] as u32 * 0x1_0000 + data[offset + 1] as u32 * 256 + data[offset + 2] as u32
}

/// Reads four bytes as a number.
pub fn u32_be(data: &[u8], offset: usize) -> (r: u32)
    requires
        offset + 4 <= data@.len(),
    ensures
        r == be32(data@, offset as int),
{
    data[offset] as u32 * 0x100_0000 + data[offset + 1] as u32 * 0x1_0000 + data[offset + 2] as u32
        * 256 + data[offset + 3] as u32
}

/// Appends the two bytes of `val`.
pub fn push_u16_be(buf: &mut Vec<u8>, val: u16)
    ensures
        final(buf)@ == old(buf)@ + be16_bytes(val),
{
    buf.push((val / 256) as u8);
    buf.push((val % 256) as u8);
    assert(buf@ =~= old(buf)@ + be16_bytes(val));
}

/// Appends the low three bytes of `val`.
pub fn push_u24_be(buf: &mut Vec<u8>, val: u32)
    ensures
        final(buf)@ == old(buf)@ + be24_bytes(val),
{
    buf.push((val / 0x1_0000 % 256) as u8);
    buf.push((val / 256 % 256) as u8);
    buf.push((val % 256) as u8);
    assert(buf@ =~= old(buf)@ + be24_bytes(val));
}

/// Appends the four bytes of `val`.
pub fn push_u32_be(buf: &mut Vec<u8>, val: u32)
    ensures
        final(buf)@ == old(buf)@ + be32_bytes(val),
{
    buf.push((val / 0x100_0000) as u8);
    buf.push((val / 0x1_0000 % 256) as u8);
    buf.push((val / 256 % 256) as u8);
    buf.push((val % 256) as u8);
    assert(buf@ =~= old(buf)@ + be32_bytes(val));
}

/// Appends `data[from..to]`.
pub fn push_range(buf: &mut Vec<u8>, data: &[u8], from: usize, to: usize)
    requires
        from <= to <= data@.len(),
    ensures
        final(buf)@ == old(buf)@ + data@.subrange(from as int, to as int),
{
    let mut i: usize = from;
    while i < to
        invariant
            from <= i <= to <= data@.len(),
            buf@ == old(buf)@ + data@.subrange(from as int, i as int),
        decreases to - i,
    {
        buf.push(data[i]);
        i += 1;
        assert(buf@ =~= old(buf)@ + data@.subrange(from as int, i as int));
    }
}

/// The bytes `data[from..to]` as a vector.
pub fn copy_range(data: &[u8], from: usize, to: usize) -> (r: Vec<u8>)
    requires
        from <= to <= data@.len(),
    ensures
        r@ == data@.subrange(from as int, to as int),
{
    let mut r: Vec<u8> = Vec::new();
    push_range(&mut r, data, from, to);
    assert(r@ =~= data@.subrange(from as int, to as int));
    r
}

} // verus!
