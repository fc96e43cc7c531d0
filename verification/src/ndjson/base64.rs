//! Base64: three bytes as four characters.
use vstd::prelude::*;
use vstd::utf8::{encode_utf8, is_ascii_chars, is_ascii_chars_encode_utf8};

verus! {

/// The character for six bits.
pub open spec fn sextet_char(n: int) -> char {
    if n < 26 {
        (65 + n) as char
    } else if n < 52 {
        (71 + n) as char
    } else if n < 62 {
        (n - 4) as char
    } else if n == 62 {
        '+'
    } else {
        '/'
    }
}

/// The six bits that a byte of text stands for.
pub open spec fn sextet_of(b: u8) -> Option<u8> {
    if 65 <= b <= 90 {
        Some((b - 65) as u8)
    } else if 97 <= b <= 122 {
        Some((b - 71) as u8)
    } else if 48 <= b <= 57 {
        Some((b + 4) as u8)
    } else if b == 43 {
        Some(62)
    } else if b == 47 {
        Some(63)
    } else {
        None
    }
}

/// The characters for the bytes, four for three, with `=` in place of what is
/// missing at the end.
pub open spec fn base64_text(data: Seq<u8>) -> Seq<char>
    decreases data.len(),
{
    if data.len() == 0 {
        Seq::empty()
    } else if data.len() == 1 {
        seq![
            sextet_char(data[0] as int / 4),
            sextet_char(data[0] as int % 4 * 16),
            '=',
            '=',
        ]
    } else if data.len() == 2 {
        seq![
            sextet_char(data[0] as int / 4),
            sextet_char(data[0] as int % 4 * 16 + data[1] as int / 16),
            sextet_char(data[1] as int % 16 * 4),
            '=',
        ]
    } else {
        seq![
            sextet_char(data[0] as int / 4),
            sextet_char(data[0] as int % 4 * 16 + data[1] as int / 16),
            sextet_char(data[1] as int % 16 * 4 + data[2] as int / 64),
            sextet_char(data[2] as int % 64),
        ] + base64_text(data.skip(3))
    }
}

/// The bytes of a text that are not `=`.
pub open spec fn unpadded(text: Seq<u8>) -> Seq<u8>
    decreases text.len(),
{
    if text.len() == 0 {
        Seq::empty()
    } else if text.last() == 61 {
        unpadded(text.drop_last())
    } else {
        unpadded(text.drop_last()).push(text.last())
    }
}

/// The first byte that stands for nothing.
pub open spec fn first_stray(text: Seq<u8>) -> Option<u8>
    decreases text.len(),
{
    if text.len() == 0 {
        None
    } else if sextet_of(text[0]) is None {
        Some(text[0])
    } else {
        first_stray(text.skip(1))
    }
}

/// The six bits at a position, and zero behind the end.
pub open spec fn sextet_at(text: Seq<u8>, i: int) -> int {
    if 0 <= i < text.len() {
        match sextet_of(text[i]) {
            Some(n) => n as int,
            None => 0,
        }
    } else {
        0
    }
}

/// The bytes that text without padding stands for. One or two characters left
/// over at the end give one byte, three give two.
pub open spec fn unpacked(text: Seq<u8>) -> Seq<u8>
    decreases text.len(),
{
    let first = (sextet_at(text, 0) * 4 + sextet_at(text, 1) / 16) as u8;
    let second = (sextet_at(text, 1) % 16 * 16 + sextet_at(text, 2) / 4) as u8;
    let third = (sextet_at(text, 2) % 4 * 64 + sextet_at(text, 3)) as u8;
    if text.len() == 0 {
        Seq::empty()
    } else if text.len() <= 2 {
        seq![first]
    } else if text.len() == 3 {
        seq![first, second]
    } else {
        seq![first, second, third] + unpacked(text.skip(4))
    }
}

/// The complaint about a byte that stands for nothing.
pub open spec fn stray_text(b: u8) -> Seq<char> {
    "invalid base64 character: '"@.push(b as char).push('\'')
}

/// The bytes that a text stands for, or the complaint about its first stray
/// byte.
pub open spec fn base64_bytes(text: Seq<u8>) -> Result<Seq<u8>, Seq<char>> {
    match first_stray(unpadded(text)) {
        Some(b) => Err(stray_text(b)),
        None => Ok(unpacked(unpadded(text))),
    }
}

fn push_sextet(text: &mut String, n: u8)
    requires
        n < 64,
    ensures
        final(text)@ == old(text)@.push(sextet_char(n as int)),
{
    if n < 26 {
        text.push((65 + n) as char);
    } else if n < 52 {
        text.push((71 + n) as char);
    } else if n < 62 {
        text.push((n - 4) as char);
    } else if n == 62 {
        text.push('+');
    } else {
        text.push('/');
    }
}

/// The base64 text of the bytes.
pub fn base64_encode(data: &[u8]) -> (r: String)
    ensures
        r@ == base64_text(data@),
{
    let mut text = String::new();
    let n: usize = data.len();
    let mut i: usize = 0;
    assert(data@.skip(0) =~= data@);
    while n - i >= 3
        invariant
            i <= n == data@.len(),
            text@ + base64_text(data@.skip(i as int)) == base64_text(data@),
        decreases n - i,
    {
        let (a, b, c) = (data[i], data[i + 1], data[i + 2]);
        let ghost before = text@;
        push_sextet(&mut text, a / 4);
        push_sextet(&mut text, a % 4 * 16 + b / 16);
        push_sextet(&mut text, b % 16 * 4 + c / 64);
        push_sextet(&mut text, c % 64);
        proof {
            let rest = data@.skip(i as int);
            assert(rest.skip(3) =~= data@.skip(i + 3));
            assert(text@ + base64_text(rest.skip(3)) =~= before + base64_text(rest));
        }
        i += 3;
    }
    let ghost before = text@;
    let ghost rest = data@.skip(i as int);
    if n - i == 1 {
        let a = data[i];
        push_sextet(&mut text, a / 4);
        push_sextet(&mut text, a % 4 * 16);
        text.push('=');
        text.push('=');
    } else if n - i == 2 {
        let (a, b) = (data[i], data[i + 1]);
        push_sextet(&mut text, a / 4);
        push_sextet(&mut text, a % 4 * 16 + b / 16);
        push_sextet(&mut text, b % 16 * 4);
        text.push('=');
    }
    assert(text@ =~= before + base64_text(rest));
    text
}

fn sextet(b: u8) -> (r: Option<u8>)
    ensures
        r == sextet_of(b),
        r matches Some(n) ==> n < 64,
{
    if 65 <= b && b <= 90 {
        Some(b - 65)
    } else if 97 <= b && b <= 122 {
        Some(b - 71)
    } else if 48 <= b && b <= 57 {
        Some(b + 4)
    } else if b == 43 {
        Some(62)
    } else if b == 47 {
        Some(63)
    } else {
        None
    }
}

proof fn lemma_first_stray(text: Seq<u8>, i: int)
    requires
        0 <= i < text.len(),
        sextet_of(text[i]) is None,
        forall|j: int| 0 <= j < i ==> sextet_of(#[trigger] text[j]) is Some,
    ensures
        first_stray(text) == Some(text[i]),
    decreases text.len(),
{
    if i > 0 {
        assert(sextet_of(text[0]) is Some);
        assert forall|j: int| 0 <= j < i - 1 implies sextet_of(#[trigger] text.skip(1)[j]) is Some by {
            assert(text.skip(1)[j] == text[j + 1]);
        }
        lemma_first_stray(text.skip(1), i - 1);
    }
}

proof fn lemma_no_stray(text: Seq<u8>)
    requires
        forall|j: int| 0 <= j < text.len() ==> sextet_of(#[trigger] text[j]) is Some,
    ensures
        first_stray(text) is None,
    decreases text.len(),
{
    if text.len() > 0 {
        assert(sextet_of(text[0]) is Some);
        assert forall|j: int| 0 <= j < text.skip(1).len() implies sextet_of(
            #[trigger] text.skip(1)[j],
        ) is Some by {
            assert(text.skip(1)[j] == text[j + 1]);
        }
        lemma_no_stray(text.skip(1));
    }
}

/// The bytes without `=` stand for, or the complaint about the first stray one.
fn sextets(text: &[u8]) -> (r: Result<Vec<u8>, u8>)
    ensures
        match r {
            Ok(v) => first_stray(unpadded(text@)) is None && v@.len() == unpadded(text@).len()
                && forall|j: int|
                0 <= j < v@.len() ==> #[trigger] v@[j] == sextet_at(unpadded(text@), j) && v@[j]
                    < 64,
            Err(b) => first_stray(unpadded(text@)) == Some(b),
        },
{
    let mut values: Vec<u8> = Vec::new();
    let mut kept: Vec<u8> = Vec::new();
    let mut i: usize = 0;
    assert(text@.take(0) =~= Seq::<u8>::empty());
    while i < text.len()
        invariant
            i <= text@.len(),
            kept@ == unpadded(text@.take(i as int)),
        decreases text@.len() - i,
    {
        assert(text@.take(i + 1).drop_last() =~= text@.take(i as int));
        if text[i] != 61 {
            kept.push(text[i]);
        }
        i += 1;
    }
    assert(text@.take(i as int) =~= text@);
    let mut j: usize = 0;
    while j < kept.len()
        invariant
            j <= kept@.len(),
            kept@ == unpadded(text@),
            values@.len() == j,
            forall|k: int|
                0 <= k < j ==> #[trigger] values@[k] == sextet_at(kept@, k) && values@[k] < 64,
            forall|k: int| 0 <= k < j ==> sextet_of(#[trigger] kept@[k]) is Some,
        decreases kept@.len() - j,
    {
        match sextet(kept[j]) {
            Some(n) => {
                values.push(n);
            },
            None => {
                proof {
                    lemma_first_stray(kept@, j as int);
                }
                return Err(kept[j]);
            },
        }
        j += 1;
    }
    proof {
        lemma_no_stray(kept@);
    }
    Ok(values)
}

/// The bytes that a base64 text stands for. Padding is skipped wherever it
/// stands.
pub fn base64_decode(s: &str) -> (r: Result<Vec<u8>, String>)
    ensures
        match (r, base64_bytes(encode_utf8(s@))) {
            (Ok(v), Ok(bytes)) => v@ == bytes,
            (Err(e), Err(text)) => e@ == text,
            _ => false,
        },
{
    let values = match sextets(s.as_bytes()) {
        Ok(v) => v,
        Err(b) => {
            let mut e = "invalid base64 character: '".to_owned();
            e.push(b as char);
            e.push('\'');
            return Err(e);
        },
    };
    let ghost text = unpadded(encode_utf8(s@));
    let mut out: Vec<u8> = Vec::new();
    let n: usize = values.len();
    let mut i: usize = 0;
    assert(text.skip(0) =~= text);
    while n - i >= 4
        invariant
            i <= n == values@.len() == text.len(),
            forall|j: int|
                0 <= j < n ==> #[trigger] values@[j] == sextet_at(text, j) && values@[j] < 64,
            out@ + unpacked(text.skip(i as int)) == unpacked(text),
        decreases n - i,
    {
        let (a, b, c, d) = (values[i], values[i + 1], values[i + 2], values[i + 3]);
        let ghost before = out@;
        out.push(a * 4 + b / 16);
        out.push(b % 16 * 16 + c / 4);
        out.push(c % 4 * 64 + d);
        proof {
            let rest = text.skip(i as int);
            assert(rest.skip(4) =~= text.skip(i + 4));
            assert(a == sextet_at(rest, 0) && b == sextet_at(rest, 1) && c == sextet_at(rest, 2)
                && d == sextet_at(rest, 3));
            assert(out@ + unpacked(rest.skip(4)) =~= before + unpacked(rest));
        }
        i += 4;
    }
    let ghost before = out@;
    let ghost rest = text.skip(i as int);
    if n - i > 0 {
        let a = values[i];
        let b = if n - i > 1 { values[i + 1] } else { 0 };
        let c = if n - i > 2 { values[i + 2] } else { 0 };
        proof {
            assert(a == sextet_at(rest, 0));
            assert(b == sextet_at(rest, 1));
            assert(c == sextet_at(rest, 2));
        }
        out.push(a * 4 + b / 16);
        if n - i > 2 {
            out.push(b % 16 * 16 + c / 4);
        }
    }
    assert(out@ =~= before + unpacked(rest));
    Ok(out)
}

/// The bytes of ASCII characters.
pub open spec fn ascii_bytes(text: Seq<char>) -> Seq<u8> {
    Seq::new(text.len(), |i: int| text[i] as u8)
}

proof fn lemma_sextet(n: int)
    requires
        0 <= n < 64,
    ensures
        sextet_of(sextet_char(n) as u8) == Some(n as u8),
        '\0' <= sextet_char(n) <= '\u{7f}',
        sextet_char(n) as u8 != 61,
{
}

proof fn lemma_unpadded_append(a: Seq<u8>, b: Seq<u8>)
    ensures
        unpadded(a + b) == unpadded(a) + unpadded(b),
    decreases b.len(),
{
    if b.len() == 0 {
        assert(a + b =~= a);
        assert(unpadded(a) + unpadded(b) =~= unpadded(a));
    } else {
        lemma_unpadded_append(a, b.drop_last());
        assert((a + b).drop_last() =~= a + b.drop_last());
        assert(unpadded(a + b) =~= unpadded(a) + unpadded(b));
    }
}

proof fn lemma_unpadded_four(a: u8, b: u8, c: u8, d: u8)
    requires
        a != 61,
        b != 61,
    ensures
        c != 61 && d != 61 ==> unpadded(seq![a, b, c, d]) == seq![a, b, c, d],
        c != 61 && d == 61 ==> unpadded(seq![a, b, c, d]) == seq![a, b, c],
        c == 61 && d == 61 ==> unpadded(seq![a, b, c, d]) == seq![a, b],
{
    let s = seq![a, b, c, d];
    assert(s.drop_last() =~= seq![a, b, c]);
    assert(seq![a, b, c].drop_last() =~= seq![a, b]);
    assert(seq![a, b].drop_last() =~= seq![a]);
    assert(seq![a].drop_last() =~= Seq::<u8>::empty());
    reveal_with_fuel(unpadded, 5);
    assert(unpadded(seq![a]) =~= seq![a]);
    assert(unpadded(seq![a, b]) =~= seq![a, b]);
    assert(c != 61 ==> unpadded(seq![a, b, c]) =~= seq![a, b, c]);
    assert(c != 61 && d != 61 ==> unpadded(s) =~= s);
}

proof fn lemma_stray_append(a: Seq<u8>, b: Seq<u8>)
    requires
        first_stray(a) is None,
    ensures
        first_stray(a + b) == first_stray(b),
    decreases a.len(),
{
    if a.len() == 0 {
        assert(a + b =~= b);
    } else {
        lemma_stray_append(a.skip(1), b);
        assert((a + b).skip(1) =~= a.skip(1) + b);
    }
}

proof fn lemma_bits(d0: int, d1: int, d2: int)
    requires
        0 <= d0 < 256,
        0 <= d1 < 256,
        0 <= d2 < 256,
    ensures
        d0 / 4 < 64,
        d0 % 4 * 16 + d1 / 16 < 64,
        d1 % 16 * 4 + d2 / 64 < 64,
        d0 / 4 * 4 + (d0 % 4 * 16 + d1 / 16) / 16 == d0,
        (d0 % 4 * 16 + d1 / 16) % 16 * 16 + (d1 % 16 * 4 + d2 / 64) / 4 == d1,
        (d1 % 16 * 4 + d2 / 64) % 4 * 64 + d2 % 64 == d2,
{
}

proof fn lemma_unpacked_head(kept: Seq<u8>, n0: int, n1: int, n2: int, n3: int)
    requires
        0 <= n0 < 64,
        0 <= n1 < 64,
        0 <= n2 < 64,
        0 <= n3 < 64,
        kept.len() >= 2,
        kept[0] == sextet_char(n0) as u8,
        kept[1] == sextet_char(n1) as u8,
        kept.len() > 2 ==> kept[2] == sextet_char(n2) as u8,
        kept.len() > 3 ==> kept[3] == sextet_char(n3) as u8,
        kept.len() <= 2 ==> n2 == 0,
    ensures
        sextet_at(kept, 0) == n0,
        sextet_at(kept, 1) == n1,
        sextet_at(kept, 2) == n2,
        kept.len() > 3 ==> sextet_at(kept, 3) == n3,
        kept.len() <= 4 ==> first_stray(kept) is None,
{
    lemma_sextet(n0);
    lemma_sextet(n1);
    lemma_sextet(n2);
    lemma_sextet(n3);
    if kept.len() <= 4 {
        assert forall|j: int| 0 <= j < kept.len() implies sextet_of(#[trigger] kept[j]) is Some by {
            assert(j == 0 || j == 1 || j == 2 || j == 3);
        }
        lemma_no_stray(kept);
    }
}

proof fn lemma_text_back_short(data: Seq<u8>)
    requires
        0 < data.len() <= 2,
    ensures
        is_ascii_chars(base64_text(data)),
        first_stray(unpadded(ascii_bytes(base64_text(data)))) is None,
        unpacked(unpadded(ascii_bytes(base64_text(data)))) == data,
{
    let bytes = ascii_bytes(base64_text(data));
    let d0 = data[0] as int;
    let d1 = if data.len() > 1 {
        data[1] as int
    } else {
        0
    };
    lemma_bits(d0, d1, 0);
    let (n0, n1, n2) = (d0 / 4, d0 % 4 * 16 + d1 / 16, d1 % 16 * 4);
    lemma_sextet(n0);
    lemma_sextet(n1);
    lemma_sextet(n2);
    let a = sextet_char(n0) as u8;
    let b = sextet_char(n1) as u8;
    let c = if data.len() > 1 {
        sextet_char(n2) as u8
    } else {
        61u8
    };
    assert(bytes =~= seq![a, b, c, 61u8]);
    lemma_unpadded_four(a, b, c, 61);
    let kept = unpadded(bytes);
    lemma_unpacked_head(kept, n0, n1, n2, 0);
    assert(unpacked(kept) =~= data);
}

proof fn lemma_text_back(data: Seq<u8>)
    ensures
        is_ascii_chars(base64_text(data)),
        first_stray(unpadded(ascii_bytes(base64_text(data)))) is None,
        unpacked(unpadded(ascii_bytes(base64_text(data)))) == data,
    decreases data.len(),
{
    let bytes = ascii_bytes(base64_text(data));
    if data.len() == 0 {
        assert(bytes =~= Seq::<u8>::empty());
    } else if data.len() <= 2 {
        lemma_text_back_short(data);
    } else {
        let (d0, d1, d2) = (data[0] as int, data[1] as int, data[2] as int);
        lemma_bits(d0, d1, d2);
        let (n0, n1, n2, n3) = (d0 / 4, d0 % 4 * 16 + d1 / 16, d1 % 16 * 4 + d2 / 64, d2 % 64);
        lemma_sextet(n0);
        lemma_sextet(n1);
        lemma_sextet(n2);
        lemma_sextet(n3);
        let (a, b, c, d) = (
            sextet_char(n0) as u8,
            sextet_char(n1) as u8,
            sextet_char(n2) as u8,
            sextet_char(n3) as u8,
        );
        let four = seq![a, b, c, d];
        lemma_unpadded_four(a, b, c, d);
        let rest = data.skip(3);
        lemma_text_back(rest);
        let tail = ascii_bytes(base64_text(rest));
        assert(bytes =~= four + tail);
        lemma_unpadded_append(four, tail);
        let kept = four + unpadded(tail);
        lemma_unpacked_head(four, n0, n1, n2, n3);
        lemma_unpacked_head(kept, n0, n1, n2, n3);
        lemma_stray_append(four, unpadded(tail));
        assert(kept.skip(4) =~= unpadded(tail));
        assert(unpacked(kept) =~= seq![data[0], data[1], data[2]] + rest);
        assert(seq![data[0], data[1], data[2]] + rest =~= data);
    }
}

/// Base64 text is ASCII.
pub proof fn base64_text_is_ascii(data: Seq<u8>)
    ensures
        is_ascii_chars(base64_text(data)),
{
    lemma_text_back(data);
}

/// Decoding the base64 text of bytes gives the bytes back.
pub proof fn base64_decode_of_encode(data: Seq<u8>)
    ensures
        base64_bytes(encode_utf8(base64_text(data))) == Ok::<Seq<u8>, Seq<char>>(data),
{
    lemma_text_back(data);
    is_ascii_chars_encode_utf8(base64_text(data));
    assert(encode_utf8(base64_text(data)) =~= ascii_bytes(base64_text(data)));
}

} // verus!
