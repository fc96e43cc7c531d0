//! What letters of base64 text, of JSON strings and of JSON numbers stand for.
use vstd::prelude::*;
use crate::ebml::written::{holds, lemma_holds_at, lemma_holds_parts};
use crate::ndjson::base64::{base64_text, sextet_char, sextet_of};
use crate::ndjson::json::{escaped, quoted};
use crate::ndjson::parse::{
    digits_end, is_json_space, is_number, past_sign, past_space, string_at, string_from,
};

verus! {

/// The letters of base64 text stand for the numbers from 0 on: first upper-case
/// letters, then lower-case ones, then digits, "+" and "/". No other byte stands
/// for anything.
pub proof fn base64_letters_are_in_order(c: char)
    requires
        c <= '\u{7F}',
    ensures
        'A' <= c && c <= 'Z' ==> sextet_of(c as u8) == Some((c as u32 - 'A' as u32) as u8),
        'a' <= c && c <= 'z' ==> sextet_of(c as u8) == Some((26 + (c as u32 - 'a' as u32)) as u8),
        '0' <= c && c <= '9' ==> sextet_of(c as u8) == Some((52 + (c as u32 - '0' as u32)) as u8),
        c == '+' ==> sextet_of(c as u8) == Some(62u8),
        c == '/' ==> sextet_of(c as u8) == Some(63u8),
        sextet_of(c as u8) is Some ==> ('A' <= c && c <= 'Z') || ('a' <= c && c <= 'z') || ('0' <= c
            && c <= '9') || c == '+' || c == '/',
        forall|n: int|
            0 <= n < 64 && #[trigger] sextet_char(n) == c ==> sextet_of(c as u8) == Some(n as u8),
{
    assert(c as u8 as u32 == c as u32);
}

/// Three bytes are a number of 24 bits, and their four letters stand for its six
/// bits each, the highest first. Of one or two bytes at the end, the bits that are
/// missing are zero, and what holds none of their bits is "=".
pub proof fn base64_letters_are_by_six_bits(data: Seq<u8>)
    requires
        data.len() > 0,
    ensures
        ({
            let second = if data.len() > 1 {
                data[1] as int
            } else {
                0
            };
            let third = if data.len() > 2 {
                data[2] as int
            } else {
                0
            };
            let v = data[0] * 0x1_0000 + second * 0x100 + third;
            let t = base64_text(data);
            &&& t.len() >= 4
            &&& t[0] == sextet_char(v / 0x4_0000)
            &&& t[1] == sextet_char(v / 0x1000 % 64)
            &&& t[2] == if data.len() > 1 {
                sextet_char(v / 64 % 64)
            } else {
                '='
            }
            &&& t[3] == if data.len() > 2 {
                sextet_char(v % 64)
            } else {
                '='
            }
            &&& data.len() < 3 ==> t.len() == 4
            &&& data.len() >= 3 ==> t.skip(4) == base64_text(data.skip(3))
        }),
{
    let t = base64_text(data);
    let second = if data.len() > 1 {
        data[1] as int
    } else {
        0
    };
    let third = if data.len() > 2 {
        data[2] as int
    } else {
        0
    };
    lemma_six_bits(data[0] as int, second, third);
    if data.len() >= 3 {
        assert(t.skip(4) =~= base64_text(data.skip(3)));
    }
}

proof fn lemma_six_bits(a: int, b: int, c: int)
    requires
        0 <= a < 256,
        0 <= b < 256,
        0 <= c < 256,
    ensures
        ({
            let v = a * 0x1_0000 + b * 0x100 + c;
            &&& v / 0x4_0000 == a / 4
            &&& v / 0x1000 % 64 == a % 4 * 16 + b / 16
            &&& v / 64 % 64 == b % 16 * 4 + c / 64
            &&& v % 64 == c % 64
        }),
{
    let v = a * 0x1_0000 + b * 0x100 + c;
    assert(v / 0x1000 == a * 16 + b / 16);
    assert(a * 16 + b / 16 == (a / 4) * 64 + (a % 4 * 16 + b / 16));
    assert(v / 64 == a * 1024 + b * 4 + c / 64);
    assert(a * 1024 + b * 4 + c / 64 == (a * 16 + b / 16) * 64 + (b % 16 * 4 + c / 64));
}

/// A part of a JSON string: a byte as it is, or one behind a backslash.
pub enum Piece {
    Plain(u8),
    Escape(u8),
}

/// Whether a part can be written.
pub open spec fn is_piece(p: Piece) -> bool {
    match p {
        Piece::Plain(b) => b != 0x22 && b != 0x5C,
        Piece::Escape(_) => true,
    }
}

/// A part as it is written.
pub open spec fn piece_bytes(p: Piece) -> Seq<u8> {
    match p {
        Piece::Plain(b) => seq![b],
        Piece::Escape(b) => seq![0x5Cu8, b],
    }
}

/// Parts as they are written.
pub open spec fn pieces_bytes(ps: Seq<Piece>) -> Seq<u8>
    decreases ps.len(),
{
    if ps.len() == 0 {
        Seq::empty()
    } else {
        piece_bytes(ps[0]) + pieces_bytes(ps.skip(1))
    }
}

/// What a part stands for. A backslash that makes nothing else of what follows
/// stays.
pub open spec fn piece_said(p: Piece) -> Seq<char> {
    match p {
        Piece::Plain(b) => seq![b as char],
        Piece::Escape(b) => {
            let c = b as char;
            if c == '"' || c == '\\' || c == '/' {
                seq![c]
            } else if c == 'n' {
                seq!['\u{0A}']
            } else if c == 'r' {
                seq!['\u{0D}']
            } else if c == 't' {
                seq!['\u{09}']
            } else {
                seq!['\\', c]
            }
        },
    }
}

/// What parts stand for.
pub open spec fn pieces_said(ps: Seq<Piece>) -> Seq<char>
    decreases ps.len(),
{
    if ps.len() == 0 {
        Seq::empty()
    } else {
        piece_said(ps[0]) + pieces_said(ps.skip(1))
    }
}

proof fn lemma_pieces(b: Seq<u8>, j: int, ps: Seq<Piece>, got: Seq<char>)
    requires
        forall|i: int| 0 <= i < ps.len() ==> is_piece(#[trigger] ps[i]),
        holds(b, j, pieces_bytes(ps) + seq![0x22u8]),
    ensures
        string_from(b, j, got) == Ok::<(Seq<char>, int), Seq<char>>(
            (got + pieces_said(ps), j + pieces_bytes(ps).len() + 1),
        ),
    decreases ps.len(),
{
    let quote = seq![0x22u8];
    lemma_holds_parts(b, j, pieces_bytes(ps), quote);
    if ps.len() == 0 {
        lemma_holds_at(b, j, quote, 0);
        assert(got + pieces_said(ps) =~= got);
    } else {
        let rest = ps.skip(1);
        let one = piece_bytes(ps[0]);
        assert(is_piece(ps[0]));
        assert(pieces_bytes(ps) + quote =~= one + (pieces_bytes(rest) + quote));
        lemma_holds_parts(b, j, one, pieces_bytes(rest) + quote);
        lemma_holds_at(b, j, one, 0);
        assert forall|i: int| 0 <= i < rest.len() implies is_piece(#[trigger] rest[i]) by {
            assert(rest[i] == ps[i + 1]);
        }
        let more = got + piece_said(ps[0]);
        lemma_pieces(b, j + one.len(), rest, more);
        assert(more + pieces_said(rest) =~= got + pieces_said(ps));
        match ps[0] {
            Piece::Plain(x) => {
                assert(got.push(x as char) =~= more);
            },
            Piece::Escape(x) => {
                lemma_holds_at(b, j, one, 1);
                assert(got + crate::ndjson::parse::unescaped(x) =~= more);
            },
        }
    }
}

/// A JSON string that is written from any parts is read as what they stand for.
pub proof fn written_string_is_read(b: Seq<u8>, i: int, ps: Seq<Piece>)
    requires
        forall|k: int| 0 <= k < ps.len() ==> is_piece(#[trigger] ps[k]),
        holds(b, i, seq![0x22u8] + (pieces_bytes(ps) + seq![0x22u8])),
    ensures
        string_at(b, i) == Ok::<(Seq<char>, int), Seq<char>>(
            (pieces_said(ps), i + pieces_bytes(ps).len() + 2),
        ),
{
    let quote = seq![0x22u8];
    lemma_holds_parts(b, i, quote, pieces_bytes(ps) + quote);
    lemma_holds_at(b, i, quote, 0);
    lemma_pieces(b, i + 1, ps, Seq::empty());
    assert(Seq::<char>::empty() + pieces_said(ps) =~= pieces_said(ps));
}

/// What a character is written as in a JSON string.
pub open spec fn letters_for(c: char) -> Seq<char> {
    if c == '"' || c == '\\' {
        seq!['\\', c]
    } else if c == '\u{0A}' {
        seq!['\\', 'n']
    } else if c == '\u{0D}' {
        seq!['\\', 'r']
    } else if c == '\u{09}' {
        seq!['\\', 't']
    } else {
        seq![c]
    }
}

/// Characters are written to a JSON string one by one, between two quotation marks.
pub proof fn strings_are_written_letter_by_letter(a: Seq<char>, c: char, b: Seq<char>)
    ensures
        escaped(a + seq![c] + b) == escaped(a) + letters_for(c) + escaped(b),
        quoted(a) == seq!['"'] + escaped(a) + seq!['"'],
    decreases a.len(),
{
    let all = a + seq![c] + b;
    if a.len() == 0 {
        assert(all.skip(1) =~= b);
        assert(escaped(a) =~= Seq::empty());
        assert(escaped(all) =~= escaped(a) + letters_for(c) + escaped(b));
    } else {
        assert(all.skip(1) =~= a.skip(1) + seq![c] + b);
        strings_are_written_letter_by_letter(a.skip(1), c, b);
        assert(escaped(all) =~= escaped(a) + letters_for(c) + escaped(b));
    }
}

/// White space in front of a JSON value is passed over, and nothing else: spaces,
/// tabs and the ends of lines.
pub proof fn white_space_is_passed_over(b: Seq<u8>, i: int, n: int)
    requires
        0 <= i <= n <= b.len(),
        forall|k: int|
            i <= k < n ==> #[trigger] b[k] == 0x20 || b[k] == 0x09 || b[k] == 0x0D || b[k] == 0x0A,
        n < b.len() ==> b[n] != 0x20 && b[n] != 0x09 && b[n] != 0x0D && b[n] != 0x0A,
    ensures
        past_space(b, i) == n,
    decreases n - i,
{
    if i < n {
        assert(is_json_space(b[i]));
        white_space_is_passed_over(b, i + 1, n);
    }
}

/// Whether bytes are digits.
pub open spec fn all_digits(t: Seq<u8>) -> bool {
    forall|i: int| 0 <= i < t.len() ==> 0x30 <= #[trigger] t[i] <= 0x39
}

/// A sign as it is written, if there is one: "+" or "-".
pub open spec fn is_sign(t: Seq<u8>) -> bool {
    t.len() == 0 || t == seq![0x2Bu8] || t == seq![0x2Du8]
}

proof fn lemma_digits(t: Seq<u8>, i: int, d: Seq<u8>)
    requires
        holds(t, i, d),
        all_digits(d),
        i + d.len() < t.len() ==> !(0x30 <= t[i + d.len()] <= 0x39),
    ensures
        digits_end(t, i) == i + d.len(),
    decreases d.len(),
{
    if d.len() > 0 {
        lemma_holds_at(t, i, d, 0);
        let rest = d.skip(1);
        assert(d =~= seq![d[0]] + rest);
        lemma_holds_parts(t, i, seq![d[0]], rest);
        assert forall|k: int| 0 <= k < rest.len() implies 0x30 <= #[trigger] rest[k] <= 0x39 by {
            assert(rest[k] == d[k + 1]);
        }
        lemma_digits(t, i + 1, rest);
    }
}

/// Digits with a sign in front of them, if any, and with a point and digits, and an
/// exponent, behind them, if any, spell a number.
pub proof fn written_number_is_one(
    sign: Seq<u8>,
    whole: Seq<u8>,
    fraction: Option<Seq<u8>>,
    exponent: Option<(u8, Seq<u8>, Seq<u8>)>,
)
    requires
        is_sign(sign),
        all_digits(whole),
        fraction matches Some(f) ==> all_digits(f),
        whole.len() > 0 || (fraction matches Some(f) && f.len() > 0),
        exponent matches Some((e, s, d)) ==> (e == 0x65 || e == 0x45) && is_sign(s) && all_digits(d)
            && d.len() > 0,
    ensures
        is_number(
            sign + whole + (match fraction {
                Some(f) => seq![0x2Eu8] + f,
                None => Seq::empty(),
            }) + (match exponent {
                Some((e, s, d)) => seq![e] + s + d,
                None => Seq::empty(),
            }),
        ),
{
    let part = match fraction {
        Some(f) => seq![0x2Eu8] + f,
        None => Seq::empty(),
    };
    let power = match exponent {
        Some((e, s, d)) => seq![e] + s + d,
        None => Seq::empty(),
    };
    let t = sign + whole + part + power;
    let start = sign.len() as int;
    assert(t.subrange(start, start + whole.len() as int) =~= whole);
    if sign.len() > 0 {
        assert(t[0] == sign[0]);
    } else if whole.len() > 0 {
        assert(t[0] == whole[0]);
    } else {
        assert(t[0] == 0x2E);
    }
    assert(past_sign(t, 0) == start);
    let point = start + whole.len();
    if part.len() > 0 {
        assert(t[point] == part[0]);
    } else if power.len() > 0 {
        assert(t[point] == power[0]);
    }
    lemma_digits(t, start, whole);
    let end = point + part.len();
    if power.len() > 0 {
        assert(t[end] == power[0]);
    }
    if fraction is Some {
        let f = fraction->0;
        assert(t.subrange(point + 1, point + 1 + f.len() as int) =~= f);
        lemma_digits(t, point + 1, f);
    }
    match exponent {
        Some((e, s, d)) => {
            let after = end + 1 + s.len();
            if s.len() > 0 {
                assert(t[end + 1] == s[0]);
            } else {
                assert(t[end + 1] == d[0]);
                assert(0x30 <= d[0] <= 0x39);
            }
            assert(past_sign(t, end + 1) == after);
            assert(t.subrange(after, after + d.len() as int) =~= d);
            lemma_digits(t, after, d);
        },
        None => {},
    }
}

} // verus!
