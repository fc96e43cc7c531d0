//! Text built from characters and numbers.
use vstd::prelude::*;
use crate::error::IoError;
use vstd::utf8::{decode_utf8, valid_utf8};

verus! {

/// `String::push` appends one character.
pub assume_specification[ String::push ](s: &mut String, c: char)
    ensures
        final(s)@ == old(s)@.push(c),
;

/// `String::push_str` appends a string slice.
pub assume_specification[ String::push_str ](s: &mut String, t: &str)
    ensures
        final(s)@ == old(s)@ + t@,
;

/// The length of the longest valid UTF-8 among the first `n` bytes, from their
/// start on.
pub open spec fn valid_prefix(bytes: Seq<u8>, n: nat) -> nat
    decreases n,
{
    if n == 0 || valid_utf8(bytes.take(n as int)) {
        n
    } else {
        valid_prefix(bytes, (n - 1) as nat)
    }
}

/// The length of the first invalid sequence in bytes that are not valid UTF-8;
/// none if they end within a sequence.
pub uninterp spec fn utf8_error_len(bytes: Seq<u8>) -> Option<u8>;

/// `String::from_utf8` gives the text that the bytes encode, and fails exactly
/// on bytes that are not valid UTF-8. Its error says how many of them, from the
/// start on, are valid at most. The length of the invalid sequence, which it says
/// too, is claimed to be a function of the bytes.
#[verifier::external_body]
pub(crate) fn text_from_utf8(bytes: Vec<u8>) -> (r: Result<String, (u64, Option<u8>)>)
    ensures
        r is Ok <==> valid_utf8(bytes@),
        r matches Ok(s) ==> s@ == decode_utf8(bytes@),
        r matches Err((valid, len)) ==> valid == valid_prefix(bytes@, bytes@.len()) && len
            == utf8_error_len(bytes@),
{
    match String::from_utf8(bytes) {
        Ok(s) => Ok(s),
        Err(e) => {
            let e = e.utf8_error();
            Err((e.valid_up_to() as u64, e.error_len().map(|n| n as u8)))
        },
    }
}

/// The error for bytes that are not valid UTF-8.
pub open spec fn utf8_error(bytes: Seq<u8>) -> IoError {
    IoError::InvalidUtf8 {
        valid_up_to: valid_prefix(bytes, bytes.len()) as u64,
        error_len: utf8_error_len(bytes),
    }
}

/// What bytes say as UTF-8, with a replacement character for what is not valid.
pub uninterp spec fn utf8_lossy(bytes: Seq<u8>) -> Seq<char>;

/// `String::from_utf8_lossy` gives the text that the bytes encode, with a
/// replacement character for each part that is not valid UTF-8. The contract
/// claims that valid bytes are decoded, and of others that the text is a
/// function of the bytes.
#[verifier::external_body]
pub(crate) fn text_from_utf8_lossy(bytes: &[u8]) -> (r: String)
    ensures
        r@ == utf8_lossy(bytes@),
        valid_utf8(bytes@) ==> r@ == decode_utf8(bytes@),
{
    String::from_utf8_lossy(bytes).into_owned()
}

/// The character of a decimal digit.
pub open spec fn digit_char(d: int) -> char {
    (48 + d) as char
}

/// The decimal digits of `n`, without leading zeros.
pub open spec fn decimal(n: nat) -> Seq<char>
    decreases n,
{
    if n < 10 {
        seq![digit_char(n as int)]
    } else {
        decimal(n / 10).push(digit_char(n as int % 10))
    }
}

/// The character of an upper-case hexadecimal digit.
pub open spec fn hex_char(d: int) -> char {
    if d < 10 {
        (48 + d) as char
    } else {
        (55 + d) as char
    }
}

/// The upper-case hexadecimal digits of `n`, at least `width` of them.
pub open spec fn hexadecimal(n: nat, width: nat) -> Seq<char>
    decreases n, width,
{
    if n < 16 && width <= 1 {
        seq![hex_char(n as int)]
    } else {
        hexadecimal(n / 16, if width > 0 { (width - 1) as nat } else { 0 }).push(
            hex_char(n as int % 16),
        )
    }
}

/// Appends `n` in decimal.
pub fn push_decimal(s: &mut String, n: u64)
    ensures
        final(s)@ == old(s)@ + decimal(n as nat),
    decreases n,
{
    if n >= 10 {
        push_decimal(s, n / 10);
    }
    s.push((48u8 + (n % 10) as u8) as char);
    assert(s@ =~= old(s)@ + decimal(n as nat));
}

/// Appends `n` in upper-case hexadecimal with at least `width` digits.
pub fn push_hex(s: &mut String, n: u64, width: u8)
    ensures
        final(s)@ == old(s)@ + hexadecimal(n as nat, width as nat),
    decreases n, width,
{
    if !(n < 16 && width <= 1) {
        push_hex(s, n / 16, if width > 0 { width - 1 } else { 0 });
    }
    let d: u8 = (n % 16) as u8;
    if d < 10 {
        s.push((48u8 + d) as char);
    } else {
        s.push((55u8 + d) as char);
    }
    assert(s@ =~= old(s)@ + hexadecimal(n as nat, width as nat));
}

/// Whether a character is white space.
pub open spec fn is_space(c: char) -> bool {
    let n = c as u32;
    (9 <= n <= 13) || n == 0x20 || n == 0x85 || n == 0xA0 || n == 0x1680 || (0x2000 <= n <= 0x200A)
        || n == 0x2028 || n == 0x2029 || n == 0x202F || n == 0x205F || n == 0x3000
}

/// A text without the white space in front of it.
pub open spec fn left_trimmed(t: Seq<char>) -> Seq<char>
    decreases t.len(),
{
    if t.len() > 0 && is_space(t[0]) {
        left_trimmed(t.skip(1))
    } else {
        t
    }
}

/// A text without the white space behind it.
pub open spec fn right_trimmed(t: Seq<char>) -> Seq<char>
    decreases t.len(),
{
    if t.len() > 0 && is_space(t.last()) {
        right_trimmed(t.drop_last())
    } else {
        t
    }
}

/// A text without the white space around it.
pub open spec fn trimmed(t: Seq<char>) -> Seq<char> {
    right_trimmed(left_trimmed(t))
}

/// Whether a character is a decimal digit.
pub open spec fn is_digit(c: char) -> bool {
    '0' <= c && c <= '9'
}

/// The number that decimal digits spell, or nothing if another character is
/// among them.
pub open spec fn digits_value(t: Seq<char>) -> Option<nat>
    decreases t.len(),
{
    if t.len() == 0 {
        Some(0)
    } else if !is_digit(t.last()) {
        None
    } else {
        match digits_value(t.drop_last()) {
            None => None,
            Some(n) => Some((n * 10 + (t.last() as u32 - 48)) as nat),
        }
    }
}

/// The number that a text spells: decimal digits, with an optional plus sign in
/// front of them. It has to fit in 64 bits.
pub open spec fn parsed_u64(t: Seq<char>) -> Option<u64> {
    let digits = if t.len() > 0 && t[0] == '+' {
        t.skip(1)
    } else {
        t
    };
    match digits_value(digits) {
        Some(n) => if digits.len() > 0 && n <= u64::MAX {
            Some(n as u64)
        } else {
            None
        },
        None => None,
    }
}

fn space(c: char) -> (r: bool)
    ensures
        r == is_space(c),
{
    let n: u32 = c as u32;
    (9 <= n && n <= 13) || n == 0x20 || n == 0x85 || n == 0xA0 || n == 0x1680 || (0x2000 <= n && n
        <= 0x200A) || n == 0x2028 || n == 0x2029 || n == 0x202F || n == 0x205F || n == 0x3000
}

/// The text without the white space around it.
pub fn trim_text(t: &str) -> (r: &str)
    ensures
        r@ == trimmed(t@),
{
    let n: usize = t.unicode_len();
    let mut from: usize = 0;
    assert(t@.skip(0) =~= t@);
    while from < n && space(t.get_char(from))
        invariant
            from <= n == t@.len(),
            left_trimmed(t@) == left_trimmed(t@.skip(from as int)),
        decreases n - from,
    {
        assert(t@.skip(from as int).skip(1) =~= t@.skip(from + 1));
        from += 1;
    }
    let ghost left = t@.skip(from as int);
    assert(left_trimmed(t@) == left);
    let mut to: usize = n;
    assert(t@.subrange(from as int, n as int) =~= left);
    while to > from && space(t.get_char(to - 1))
        invariant
            from <= to <= n == t@.len(),
            right_trimmed(left) == right_trimmed(t@.subrange(from as int, to as int)),
        decreases to,
    {
        assert(t@.subrange(from as int, to as int).drop_last() =~= t@.subrange(
            from as int,
            to - 1,
        ));
        to -= 1;
    }
    t.substring_char(from, to)
}

proof fn lemma_digits_prefix(t: Seq<char>, n: int)
    requires
        0 <= n <= t.len(),
    ensures
        digits_value(t.take(n)) is None ==> digits_value(t) is None,
        digits_value(t) is Some ==> digits_value(t.take(n)) is Some && digits_value(t.take(n))->0
            <= digits_value(t)->0,
    decreases t.len(),
{
    if n == t.len() {
        assert(t.take(n) =~= t);
    } else {
        lemma_digits_prefix(t.drop_last(), n);
        assert(t.drop_last().take(n) =~= t.take(n));
    }
}

/// The number that a text spells, if it spells one.
pub fn parse_u64(t: &str) -> (r: Option<u64>)
    ensures
        r == parsed_u64(t@),
{
    let n: usize = t.unicode_len();
    let start: usize = if n > 0 && t.get_char(0) == '+' { 1 } else { 0 };
    let ghost digits = t@.skip(start as int);
    assert(start == 0 ==> digits =~= t@);
    if start >= n {
        return None;
    }
    let mut value: u64 = 0;
    let mut i: usize = start;
    while i < n
        invariant
            start <= i <= n == t@.len(),
            start < n,
            digits == t@.skip(start as int),
            digits == if t@.len() > 0 && t@[0] == '+' {
                t@.skip(1)
            } else {
                t@
            },
            digits_value(digits.take(i - start)) == Some(value as nat),
        decreases n - i,
    {
        let c = t.get_char(i);
        let ghost some = digits.take(i + 1 - start);
        proof {
            assert(some.drop_last() =~= digits.take(i - start));
            assert(some.last() == c);
            lemma_digits_prefix(digits, i + 1 - start);
        }
        if !('0' <= c && c <= '9') {
            return None;
        }
        let d: u64 = (c as u32 - 48) as u64;
        if value > (u64::MAX - d) / 10 {
            assert(value * 10 + d > u64::MAX);
            return None;
        }
        value = value * 10 + d;
        i += 1;
    }
    assert(digits.take(n - start) =~= digits);
    Some(value)
}

/// A text without the zero characters behind it.
pub open spec fn without_zeros(t: Seq<char>) -> Seq<char>
    decreases t.len(),
{
    if t.len() > 0 && t.last() == '\0' {
        without_zeros(t.drop_last())
    } else {
        t
    }
}

/// The text without the zero characters behind it.
pub fn trim_zeros(t: &str) -> (r: &str)
    ensures
        r@ == without_zeros(t@),
{
    let n: usize = t.unicode_len();
    let mut to: usize = n;
    assert(t@.take(n as int) =~= t@);
    while to > 0 && t.get_char(to - 1) == '\0'
        invariant
            to <= n == t@.len(),
            without_zeros(t@) == without_zeros(t@.take(to as int)),
        decreases to,
    {
        assert(t@.take(to as int).drop_last() =~= t@.take(to - 1));
        to -= 1;
    }
    t.substring_char(0, to)
}

/// The language that a field of a stream's attributes names: none if the field
/// is empty or says "und".
pub open spec fn named_language(t: Seq<char>) -> Option<Seq<char>> {
    let name = without_zeros(t);
    if name.len() == 0 || name == "und"@ {
        None
    } else {
        Some(name)
    }
}

/// The language that a field of a stream's attributes names.
pub fn language_name(t: &str) -> (r: Option<String>)
    ensures
        match (r, named_language(t@)) {
            (Some(l), Some(v)) => l@ == v,
            (None, None) => true,
            _ => false,
        },
{
    let name = trim_zeros(t).to_owned();
    if name.as_str().is_empty() || name == "und".to_owned() {
        None
    } else {
        Some(name)
    }
}

} // verus!
