//! What is written as JSON is read back.
use vstd::prelude::*;
use vstd::utf8::{encode_scalar, encode_utf8, is_ascii_chars, is_ascii_chars_encode_utf8};
use crate::ndjson::base64::ascii_bytes;
use crate::ndjson::json::{
    escape, escaped, quoted, rendered, rendered_items, rendered_pairs, Json,
};
use crate::ndjson::parse::{
    array_from, byte_chars, is_digit_byte, is_json_space, is_number, is_number_byte, json_parsed,
    number_end, object_from, past_space, string_at, string_from, value_at,
};

verus! {

/// Whether a text is a number that starts with a digit or a minus sign.
pub open spec fn is_literal(n: Seq<char>) -> bool {
    &&& is_ascii_chars(n)
    &&& n.len() > 0
    &&& is_digit_byte(n[0] as u8) || n[0] == '-'
    &&& forall|i: int| 0 <= i < n.len() ==> is_number_byte(#[trigger] n[i] as u8)
    &&& is_number(ascii_bytes(n))
}

/// Whether all numbers of a value are numbers.
pub open spec fn is_regular(t: Json<Seq<char>>) -> bool
    decreases t,
{
    match t {
        Json::Num(n) => is_literal(n),
        Json::Array(items) => items_are_regular(items),
        Json::Object(pairs) => pairs_are_regular(pairs),
        _ => true,
    }
}

/// Whether all the values are regular.
pub open spec fn items_are_regular(items: Seq<Json<Seq<char>>>) -> bool
    decreases items,
{
    items.len() == 0 || (is_regular(items[0]) && items_are_regular(items.skip(1)))
}

/// Whether all the fields have regular values.
pub open spec fn pairs_are_regular(pairs: Seq<(Seq<char>, Json<Seq<char>>)>) -> bool
    decreases pairs,
{
    pairs.len() == 0 || (is_regular(pairs[0].1) && pairs_are_regular(pairs.skip(1)))
}

/// A text as it is read: its UTF-8 bytes, each as a character.
pub open spec fn text_as_read(s: Seq<char>) -> Seq<char> {
    byte_chars(encode_utf8(s))
}

/// A value as it is read: with the texts in it as they are read.
pub open spec fn as_read(t: Json<Seq<char>>) -> Json<Seq<char>>
    decreases t,
{
    match t {
        Json::Str(s) => Json::Str(text_as_read(s)),
        Json::Array(items) => Json::Array(items_as_read(items)),
        Json::Object(pairs) => Json::Object(pairs_as_read(pairs)),
        other => other,
    }
}

/// Values as they are read.
pub open spec fn items_as_read(items: Seq<Json<Seq<char>>>) -> Seq<Json<Seq<char>>>
    decreases items,
{
    if items.len() == 0 {
        Seq::empty()
    } else {
        seq![as_read(items[0])] + items_as_read(items.skip(1))
    }
}

/// Fields as they are read.
pub open spec fn pairs_as_read(pairs: Seq<(Seq<char>, Json<Seq<char>>)>) -> Seq<
    (Seq<char>, Json<Seq<char>>),
>
    decreases pairs,
{
    if pairs.len() == 0 {
        Seq::empty()
    } else {
        seq![(text_as_read(pairs[0].0), as_read(pairs[0].1))] + pairs_as_read(pairs.skip(1))
    }
}

proof fn lemma_encode_append(a: Seq<char>, b: Seq<char>)
    ensures
        encode_utf8(a + b) == encode_utf8(a) + encode_utf8(b),
    decreases a.len(),
{
    if a.len() == 0 {
        assert(a + b =~= b);
        assert(encode_utf8(a) + encode_utf8(b) =~= encode_utf8(b));
    } else {
        lemma_encode_append(a.drop_first(), b);
        assert((a + b).drop_first() =~= a.drop_first() + b);
        assert(encode_utf8(a + b) =~= encode_utf8(a) + encode_utf8(b));
    }
}

proof fn lemma_encode_one(c: char)
    ensures
        encode_utf8(seq![c]) == encode_scalar(c as u32),
{
    assert(seq![c].drop_first() =~= Seq::empty());
    assert(encode_utf8(Seq::<char>::empty()) =~= Seq::empty());
    assert(encode_utf8(seq![c]) =~= encode_scalar(c as u32));
}

proof fn lemma_encode_ascii(c: char)
    requires
        c <= '\u{7f}',
    ensures
        encode_utf8(seq![c]) == seq![c as u8],
{
    let text = seq![c];
    assert(is_ascii_chars(text));
    is_ascii_chars_encode_utf8(text);
    assert(text[0] as u8 == encode_utf8(text)[0]);
    assert(encode_utf8(text) =~= seq![c as u8]);
}

proof fn lemma_high_bits(v: u32)
    requires
        v > 0x7F,
    ensures
        forall|i: int| 0 <= i < encode_scalar(v).len() ==> #[trigger] encode_scalar(v)[i] >= 0x80,
{
    assert(0xC0u8 | ((v >> 6u32) & 0x1Fu32) as u8 >= 0x80u8) by (bit_vector);
    assert(0xE0u8 | ((v >> 12u32) & 0x0Fu32) as u8 >= 0x80u8) by (bit_vector);
    assert(0xF0u8 | ((v >> 18u32) & 0x07u32) as u8 >= 0x80u8) by (bit_vector);
    assert(0x80u8 | (v & 0x3Fu32) as u8 >= 0x80u8) by (bit_vector);
    assert(0x80u8 | ((v >> 6u32) & 0x3Fu32) as u8 >= 0x80u8) by (bit_vector);
    assert(0x80u8 | ((v >> 12u32) & 0x3Fu32) as u8 >= 0x80u8) by (bit_vector);
}

/// Whether the bytes at `i` are those of a text.
pub open spec fn spelled(b: Seq<u8>, i: int, text: Seq<char>) -> bool {
    let e = encode_utf8(text);
    &&& 0 <= i
    &&& i + e.len() <= b.len()
    &&& forall|k: int| 0 <= k < e.len() ==> b[i + k] == #[trigger] e[k]
}

/// The number of bytes that a text takes.
pub open spec fn size_of(text: Seq<char>) -> int {
    encode_utf8(text).len() as int
}

proof fn lemma_spelled_parts(b: Seq<u8>, i: int, first: Seq<char>, second: Seq<char>)
    requires
        spelled(b, i, first + second),
    ensures
        spelled(b, i, first),
        spelled(b, i + size_of(first), second),
        size_of(first + second) == size_of(first) + size_of(second),
{
    lemma_encode_append(first, second);
    let both = encode_utf8(first + second);
    let (e, f) = (encode_utf8(first), encode_utf8(second));
    assert forall|k: int| 0 <= k < e.len() implies b[i + k] == #[trigger] e[k] by {
        assert(both[k] == e[k]);
    }
    assert forall|k: int| 0 <= k < f.len() implies b[i + e.len() + k] == #[trigger] f[k] by {
        assert(both[e.len() + k] == f[k]);
        assert(b[i + (e.len() + k)] == both[e.len() + k]);
    }
}

proof fn lemma_spelled_char(b: Seq<u8>, i: int, c: char, rest: Seq<char>)
    requires
        c <= '\u{7f}',
        spelled(b, i, seq![c] + rest),
    ensures
        i < b.len(),
        b[i] == c as u8,
        spelled(b, i + 1, rest),
        size_of(seq![c] + rest) == 1 + size_of(rest),
{
    lemma_encode_ascii(c);
    lemma_spelled_parts(b, i, seq![c], rest);
    assert(encode_utf8(seq![c])[0] == c as u8);
    assert(b[i + 0] == c as u8);
}

/// Bytes that are no quote and no backslash are taken as they are.
proof fn lemma_plain_bytes(b: Seq<u8>, j: int, got: Seq<char>, e: Seq<u8>)
    requires
        0 <= j,
        j + e.len() <= b.len(),
        forall|k: int| 0 <= k < e.len() ==> b[j + k] == #[trigger] e[k] && e[k] >= 0x80,
    ensures
        string_from(b, j, got) == string_from(b, j + e.len(), got + byte_chars(e)),
    decreases e.len(),
{
    if e.len() == 0 {
        assert(got + byte_chars(e) =~= got);
    } else {
        assert(b[j + 0] == e[0]);
        let rest = e.skip(1);
        assert forall|k: int| 0 <= k < rest.len() implies b[j + 1 + k] == #[trigger] rest[k]
            && rest[k] >= 0x80 by {
            assert(rest[k] == e[k + 1]);
            assert(b[j + (k + 1)] == e[k + 1]);
        }
        lemma_plain_bytes(b, j + 1, got.push(e[0] as char), rest);
        assert(got.push(e[0] as char) + byte_chars(rest) =~= got + byte_chars(e));
    }
}

proof fn lemma_byte_chars_append(a: Seq<u8>, b: Seq<u8>)
    ensures
        byte_chars(a + b) == byte_chars(a) + byte_chars(b),
{
    assert(byte_chars(a + b) =~= byte_chars(a) + byte_chars(b));
}

/// One character of a string is read.
proof fn lemma_char_back(b: Seq<u8>, j: int, got: Seq<char>, c: char, rest: Seq<char>)
    requires
        spelled(b, j, escape(c) + rest),
    ensures
        string_from(b, j, got) == string_from(
            b,
            j + size_of(escape(c)),
            got + text_as_read(seq![c]),
        ),
        spelled(b, j + size_of(escape(c)), rest),
        size_of(escape(c) + rest) == size_of(escape(c)) + size_of(rest),
{
    lemma_spelled_parts(b, j, escape(c), rest);
    lemma_encode_one(c);
    if c <= '\u{7f}' {
        lemma_encode_ascii(c);
        assert((c as u8) as char == c);
        assert(got + text_as_read(seq![c]) =~= got.push(c));
        let e = escape(c);
        if e.len() == 2 {
            let second = seq![e[1]];
            assert(e =~= seq![e[0]] + second);
            lemma_spelled_char(b, j, e[0], second);
            assert(second + Seq::empty() =~= second);
            lemma_spelled_char(b, j + 1, e[1], Seq::empty());
            assert(size_of(Seq::<char>::empty()) == 0);
            assert(got + seq![c] =~= got.push(c));
        } else {
            assert(e + Seq::empty() =~= e);
            lemma_spelled_char(b, j, c, Seq::empty());
            assert(size_of(Seq::<char>::empty()) == 0);
        }
    } else {
        let e = encode_scalar(c as u32);
        lemma_high_bits(c as u32);
        assert(escape(c) == seq![c]);
        assert forall|k: int| 0 <= k < e.len() implies b[j + k] == #[trigger] e[k] && e[k]
            >= 0x80 by {}
        lemma_plain_bytes(b, j, got, e);
    }
}

proof fn lemma_string_back(b: Seq<u8>, j: int, got: Seq<char>, s: Seq<char>)
    requires
        spelled(b, j, escaped(s) + seq!['"']),
    ensures
        string_from(b, j, got) == Ok::<(Seq<char>, int), Seq<char>>(
            (got + text_as_read(s), j + size_of(escaped(s) + seq!['"'])),
        ),
    decreases s.len(),
{
    let text = escaped(s) + seq!['"'];
    let none = Seq::<char>::empty();
    if s.len() == 0 {
        assert(text =~= seq!['"'] + none);
        lemma_spelled_char(b, j, '"', none);
        assert(size_of(none) == 0);
        assert(got + text_as_read(s) =~= got);
    } else {
        let c = s[0];
        let rest = escaped(s.skip(1)) + seq!['"'];
        assert(text =~= escape(c) + rest);
        lemma_char_back(b, j, got, c, rest);
        lemma_string_back(
            b,
            j + size_of(escape(c)),
            got + text_as_read(seq![c]),
            s.skip(1),
        );
        assert(s =~= seq![c] + s.skip(1));
        lemma_encode_append(seq![c], s.skip(1));
        lemma_byte_chars_append(encode_utf8(seq![c]), encode_utf8(s.skip(1)));
        assert(got + text_as_read(s) =~= got + text_as_read(seq![c]) + text_as_read(s.skip(1)));
    }
}

proof fn lemma_quoted_back(b: Seq<u8>, j: int, s: Seq<char>)
    requires
        spelled(b, j, quoted(s)),
    ensures
        string_at(b, j) == Ok::<(Seq<char>, int), Seq<char>>(
            (text_as_read(s), j + size_of(quoted(s))),
        ),
{
    let rest = escaped(s) + seq!['"'];
    assert(quoted(s) =~= seq!['"'] + rest);
    lemma_spelled_char(b, j, '"', rest);
    lemma_string_back(b, j + 1, Seq::empty(), s);
    assert(Seq::<char>::empty() + text_as_read(s) =~= text_as_read(s));
}

proof fn lemma_number_end(b: Seq<u8>, i: int, end: int)
    requires
        0 <= i <= end <= b.len(),
        forall|k: int| i <= k < end ==> is_number_byte(#[trigger] b[k]),
        end < b.len() ==> !is_number_byte(b[end]),
    ensures
        number_end(b, i) == end,
    decreases end - i,
{
    if i < end {
        lemma_number_end(b, i + 1, end);
    }
}

/// The text of a value starts with an ASCII character that starts a value.
proof fn lemma_first_char(t: Json<Seq<char>>)
    requires
        is_regular(t),
    ensures
        rendered(t).len() > 0,
        rendered(t)[0] <= '\u{7f}',
        !is_json_space(rendered(t)[0] as u8),
        rendered(t)[0] as u8 != 93,
        rendered(t)[0] as u8 != 125,
{
    reveal_strlit("null");
    reveal_strlit("true");
    reveal_strlit("false");
}

proof fn lemma_no_space(b: Seq<u8>, i: int)
    requires
        i < b.len() ==> !is_json_space(b[i]),
    ensures
        past_space(b, i) == i,
{
}

/// A value starts where its text starts.
proof fn lemma_starts(b: Seq<u8>, i: int, t: Json<Seq<char>>, rest: Seq<char>)
    requires
        is_regular(t),
        spelled(b, i, rendered(t) + rest),
    ensures
        i < b.len(),
        b[i] == rendered(t)[0] as u8,
        past_space(b, i) == i,
        size_of(rendered(t)) > 0,
{
    lemma_first_char(t);
    let text = rendered(t) + rest;
    assert(text =~= seq![text[0]] + text.skip(1));
    lemma_spelled_char(b, i, text[0], text.skip(1));
    lemma_no_space(b, i);
    lemma_spelled_parts(b, i, rendered(t), rest);
    let r = rendered(t);
    assert(r =~= seq![r[0]] + r.skip(1));
    lemma_spelled_char(b, i, r[0], r.skip(1));
}

proof fn lemma_word_back(b: Seq<u8>, i: int, t: Json<Seq<char>>)
    requires
        t is Null || t is Bool,
        spelled(b, i, rendered(t)),
    ensures
        value_at(b, i) == Ok::<(Json<Seq<char>>, int), Seq<char>>((t, i + size_of(rendered(t)))),
{
    reveal_strlit("null");
    reveal_strlit("true");
    reveal_strlit("false");
    let text = rendered(t);
    assert(is_ascii_chars(text));
    is_ascii_chars_encode_utf8(text);
    let e = encode_utf8(text);
    assert forall|k: int| 0 <= k < text.len() implies b[i + k] == #[trigger] text[k] as u8 by {
        assert(e[k] == text[k] as u8);
    }
    assert(b[i + 0] == text[0] as u8);
}

proof fn lemma_literal_back(b: Seq<u8>, i: int, n: Seq<char>)
    requires
        is_literal(n),
        spelled(b, i, n),
        i + size_of(n) < b.len() ==> !is_number_byte(b[i + size_of(n)]),
    ensures
        value_at(b, i) == Ok::<(Json<Seq<char>>, int), Seq<char>>((Json::Num(n), i + size_of(n))),
{
    is_ascii_chars_encode_utf8(n);
    let e = encode_utf8(n);
    let end = i + n.len();
    assert forall|k: int| 0 <= k < n.len() implies b[i + k] == #[trigger] n[k] as u8 by {
        assert(e[k] == n[k] as u8);
    }
    assert forall|k: int| i <= k < end implies is_number_byte(#[trigger] b[k]) by {
        assert(b[i + (k - i)] == n[k - i] as u8);
    }
    lemma_number_end(b, i, end);
    let token = b.subrange(i, end);
    assert(token =~= ascii_bytes(n)) by {
        assert forall|k: int| 0 <= k < n.len() implies token[k] == ascii_bytes(n)[k] by {
            assert(b[i + k] == n[k] as u8);
        }
    }
    assert(byte_chars(token) =~= n) by {
        assert forall|k: int| 0 <= k < n.len() implies byte_chars(token)[k] == n[k] by {
            assert(token[k] == n[k] as u8);
            assert((n[k] as u8) as char == n[k]);
        }
    }
    assert(b[i + 0] == n[0] as u8);
}

/// A value that is spelled at a position is read from there.
proof fn lemma_value_back(b: Seq<u8>, i: int, t: Json<Seq<char>>)
    requires
        is_regular(t),
        spelled(b, i, rendered(t)),
        i + size_of(rendered(t)) < b.len() ==> !is_number_byte(b[i + size_of(rendered(t))]),
    ensures
        value_at(b, i) == Ok::<(Json<Seq<char>>, int), Seq<char>>(
            (as_read(t), i + size_of(rendered(t))),
        ),
    decreases t,
{
    let text = rendered(t);
    let none = Seq::<char>::empty();
    assert(size_of(none) == 0);
    match t {
        Json::Null | Json::Bool(_) => {
            lemma_word_back(b, i, t);
        },
        Json::Str(s) => {
            let rest = escaped(s) + seq!['"'];
            assert(text =~= seq!['"'] + rest);
            lemma_spelled_char(b, i, '"', rest);
            lemma_quoted_back(b, i, s);
        },
        Json::Num(n) => {
            lemma_literal_back(b, i, n);
        },
        Json::Array(items) => {
            if items.len() == 0 {
                assert(text =~= seq!['['] + seq![']']);
                lemma_spelled_char(b, i, '[', seq![']']);
                assert(seq![']'] =~= seq![']'] + none);
                lemma_spelled_char(b, i + 1, ']', none);
                lemma_no_space(b, i + 1);
            } else {
                let inner = rendered(items[0]) + rendered_items(items.skip(1));
                assert(text =~= seq!['['] + inner);
                lemma_spelled_char(b, i, '[', inner);
                lemma_starts(b, i + 1, items[0], rendered_items(items.skip(1)));
                lemma_first_char(items[0]);
                lemma_items_back(b, i + 1, Seq::empty(), items);
                assert(Seq::empty() + items_as_read(items) =~= items_as_read(items));
            }
        },
        Json::Object(pairs) => {
            if pairs.len() == 0 {
                assert(text =~= seq!['{'] + seq!['}']);
                lemma_spelled_char(b, i, '{', seq!['}']);
                assert(seq!['}'] =~= seq!['}'] + none);
                lemma_spelled_char(b, i + 1, '}', none);
                lemma_no_space(b, i + 1);
            } else {
                let key = pairs[0].0;
                let inner = quoted(key) + (seq![':'] + (rendered(pairs[0].1) + rendered_pairs(
                    pairs.skip(1),
                )));
                assert(text =~= seq!['{'] + inner);
                lemma_spelled_char(b, i, '{', inner);
                assert(inner =~= seq!['"'] + inner.skip(1));
                lemma_spelled_char(b, i + 1, '"', inner.skip(1));
                lemma_no_space(b, i + 1);
                lemma_pairs_back(b, i + 1, Seq::empty(), pairs);
                assert(Seq::empty() + pairs_as_read(pairs) =~= pairs_as_read(pairs));
            }
        },
    }
}

proof fn lemma_items_back(
    b: Seq<u8>,
    j: int,
    got: Seq<Json<Seq<char>>>,
    items: Seq<Json<Seq<char>>>,
)
    requires
        items.len() > 0,
        items_are_regular(items),
        spelled(b, j, rendered(items[0]) + rendered_items(items.skip(1))),
    ensures
        array_from(b, j, got) == Ok::<(Json<Seq<char>>, int), Seq<char>>(
            (
                Json::Array(got + items_as_read(items)),
                j + size_of(rendered(items[0]) + rendered_items(items.skip(1))),
            ),
        ),
    decreases items,
{
    let rest = items.skip(1);
    let tail = rendered_items(rest);
    let none = Seq::<char>::empty();
    assert(size_of(none) == 0);
    lemma_starts(b, j, items[0], tail);
    lemma_spelled_parts(b, j, rendered(items[0]), tail);
    let k = j + size_of(rendered(items[0]));
    let value = as_read(items[0]);
    if rest.len() == 0 {
        assert(tail =~= seq![']'] + none);
        lemma_spelled_char(b, k, ']', none);
        lemma_value_back(b, j, items[0]);
        lemma_no_space(b, k);
        assert(items_as_read(rest) =~= Seq::empty());
        assert(got.push(value) =~= got + items_as_read(items));
    } else {
        let inner = rendered(rest[0]) + rendered_items(rest.skip(1));
        assert(tail =~= seq![','] + inner);
        lemma_spelled_char(b, k, ',', inner);
        lemma_value_back(b, j, items[0]);
        lemma_no_space(b, k);
        assert(items_are_regular(rest));
        lemma_starts(b, k + 1, rest[0], rendered_items(rest.skip(1)));
        lemma_items_back(b, k + 1, got.push(value), rest);
        assert(got.push(value) + items_as_read(rest) =~= got + items_as_read(items));
    }
}

proof fn lemma_pairs_back(
    b: Seq<u8>,
    j: int,
    got: Seq<(Seq<char>, Json<Seq<char>>)>,
    pairs: Seq<(Seq<char>, Json<Seq<char>>)>,
)
    requires
        pairs.len() > 0,
        pairs_are_regular(pairs),
        spelled(
            b,
            j,
            quoted(pairs[0].0) + (seq![':'] + (rendered(pairs[0].1) + rendered_pairs(
                pairs.skip(1),
            ))),
        ),
    ensures
        object_from(b, j, got) == Ok::<(Json<Seq<char>>, int), Seq<char>>(
            (
                Json::Object(got + pairs_as_read(pairs)),
                j + size_of(
                    quoted(pairs[0].0) + (seq![':'] + (rendered(pairs[0].1) + rendered_pairs(
                        pairs.skip(1),
                    ))),
                ),
            ),
        ),
    decreases pairs,
{
    let (key, value) = pairs[0];
    let rest = pairs.skip(1);
    let tail = rendered_pairs(rest);
    let none = Seq::<char>::empty();
    assert(size_of(none) == 0);
    lemma_spelled_parts(b, j, quoted(key), seq![':'] + (rendered(value) + tail));
    let colon = j + size_of(quoted(key));
    lemma_spelled_char(b, colon, ':', rendered(value) + tail);
    lemma_starts(b, colon + 1, value, tail);
    lemma_spelled_parts(b, colon + 1, rendered(value), tail);
    lemma_quoted_back(b, j, key);
    lemma_no_space(b, colon);
    let k = colon + 1 + size_of(rendered(value));
    let pair = (text_as_read(key), as_read(value));
    if rest.len() == 0 {
        assert(tail =~= seq!['}'] + none);
        lemma_spelled_char(b, k, '}', none);
        lemma_value_back(b, colon + 1, value);
        lemma_no_space(b, k);
        assert(pairs_as_read(rest) =~= Seq::empty());
        assert(got.push(pair) =~= got + pairs_as_read(pairs));
    } else {
        let inner = quoted(rest[0].0) + (seq![':'] + (rendered(rest[0].1) + rendered_pairs(
            rest.skip(1),
        )));
        assert(tail =~= seq![','] + inner);
        lemma_spelled_char(b, k, ',', inner);
        lemma_value_back(b, colon + 1, value);
        lemma_no_space(b, k);
        assert(pairs_are_regular(rest));
        assert(inner =~= seq!['"'] + inner.skip(1));
        lemma_spelled_char(b, k + 1, '"', inner.skip(1));
        lemma_no_space(b, k + 1);
        lemma_pairs_back(b, k + 1, got.push(pair), rest);
        assert(got.push(pair) + pairs_as_read(rest) =~= got + pairs_as_read(pairs));
    }
}

/// A value whose numbers are numbers is read back from its text, with the
/// UTF-8 bytes of its strings as characters.
pub proof fn json_parse_of_rendered(t: Json<Seq<char>>)
    requires
        is_regular(t),
    ensures
        json_parsed(encode_utf8(rendered(t))) == Ok::<Json<Seq<char>>, Seq<char>>(as_read(t)),
{
    let b = encode_utf8(rendered(t));
    assert(spelled(b, 0, rendered(t))) by {
        assert forall|k: int| 0 <= k < b.len() implies b[0 + k] == #[trigger] b[k] by {}
    }
    assert(rendered(t) + Seq::empty() =~= rendered(t));
    lemma_starts(b, 0, t, Seq::empty());
    lemma_value_back(b, 0, t);
}

/// Whether a value is regular and all its strings are ASCII.
pub open spec fn is_plain(t: Json<Seq<char>>) -> bool
    decreases t,
{
    match t {
        Json::Str(s) => is_ascii_chars(s),
        Json::Num(n) => is_literal(n),
        Json::Array(items) => items_are_plain(items),
        Json::Object(pairs) => pairs_are_plain(pairs),
        _ => true,
    }
}

/// Whether all the values are plain.
pub open spec fn items_are_plain(items: Seq<Json<Seq<char>>>) -> bool
    decreases items,
{
    items.len() == 0 || (is_plain(items[0]) && items_are_plain(items.skip(1)))
}

/// Whether all the fields have ASCII keys and plain values.
pub open spec fn pairs_are_plain(pairs: Seq<(Seq<char>, Json<Seq<char>>)>) -> bool
    decreases pairs,
{
    pairs.len() == 0 || (is_ascii_chars(pairs[0].0) && is_plain(pairs[0].1) && pairs_are_plain(
        pairs.skip(1),
    ))
}

/// ASCII text is read as it is.
pub proof fn ascii_is_read_as_it_is(s: Seq<char>)
    requires
        is_ascii_chars(s),
    ensures
        text_as_read(s) == s,
{
    is_ascii_chars_encode_utf8(s);
    assert forall|i: int| 0 <= i < s.len() implies text_as_read(s)[i] == s[i] by {
        assert(s[i] as u8 == encode_utf8(s)[i]);
        assert((s[i] as u8) as char == s[i]);
    }
    assert(text_as_read(s) =~= s);
}

/// A plain value is regular and is read as it is.
pub proof fn plain_is_read_as_it_is(t: Json<Seq<char>>)
    requires
        is_plain(t),
    ensures
        is_regular(t),
        as_read(t) == t,
    decreases t,
{
    match t {
        Json::Str(s) => {
            ascii_is_read_as_it_is(s);
        },
        Json::Array(items) => {
            lemma_plain_items(items);
        },
        Json::Object(pairs) => {
            lemma_plain_pairs(pairs);
        },
        _ => {},
    }
}

proof fn lemma_plain_items(items: Seq<Json<Seq<char>>>)
    requires
        items_are_plain(items),
    ensures
        items_are_regular(items),
        items_as_read(items) == items,
    decreases items,
{
    if items.len() > 0 {
        plain_is_read_as_it_is(items[0]);
        lemma_plain_items(items.skip(1));
        assert(items_as_read(items) =~= items);
    } else {
        assert(items_as_read(items) =~= items);
    }
}

proof fn lemma_plain_pairs(pairs: Seq<(Seq<char>, Json<Seq<char>>)>)
    requires
        pairs_are_plain(pairs),
    ensures
        pairs_are_regular(pairs),
        pairs_as_read(pairs) == pairs,
    decreases pairs,
{
    if pairs.len() > 0 {
        ascii_is_read_as_it_is(pairs[0].0);
        plain_is_read_as_it_is(pairs[0].1);
        lemma_plain_pairs(pairs.skip(1));
        assert(pairs_as_read(pairs) =~= pairs);
    } else {
        assert(pairs_as_read(pairs) =~= pairs);
    }
}

} // verus!
