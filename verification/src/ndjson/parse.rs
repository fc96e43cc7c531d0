//! The JSON value that a text holds.
//!
//! Text is read byte by byte, so that a character outside ASCII is read as the
//! characters of its UTF-8 bytes. What follows the first value is ignored.
use vstd::prelude::*;
use vstd::utf8::encode_utf8;
use crate::ndjson::json::{
    lemma_array_tree, lemma_object_tree, pair_trees, trees, Json, JsonValue,
};
use crate::text::{decimal, push_decimal};

verus! {

/// A JSON value read from bytes, with the position behind it, or a complaint.
pub type Parsed<T> = Result<(T, int), Seq<char>>;

/// White space between the parts of a JSON value.
pub open spec fn is_json_space(b: u8) -> bool {
    b == 32 || b == 9 || b == 13 || b == 10
}

/// The first position from `i` on that holds no white space.
pub open spec fn past_space(b: Seq<u8>, i: int) -> int
    decreases b.len() - i,
{
    if 0 <= i < b.len() && is_json_space(b[i]) {
        past_space(b, i + 1)
    } else {
        i
    }
}

/// White space is skipped forward, and not past the end.
pub proof fn space_is_passed(b: Seq<u8>, i: int)
    ensures
        past_space(b, i) >= i,
        i <= b.len() ==> past_space(b, i) <= b.len(),
    decreases b.len() - i,
{
    if 0 <= i < b.len() && is_json_space(b[i]) {
        space_is_passed(b, i + 1);
    }
}

/// A message about a position.
pub open spec fn at_offset(message: Seq<char>, i: int) -> Seq<char> {
    message + " at offset "@ + decimal(i as nat)
}

/// The word at position `i`, which has to be `word`.
pub open spec fn word_at(b: Seq<u8>, i: int, word: Seq<char>, value: Json<Seq<char>>) -> Parsed<
    Json<Seq<char>>,
> {
    let n = word.len();
    if i + n <= b.len() && (forall|k: int| 0 <= k < n ==> b[i + k] == #[trigger] word[k] as u8) {
        Ok((value, i + n))
    } else {
        Err(at_offset("expected '"@ + word + "'"@, i))
    }
}

/// What a character behind a backslash stands for.
pub open spec fn unescaped(b: u8) -> Seq<char> {
    if b == 34 {
        seq!['"']
    } else if b == 92 {
        seq!['\\']
    } else if b == 47 {
        seq!['/']
    } else if b == 110 {
        seq!['\n']
    } else if b == 114 {
        seq!['\r']
    } else if b == 116 {
        seq!['\t']
    } else {
        seq!['\\', b as char]
    }
}

/// The rest of a string from position `j` on, behind the text `got` so far.
pub open spec fn string_from(b: Seq<u8>, j: int, got: Seq<char>) -> Parsed<Seq<char>>
    decreases b.len() - j,
{
    if !(0 <= j < b.len()) {
        Err("unterminated string"@)
    } else if b[j] == 34 {
        Ok((got, j + 1))
    } else if b[j] == 92 {
        if j + 1 >= b.len() {
            Err("unterminated string escape"@)
        } else {
            string_from(b, j + 2, got + unescaped(b[j + 1]))
        }
    } else {
        string_from(b, j + 1, got.push(b[j] as char))
    }
}

/// The string at position `i`.
pub open spec fn string_at(b: Seq<u8>, i: int) -> Parsed<Seq<char>> {
    if !(0 <= i < b.len()) {
        Err("unexpected end of input"@)
    } else if b[i] != 34 {
        Err(at_offset("expected '\"'"@, i))
    } else {
        string_from(b, i + 1, Seq::empty())
    }
}

/// A byte that is a decimal digit.
pub open spec fn is_digit_byte(b: u8) -> bool {
    48 <= b <= 57
}

/// A byte that can stand in a number.
pub open spec fn is_number_byte(b: u8) -> bool {
    is_digit_byte(b) || b == 46 || b == 45 || b == 101 || b == 69 || b == 43
}

/// The first position from `i` on whose byte cannot stand in a number.
pub open spec fn number_end(b: Seq<u8>, i: int) -> int
    decreases b.len() - i,
{
    if 0 <= i < b.len() && is_number_byte(b[i]) {
        number_end(b, i + 1)
    } else {
        i
    }
}

/// The first position from `i` on that holds no digit.
pub open spec fn digits_end(t: Seq<u8>, i: int) -> int
    decreases t.len() - i,
{
    if 0 <= i < t.len() && is_digit_byte(t[i]) {
        digits_end(t, i + 1)
    } else {
        i
    }
}

/// The position behind a sign, if there is one at `i`.
pub open spec fn past_sign(t: Seq<u8>, i: int) -> int {
    if 0 <= i < t.len() && (t[i] == 43 || t[i] == 45) {
        i + 1
    } else {
        i
    }
}

/// Whether bytes spell a number: digits with at most one point among or around
/// them, a sign in front of them if any, and an exponent behind them if any.
pub open spec fn is_number(t: Seq<u8>) -> bool {
    let start = past_sign(t, 0);
    let point = digits_end(t, start);
    let pointed = point < t.len() && t[point] == 46;
    let end = if pointed {
        digits_end(t, point + 1)
    } else {
        point
    };
    let digits = if pointed {
        end - start - 1
    } else {
        end - start
    };
    let power = past_sign(t, end + 1);
    digits > 0 && (end == t.len() || ((t[end] == 101 || t[end] == 69) && digits_end(t, power)
        > power && digits_end(t, power) == t.len()))
}

/// Bytes as the characters with the same numbers.
pub open spec fn byte_chars(t: Seq<u8>) -> Seq<char> {
    Seq::new(t.len(), |i: int| t[i] as char)
}

/// The number at position `i`.
pub open spec fn number_at(b: Seq<u8>, i: int) -> Parsed<Json<Seq<char>>> {
    let end = number_end(b, i);
    let token = b.subrange(i, end);
    if is_number(token) {
        Ok((Json::Num(byte_chars(token)), end))
    } else {
        Err(at_offset("invalid number '"@ + byte_chars(token) + "'"@, i))
    }
}

/// The value at position `i`.
pub open spec fn value_at(b: Seq<u8>, i: int) -> Parsed<Json<Seq<char>>>
    decreases b.len() - i, 0int,
{
    proof {
        space_is_passed(b, i + 1);
    }
    let inside = past_space(b, i + 1);
    if !(0 <= i < b.len()) {
        Err("unexpected end of input"@)
    } else if b[i] == 34 {
        match string_at(b, i) {
            Ok((s, next)) => Ok((Json::Str(s), next)),
            Err(e) => Err(e),
        }
    } else if b[i] == 123 {
        if inside < b.len() && b[inside] == 125 {
            Ok((Json::Object(Seq::empty()), inside + 1))
        } else {
            object_from(b, inside, Seq::empty())
        }
    } else if b[i] == 91 {
        if inside < b.len() && b[inside] == 93 {
            Ok((Json::Array(Seq::empty()), inside + 1))
        } else {
            array_from(b, inside, Seq::empty())
        }
    } else if b[i] == 110 {
        word_at(b, i, "null"@, Json::Null)
    } else if b[i] == 116 {
        word_at(b, i, "true"@, Json::Bool(true))
    } else if b[i] == 102 {
        word_at(b, i, "false"@, Json::Bool(false))
    } else if is_digit_byte(b[i]) || b[i] == 45 {
        number_at(b, i)
    } else {
        Err(at_offset("unexpected character '"@.push(b[i] as char).push('\''), i))
    }
}

/// The rest of an array from position `j` on, where an item has to be, behind
/// the items `got` so far.
pub open spec fn array_from(b: Seq<u8>, j: int, got: Seq<Json<Seq<char>>>) -> Parsed<
    Json<Seq<char>>,
>
    decreases b.len() - j, 1int,
{
    match value_at(b, j) {
        Err(e) => Err(e),
        Ok((value, next)) => {
            proof {
                space_is_passed(b, next);
                space_is_passed(b, past_space(b, next) + 1);
            }
            let k = past_space(b, next);
            if next <= j || k >= b.len() {
                Err("unterminated array"@)
            } else if b[k] == 93 {
                Ok((Json::Array(got.push(value)), k + 1))
            } else if b[k] != 44 {
                Err(at_offset("expected ',' or ']'"@, k))
            } else {
                array_from(b, past_space(b, k + 1), got.push(value))
            }
        },
    }
}

/// The rest of an object from position `j` on, where a field has to be, behind
/// the fields `got` so far.
pub open spec fn object_from(b: Seq<u8>, j: int, got: Seq<(Seq<char>, Json<Seq<char>>)>) -> Parsed<
    Json<Seq<char>>,
>
    decreases b.len() - j, 1int,
{
    match string_at(b, j) {
        Err(e) => Err(e),
        Ok((key, behind)) => {
            proof {
                string_ends_behind(b, j + 1, Seq::empty());
                space_is_passed(b, behind);
                space_is_passed(b, past_space(b, behind) + 1);
            }
            let colon = past_space(b, behind);
            let at = past_space(b, colon + 1);
            if colon >= b.len() || b[colon] != 58 {
                Err(at_offset("expected ':' after key '"@ + key + "'"@, colon))
            } else {
                match value_at(b, at) {
                    Err(e) => Err(e),
                    Ok((value, next)) => {
                        proof {
                            space_is_passed(b, next);
                            space_is_passed(b, past_space(b, next) + 1);
                        }
                        let k = past_space(b, next);
                        if next <= at || k >= b.len() {
                            Err("unterminated object"@)
                        } else if b[k] == 125 {
                            Ok((Json::Object(got.push((key, value))), k + 1))
                        } else if b[k] != 44 {
                            Err(at_offset("expected ',' or '}'"@, k))
                        } else {
                            object_from(b, past_space(b, k + 1), got.push((key, value)))
                        }
                    },
                }
            }
        },
    }
}

/// The array whose opening bracket is at position `i`.
pub open spec fn array_at(b: Seq<u8>, i: int) -> Parsed<Json<Seq<char>>> {
    let inside = past_space(b, i + 1);
    if inside < b.len() && b[inside] == 93 {
        Ok((Json::Array(Seq::empty()), inside + 1))
    } else {
        array_from(b, inside, Seq::empty())
    }
}

/// The object whose opening bracket is at position `i`.
pub open spec fn object_at(b: Seq<u8>, i: int) -> Parsed<Json<Seq<char>>> {
    let inside = past_space(b, i + 1);
    if inside < b.len() && b[inside] == 125 {
        Ok((Json::Object(Seq::empty()), inside + 1))
    } else {
        object_from(b, inside, Seq::empty())
    }
}

/// The value that a text holds. It may stand behind white space.
pub open spec fn json_parsed(b: Seq<u8>) -> Result<Json<Seq<char>>, Seq<char>> {
    let i = past_space(b, 0);
    if i >= b.len() {
        Err("empty JSON input"@)
    } else {
        match value_at(b, i) {
            Ok((value, _)) => Ok(value),
            Err(e) => Err(e),
        }
    }
}

/// A string ends behind where it starts, and not past the end.
pub proof fn string_ends_behind(b: Seq<u8>, j: int, got: Seq<char>)
    ensures
        string_from(b, j, got) matches Ok((_, next)) ==> j < next <= b.len(),
    decreases b.len() - j,
{
    if 0 <= j < b.len() && b[j] != 34 {
        if b[j] == 92 {
            if j + 1 < b.len() {
                string_ends_behind(b, j + 2, got + unescaped(b[j + 1]));
            }
        } else {
            string_ends_behind(b, j + 1, got.push(b[j] as char));
        }
    }
}

/// Whether a result is what it should be.
pub open spec fn parsed_as(
    r: Result<(JsonValue<String>, usize), String>,
    p: Parsed<Json<Seq<char>>>,
) -> bool {
    match (r, p) {
        (Ok((value, next)), Ok((tree, end))) => value.tree() == tree && next == end,
        (Err(e), Err(text)) => e@ == text,
        _ => false,
    }
}

fn offset_error(message: String, i: usize) -> (r: String)
    ensures
        r@ == at_offset(message@, i as int),
{
    let mut e = message;
    e.push_str(" at offset ");
    push_decimal(&mut e, i as u64);
    e
}

/// The first position from `i` on that holds no white space.
pub fn json_skip_ws(b: &[u8], i: usize) -> (r: usize)
    ensures
        r == past_space(b@, i as int),
        i <= r,
        i <= b@.len() ==> r <= b@.len(),
{
    let mut j: usize = i;
    while j < b.len() && (b[j] == 32 || b[j] == 9 || b[j] == 13 || b[j] == 10)
        invariant
            i <= j,
            i <= b@.len() ==> j <= b@.len(),
            past_space(b@, i as int) == past_space(b@, j as int),
        decreases b@.len() - j,
    {
        j += 1;
    }
    j
}

fn is_word(b: &[u8], i: usize, word: &str) -> (r: bool)
    requires
        i <= b@.len(),
        vstd::utf8::is_ascii_chars(word@),
    ensures
        r <==> i + word@.len() <= b@.len() && (forall|k: int|
            0 <= k < word@.len() ==> b@[i + k] == #[trigger] word@[k] as u8),
{
    let w = word.as_bytes();
    proof {
        vstd::utf8::is_ascii_chars_encode_utf8(word@);
    }
    let n: usize = b.len();
    if n - i < w.len() {
        return false;
    }
    let mut k: usize = 0;
    while k < w.len()
        invariant
            i + w@.len() <= b@.len() == n,
            k <= w@.len() == word@.len(),
            forall|m: int| 0 <= m < w@.len() ==> w@[m] == #[trigger] word@[m] as u8,
            forall|m: int| 0 <= m < k ==> b@[i + m] == #[trigger] word@[m] as u8,
        decreases w@.len() - k,
    {
        if b[i + k] != w[k] {
            assert(b@[i + k] != word@[k as int] as u8);
            return false;
        }
        k += 1;
    }
    true
}

fn word_error(word: &str, i: usize) -> (r: String)
    ensures
        r@ == at_offset("expected '"@ + word@ + "'"@, i as int),
{
    let mut e = "expected '".to_owned();
    e.push_str(word);
    e.push_str("'");
    offset_error(e, i)
}

/// The value at position `i`, and the position behind it.
pub fn json_parse_value(b: &[u8], i: usize) -> (r: Result<(JsonValue<String>, usize), String>)
    ensures
        parsed_as(r, value_at(b@, i as int)),
        r matches Ok((_, next)) ==> i < next <= b@.len(),
    decreases b@.len() - i, 1int,
{
    if i >= b.len() {
        return Err("unexpected end of input".to_owned());
    }
    let c = b[i];
    if c == 34 {
        match json_parse_string(b, i) {
            Ok((s, next)) => Ok((JsonValue::Str(s), next)),
            Err(e) => Err(e),
        }
    } else if c == 123 {
        json_parse_object(b, i)
    } else if c == 91 {
        json_parse_array(b, i)
    } else if c == 110 {
        proof {
            reveal_strlit("null");
        }
        if is_word(b, i, "null") {
            Ok((JsonValue::Null, i + 4))
        } else {
            Err(word_error("null", i))
        }
    } else if c == 116 {
        proof {
            reveal_strlit("true");
        }
        if is_word(b, i, "true") {
            Ok((JsonValue::Bool(true), i + 4))
        } else {
            Err(word_error("true", i))
        }
    } else if c == 102 {
        proof {
            reveal_strlit("false");
        }
        if is_word(b, i, "false") {
            Ok((JsonValue::Bool(false), i + 5))
        } else {
            Err(word_error("false", i))
        }
    } else if (48 <= c && c <= 57) || c == 45 {
        json_parse_number(b, i)
    } else {
        let mut e = "unexpected character '".to_owned();
        e.push(c as char);
        e.push('\'');
        Err(offset_error(e, i))
    }
}

/// The string at position `i`, and the position behind it.
pub fn json_parse_string(b: &[u8], i: usize) -> (r: Result<(String, usize), String>)
    ensures
        match (r, string_at(b@, i as int)) {
            (Ok((s, next)), Ok((text, end))) => s@ == text && next == end && i < next <= b@.len(),
            (Err(e), Err(text)) => e@ == text,
            _ => false,
        },
{
    if i >= b.len() {
        return Err("unexpected end of input".to_owned());
    }
    if b[i] != 34 {
        return Err(offset_error("expected '\"'".to_owned(), i));
    }
    let mut j: usize = i + 1;
    let mut s = String::new();
    while j < b.len() && b[j] != 34
        invariant
            i < j <= b@.len(),
            string_at(b@, i as int) == string_from(b@, j as int, s@),
        decreases b@.len() - j,
    {
        let ghost before = s@;
        if b[j] == 92 {
            if j + 1 >= b.len() {
                return Err("unterminated string escape".to_owned());
            }
            let c = b[j + 1];
            if c == 34 {
                s.push('"');
            } else if c == 92 {
                s.push('\\');
            } else if c == 47 {
                s.push('/');
            } else if c == 110 {
                s.push('\n');
            } else if c == 114 {
                s.push('\r');
            } else if c == 116 {
                s.push('\t');
            } else {
                s.push('\\');
                s.push(c as char);
            }
            assert(s@ =~= before + unescaped(c));
            j += 2;
        } else {
            s.push(b[j] as char);
            j += 1;
        }
    }
    if j >= b.len() {
        return Err("unterminated string".to_owned());
    }
    Ok((s, j + 1))
}

fn skip_digits(t: &[u8], i: usize) -> (r: usize)
    ensures
        r == digits_end(t@, i as int),
        i <= r,
        i <= t@.len() ==> r <= t@.len(),
{
    let mut j: usize = i;
    while j < t.len() && 48 <= t[j] && t[j] <= 57
        invariant
            i <= j,
            i <= t@.len() ==> j <= t@.len(),
            digits_end(t@, i as int) == digits_end(t@, j as int),
        decreases t@.len() - j,
    {
        j += 1;
    }
    j
}

fn spells_number(t: &[u8]) -> (r: bool)
    ensures
        r == is_number(t@),
{
    let n: usize = t.len();
    let start: usize = if n > 0 && (t[0] == 43 || t[0] == 45) {
        1
    } else {
        0
    };
    let point: usize = skip_digits(t, start);
    let pointed = point < n && t[point] == 46;
    let end: usize = if pointed {
        skip_digits(t, point + 1)
    } else {
        point
    };
    let digits: usize = if pointed {
        end - start - 1
    } else {
        end - start
    };
    if digits == 0 {
        return false;
    }
    if end == n {
        return true;
    }
    if t[end] != 101 && t[end] != 69 {
        return false;
    }
    let power: usize = if end + 1 < n && (t[end + 1] == 43 || t[end + 1] == 45) {
        end + 2
    } else {
        end + 1
    };
    let last: usize = skip_digits(t, power);
    last > power && last == n
}

fn chars_of(t: &[u8]) -> (r: String)
    ensures
        r@ == byte_chars(t@),
{
    let mut s = String::new();
    let mut i: usize = 0;
    while i < t.len()
        invariant
            i <= t@.len(),
            s@ == byte_chars(t@).take(i as int),
        decreases t@.len() - i,
    {
        s.push(t[i] as char);
        i += 1;
        assert(s@ =~= byte_chars(t@).take(i as int));
    }
    assert(s@ =~= byte_chars(t@));
    s
}

/// The number at position `i`, and the position behind it.
pub fn json_parse_number(b: &[u8], i: usize) -> (r: Result<(JsonValue<String>, usize), String>)
    requires
        i < b@.len(),
    ensures
        parsed_as(r, number_at(b@, i as int)),
        r matches Ok((_, next)) ==> i < next <= b@.len(),
{
    let mut j: usize = i;
    while j < b.len() && ((48 <= b[j] && b[j] <= 57) || b[j] == 46 || b[j] == 45 || b[j] == 101
        || b[j] == 69 || b[j] == 43)
        invariant
            i <= j <= b@.len(),
            number_end(b@, i as int) == number_end(b@, j as int),
        decreases b@.len() - j,
    {
        j += 1;
    }
    let token = vstd::slice::slice_subrange(b, i, j);
    if spells_number(token) {
        assert(token@.len() > 0);
        Ok((JsonValue::Num(chars_of(token)), j))
    } else {
        let mut e = "invalid number '".to_owned();
        e.push_str(chars_of(token).as_str());
        e.push_str("'");
        Err(offset_error(e, i))
    }
}

/// The array whose opening bracket is at position `i`, and the position behind
/// it.
pub fn json_parse_array(b: &[u8], i: usize) -> (r: Result<(JsonValue<String>, usize), String>)
    requires
        i < b@.len(),
    ensures
        parsed_as(r, array_at(b@, i as int)),
        r matches Ok((_, next)) ==> i < next <= b@.len(),
    decreases b@.len() - i, 0int,
{
    let n: usize = b.len();
    let mut j: usize = json_skip_ws(b, i + 1);
    let mut items: Vec<JsonValue<String>> = Vec::new();
    assert(trees(items@) =~= Seq::empty());
    if j < n && b[j] == 93 {
        proof {
            lemma_array_tree(items);
        }
        return Ok((JsonValue::Array(items), j + 1));
    }
    loop
        invariant
            i < j <= b@.len() == n,
            array_at(b@, i as int) == array_from(b@, j as int, trees(items@)),
        decreases b@.len() - j,
    {
        let (value, next) = match json_parse_value(b, j) {
            Ok(p) => p,
            Err(e) => {
                return Err(e);
            },
        };
        let ghost before = trees(items@);
        items.push(value);
        assert(trees(items@) =~= before.push(value.tree()));
        let k: usize = json_skip_ws(b, next);
        if k >= n {
            return Err("unterminated array".to_owned());
        }
        if b[k] == 93 {
            proof {
                lemma_array_tree(items);
            }
            return Ok((JsonValue::Array(items), k + 1));
        }
        if b[k] != 44 {
            return Err(offset_error("expected ',' or ']'".to_owned(), k));
        }
        j = json_skip_ws(b, k + 1);
    }
}

/// The object whose opening bracket is at position `i`, and the position behind
/// it.
pub fn json_parse_object(b: &[u8], i: usize) -> (r: Result<(JsonValue<String>, usize), String>)
    requires
        i < b@.len(),
    ensures
        parsed_as(r, object_at(b@, i as int)),
        r matches Ok((_, next)) ==> i < next <= b@.len(),
    decreases b@.len() - i, 0int,
{
    let n: usize = b.len();
    let mut j: usize = json_skip_ws(b, i + 1);
    let mut pairs: Vec<(String, JsonValue<String>)> = Vec::new();
    assert(pair_trees(pairs@) =~= Seq::empty());
    if j < n && b[j] == 125 {
        proof {
            lemma_object_tree(pairs);
        }
        return Ok((JsonValue::Object(pairs), j + 1));
    }
    loop
        invariant
            i < j <= b@.len() == n,
            object_at(b@, i as int) == object_from(b@, j as int, pair_trees(pairs@)),
        decreases b@.len() - j,
    {
        let (key, behind) = match json_parse_string(b, j) {
            Ok(p) => p,
            Err(e) => {
                return Err(e);
            },
        };
        let colon: usize = json_skip_ws(b, behind);
        if colon >= n || b[colon] != 58 {
            let mut e = "expected ':' after key '".to_owned();
            e.push_str(key.as_str());
            e.push_str("'");
            return Err(offset_error(e, colon));
        }
        let at: usize = json_skip_ws(b, colon + 1);
        let (value, next) = match json_parse_value(b, at) {
            Ok(p) => p,
            Err(e) => {
                return Err(e);
            },
        };
        let ghost before = pair_trees(pairs@);
        let ghost pair = (key@, value.tree());
        pairs.push((key, value));
        assert(pair_trees(pairs@) =~= before.push(pair));
        let k: usize = json_skip_ws(b, next);
        if k >= n {
            return Err("unterminated object".to_owned());
        }
        if b[k] == 125 {
            proof {
                lemma_object_tree(pairs);
            }
            return Ok((JsonValue::Object(pairs), k + 1));
        }
        if b[k] != 44 {
            return Err(offset_error("expected ',' or '}'".to_owned(), k));
        }
        j = json_skip_ws(b, k + 1);
    }
}

/// The value that a text holds, its numbers as text.
pub fn json_parse(s: &str) -> (r: Result<JsonValue<String>, String>)
    ensures
        match (r, json_parsed(encode_utf8(s@))) {
            (Ok(value), Ok(tree)) => value.tree() == tree,
            (Err(e), Err(text)) => e@ == text,
            _ => false,
        },
{
    let b = s.as_bytes();
    let i: usize = json_skip_ws(b, 0);
    if i >= b.len() {
        return Err("empty JSON input".to_owned());
    }
    match json_parse_value(b, i) {
        Ok((value, _)) => Ok(value),
        Err(e) => Err(e),
    }
}

} // verus!
