//! Language codes and their shortest standard form.
//!
//! Containers name languages by ISO 639-2 codes, bibliographic ("chi", "fre")
//! or terminological ("zho", "fra"), or by BCP 47 tags ("zh-Hans"). The
//! shortest form has the two letters of ISO 639-1 where there are any.
use vstd::prelude::*;

verus! {

/// The lower-case form of an ASCII letter; other characters stay.
pub open spec fn ascii_lower(c: char) -> char {
    if 'A' <= c && c <= 'Z' {
        (c as u8 + 32) as char
    } else {
        c
    }
}

/// The lower-case form of a text's ASCII letters.
pub open spec fn lowered(text: Seq<char>) -> Seq<char> {
    Seq::new(text.len(), |i: int| ascii_lower(text[i]))
}

/// The ISO 639-1 letters of an ISO 639-2 code, bibliographic or terminological.
pub open spec fn two_letters(a: char, b: char, c: char) -> Option<(char, char)> {
    match a {
        'a' => match (b, c) {
            ('a', 'r') => Some(('a', 'a')),
            ('b', 'k') => Some(('a', 'b')),
            ('f', 'r') => Some(('a', 'f')),
            ('k', 'a') => Some(('a', 'k')),
            ('l', 'b') => Some(('s', 'q')),
            ('m', 'h') => Some(('a', 'm')),
            ('r', 'a') => Some(('a', 'r')),
            ('r', 'g') => Some(('a', 'n')),
            ('r', 'm') => Some(('h', 'y')),
            ('s', 'm') => Some(('a', 's')),
            ('v', 'a') => Some(('a', 'v')),
            ('v', 'e') => Some(('a', 'e')),
            ('y', 'm') => Some(('a', 'y')),
            ('z', 'e') => Some(('a', 'z')),
            _ => None,
        },
        'b' => match (b, c) {
            ('a', 'k') => Some(('b', 'a')),
            ('a', 'm') => Some(('b', 'm')),
            ('a', 'q') => Some(('e', 'u')),
            ('e', 'l') => Some(('b', 'e')),
            ('e', 'n') => Some(('b', 'n')),
            ('i', 'h') => Some(('b', 'h')),
            ('i', 's') => Some(('b', 'i')),
            ('o', 'd') => Some(('b', 'o')),
            ('o', 's') => Some(('b', 's')),
            ('r', 'e') => Some(('b', 'r')),
            ('u', 'l') => Some(('b', 'g')),
            ('u', 'r') => Some(('m', 'y')),
            _ => None,
        },
        'c' => match (b, c) {
            ('a', 't') => Some(('c', 'a')),
            ('e', 's') | ('z', 'e') => Some(('c', 's')),
            ('h', 'a') => Some(('c', 'h')),
            ('h', 'e') => Some(('c', 'e')),
            ('h', 'i') => Some(('z', 'h')),
            ('h', 'u') => Some(('c', 'u')),
            ('h', 'v') => Some(('c', 'v')),
            ('o', 'r') => Some(('k', 'w')),
            ('o', 's') => Some(('c', 'o')),
            ('r', 'e') => Some(('c', 'r')),
            ('y', 'm') => Some(('c', 'y')),
            _ => None,
        },
        'd' => match (b, c) {
            ('a', 'n') => Some(('d', 'a')),
            ('e', 'u') => Some(('d', 'e')),
            ('i', 'v') => Some(('d', 'v')),
            ('u', 't') => Some(('n', 'l')),
            ('z', 'o') => Some(('d', 'z')),
            _ => None,
        },
        'e' => match (b, c) {
            ('l', 'l') => Some(('e', 'l')),
            ('n', 'g') => Some(('e', 'n')),
            ('p', 'o') => Some(('e', 'o')),
            ('s', 't') => Some(('e', 't')),
            ('u', 's') => Some(('e', 'u')),
            ('w', 'e') => Some(('e', 'e')),
            _ => None,
        },
        'f' => match (b, c) {
            ('a', 'o') => Some(('f', 'o')),
            ('a', 's') => Some(('f', 'a')),
            ('i', 'j') => Some(('f', 'j')),
            ('i', 'n') => Some(('f', 'i')),
            ('r', 'a') | ('r', 'e') => Some(('f', 'r')),
            ('r', 'y') => Some(('f', 'y')),
            ('u', 'l') => Some(('f', 'f')),
            _ => None,
        },
        'g' => match (b, c) {
            ('e', 'o') => Some(('k', 'a')),
            ('e', 'r') => Some(('d', 'e')),
            ('l', 'a') => Some(('g', 'd')),
            ('l', 'e') => Some(('g', 'a')),
            ('l', 'g') => Some(('g', 'l')),
            ('l', 'v') => Some(('g', 'v')),
            ('r', 'e') => Some(('e', 'l')),
            ('r', 'n') => Some(('g', 'n')),
            ('u', 'j') => Some(('g', 'u')),
            _ => None,
        },
        'h' => match (b, c) {
            ('a', 't') => Some(('h', 't')),
            ('a', 'u') => Some(('h', 'a')),
            ('b', 's') => Some(('s', 'h')),
            ('e', 'b') => Some(('h', 'e')),
            ('e', 'r') => Some(('h', 'z')),
            ('i', 'n') => Some(('h', 'i')),
            ('m', 'o') => Some(('h', 'o')),
            ('r', 'v') => Some(('h', 'r')),
            ('u', 'n') => Some(('h', 'u')),
            ('y', 'e') => Some(('h', 'y')),
            _ => None,
        },
        'i' => match (b, c) {
            ('b', 'o') => Some(('i', 'g')),
            ('c', 'e') | ('s', 'l') => Some(('i', 's')),
            ('d', 'o') => Some(('i', 'o')),
            ('i', 'i') => Some(('i', 'i')),
            ('k', 'u') => Some(('i', 'u')),
            ('l', 'e') => Some(('i', 'e')),
            ('n', 'a') => Some(('i', 'a')),
            ('n', 'd') => Some(('i', 'd')),
            ('p', 'k') => Some(('i', 'k')),
            ('t', 'a') => Some(('i', 't')),
            _ => None,
        },
        'j' => match (b, c) {
            ('a', 'v') => Some(('j', 'v')),
            ('p', 'n') => Some(('j', 'a')),
            _ => None,
        },
        'k' => match (b, c) {
            ('a', 'l') => Some(('k', 'l')),
            ('a', 'n') => Some(('k', 'n')),
            ('a', 's') => Some(('k', 's')),
            ('a', 't') => Some(('k', 'a')),
            ('a', 'u') => Some(('k', 'r')),
            ('a', 'z') => Some(('k', 'k')),
            ('h', 'm') => Some(('k', 'm')),
            ('i', 'k') => Some(('k', 'i')),
            ('i', 'n') => Some(('r', 'w')),
            ('i', 'r') => Some(('k', 'y')),
            ('o', 'm') => Some(('k', 'v')),
            ('o', 'n') => Some(('k', 'g')),
            ('o', 'r') => Some(('k', 'o')),
            ('u', 'a') => Some(('k', 'j')),
            ('u', 'r') => Some(('k', 'u')),
            _ => None,
        },
        'l' => match (b, c) {
            ('a', 'o') => Some(('l', 'o')),
            ('a', 't') => Some(('l', 'a')),
            ('a', 'v') => Some(('l', 'v')),
            ('i', 'm') => Some(('l', 'i')),
            ('i', 'n') => Some(('l', 'n')),
            ('i', 't') => Some(('l', 't')),
            ('t', 'z') => Some(('l', 'b')),
            ('u', 'b') => Some(('l', 'u')),
            ('u', 'g') => Some(('l', 'g')),
            _ => None,
        },
        'm' => match (b, c) {
            ('a', 'c') | ('k', 'd') => Some(('m', 'k')),
            ('a', 'h') => Some(('m', 'h')),
            ('a', 'l') => Some(('m', 'l')),
            ('a', 'o') | ('r', 'i') => Some(('m', 'i')),
            ('a', 'r') => Some(('m', 'r')),
            ('a', 'y') | ('s', 'a') => Some(('m', 's')),
            ('l', 'g') => Some(('m', 'g')),
            ('l', 't') => Some(('m', 't')),
            ('o', 'n') => Some(('m', 'n')),
            ('y', 'a') => Some(('m', 'y')),
            _ => None,
        },
        'n' => match (b, c) {
            ('a', 'u') => Some(('n', 'a')),
            ('a', 'v') => Some(('n', 'v')),
            ('b', 'l') => Some(('n', 'r')),
            ('d', 'e') => Some(('n', 'd')),
            ('d', 'o') => Some(('n', 'g')),
            ('e', 'p') => Some(('n', 'e')),
            ('l', 'd') => Some(('n', 'l')),
            ('n', 'o') => Some(('n', 'n')),
            ('o', 'b') => Some(('n', 'b')),
            ('o', 'r') => Some(('n', 'o')),
            ('y', 'a') => Some(('n', 'y')),
            _ => None,
        },
        'o' => match (b, c) {
            ('c', 'i') => Some(('o', 'c')),
            ('j', 'i') => Some(('o', 'j')),
            ('r', 'i') => Some(('o', 'r')),
            ('r', 'm') => Some(('o', 'm')),
            ('s', 's') => Some(('o', 's')),
            _ => None,
        },
        'p' => match (b, c) {
            ('a', 'n') => Some(('p', 'a')),
            ('e', 'r') => Some(('f', 'a')),
            ('l', 'i') => Some(('p', 'i')),
            ('o', 'l') => Some(('p', 'l')),
            ('o', 'r') => Some(('p', 't')),
            ('u', 's') => Some(('p', 's')),
            _ => None,
        },
        'q' => match (b, c) {
            ('u', 'e') => Some(('q', 'u')),
            _ => None,
        },
        'r' => match (b, c) {
            ('o', 'h') => Some(('r', 'm')),
            ('o', 'n') | ('u', 'm') => Some(('r', 'o')),
            ('u', 'n') => Some(('r', 'n')),
            ('u', 's') => Some(('r', 'u')),
            _ => None,
        },
        's' => match (b, c) {
            ('a', 'g') => Some(('s', 'g')),
            ('a', 'n') => Some(('s', 'a')),
            ('i', 'n') => Some(('s', 'i')),
            ('l', 'k') | ('l', 'o') => Some(('s', 'k')),
            ('l', 'v') => Some(('s', 'l')),
            ('m', 'e') => Some(('s', 'e')),
            ('m', 'o') => Some(('s', 'm')),
            ('n', 'a') => Some(('s', 'n')),
            ('n', 'd') => Some(('s', 'd')),
            ('o', 'm') => Some(('s', 'o')),
            ('o', 't') => Some(('s', 't')),
            ('p', 'a') => Some(('e', 's')),
            ('q', 'i') => Some(('s', 'q')),
            ('r', 'd') => Some(('s', 'c')),
            ('r', 'p') => Some(('s', 'r')),
            ('s', 'w') => Some(('s', 's')),
            ('u', 'n') => Some(('s', 'u')),
            ('w', 'a') => Some(('s', 'w')),
            ('w', 'e') => Some(('s', 'v')),
            _ => None,
        },
        't' => match (b, c) {
            ('a', 'h') => Some(('t', 'y')),
            ('a', 'm') => Some(('t', 'a')),
            ('a', 't') => Some(('t', 't')),
            ('e', 'l') => Some(('t', 'e')),
            ('g', 'k') => Some(('t', 'g')),
            ('g', 'l') => Some(('t', 'l')),
            ('h', 'a') => Some(('t', 'h')),
            ('i', 'b') => Some(('b', 'o')),
            ('i', 'r') => Some(('t', 'i')),
            ('o', 'n') => Some(('t', 'o')),
            ('s', 'n') => Some(('t', 'n')),
            ('s', 'o') => Some(('t', 's')),
            ('u', 'k') => Some(('t', 'k')),
            ('u', 'r') => Some(('t', 'r')),
            ('w', 'i') => Some(('t', 'w')),
            _ => None,
        },
        'u' => match (b, c) {
            ('i', 'g') => Some(('u', 'g')),
            ('k', 'r') => Some(('u', 'k')),
            ('r', 'd') => Some(('u', 'r')),
            ('z', 'b') => Some(('u', 'z')),
            _ => None,
        },
        'v' => match (b, c) {
            ('e', 'n') => Some(('v', 'e')),
            ('i', 'e') => Some(('v', 'i')),
            ('o', 'l') => Some(('v', 'o')),
            _ => None,
        },
        'w' => match (b, c) {
            ('e', 'l') => Some(('c', 'y')),
            ('l', 'n') => Some(('w', 'a')),
            ('o', 'l') => Some(('w', 'o')),
            _ => None,
        },
        'x' => match (b, c) {
            ('h', 'o') => Some(('x', 'h')),
            _ => None,
        },
        'y' => match (b, c) {
            ('i', 'd') => Some(('y', 'i')),
            ('o', 'r') => Some(('y', 'o')),
            _ => None,
        },
        'z' => match (b, c) {
            ('h', 'a') => Some(('z', 'a')),
            ('h', 'o') => Some(('z', 'h')),
            ('u', 'l') => Some(('z', 'u')),
            _ => None,
        },
        _ => None,
    }
}

/// The shortest form of a primary language subtag.
pub open spec fn primary_normalized(code: Seq<char>) -> Seq<char> {
    let lower = lowered(code);
    if lower.len() == 3 {
        match two_letters(lower[0], lower[1], lower[2]) {
            Some((x, y)) => seq![x, y],
            None => lower,
        }
    } else {
        lower
    }
}

/// The number of characters in front of the first dash, if there is one.
pub open spec fn before_dash(code: Seq<char>) -> nat
    decreases code.len(),
{
    if code.len() == 0 || code[0] == '-' {
        0
    } else {
        1 + before_dash(code.skip(1))
    }
}

/// The shortest form of a language code or tag: that of its primary subtag,
/// with the subtags behind it unchanged.
pub open spec fn language_normalized(code: Seq<char>) -> Seq<char> {
    let n = before_dash(code) as int;
    primary_normalized(code.take(n)) + code.skip(n)
}

fn iso639_2_to_1(a: char, b: char, c: char) -> (r: Option<(char, char)>)
    ensures
        r == two_letters(a, b, c),
{
    match a {
        'a' => match (b, c) {
            ('a', 'r') => Some(('a', 'a')),
            ('b', 'k') => Some(('a', 'b')),
            ('f', 'r') => Some(('a', 'f')),
            ('k', 'a') => Some(('a', 'k')),
            ('l', 'b') => Some(('s', 'q')),
            ('m', 'h') => Some(('a', 'm')),
            ('r', 'a') => Some(('a', 'r')),
            ('r', 'g') => Some(('a', 'n')),
            ('r', 'm') => Some(('h', 'y')),
            ('s', 'm') => Some(('a', 's')),
            ('v', 'a') => Some(('a', 'v')),
            ('v', 'e') => Some(('a', 'e')),
            ('y', 'm') => Some(('a', 'y')),
            ('z', 'e') => Some(('a', 'z')),
            _ => None,
        },
        'b' => match (b, c) {
            ('a', 'k') => Some(('b', 'a')),
            ('a', 'm') => Some(('b', 'm')),
            ('a', 'q') => Some(('e', 'u')),
            ('e', 'l') => Some(('b', 'e')),
            ('e', 'n') => Some(('b', 'n')),
            ('i', 'h') => Some(('b', 'h')),
            ('i', 's') => Some(('b', 'i')),
            ('o', 'd') => Some(('b', 'o')),
            ('o', 's') => Some(('b', 's')),
            ('r', 'e') => Some(('b', 'r')),
            ('u', 'l') => Some(('b', 'g')),
            ('u', 'r') => Some(('m', 'y')),
            _ => None,
        },
        'c' => match (b, c) {
            ('a', 't') => Some(('c', 'a')),
            ('e', 's') | ('z', 'e') => Some(('c', 's')),
            ('h', 'a') => Some(('c', 'h')),
            ('h', 'e') => Some(('c', 'e')),
            ('h', 'i') => Some(('z', 'h')),
            ('h', 'u') => Some(('c', 'u')),
            ('h', 'v') => Some(('c', 'v')),
            ('o', 'r') => Some(('k', 'w')),
            ('o', 's') => Some(('c', 'o')),
            ('r', 'e') => Some(('c', 'r')),
            ('y', 'm') => Some(('c', 'y')),
            _ => None,
        },
        'd' => match (b, c) {
            ('a', 'n') => Some(('d', 'a')),
            ('e', 'u') => Some(('d', 'e')),
            ('i', 'v') => Some(('d', 'v')),
            ('u', 't') => Some(('n', 'l')),
            ('z', 'o') => Some(('d', 'z')),
            _ => None,
        },
        'e' => match (b, c) {
            ('l', 'l') => Some(('e', 'l')),
            ('n', 'g') => Some(('e', 'n')),
            ('p', 'o') => Some(('e', 'o')),
            ('s', 't') => Some(('e', 't')),
            ('u', 's') => Some(('e', 'u')),
            ('w', 'e') => Some(('e', 'e')),
            _ => None,
        },
        'f' => match (b, c) {
            ('a', 'o') => Some(('f', 'o')),
            ('a', 's') => Some(('f', 'a')),
            ('i', 'j') => Some(('f', 'j')),
            ('i', 'n') => Some(('f', 'i')),
            ('r', 'a') | ('r', 'e') => Some(('f', 'r')),
            ('r', 'y') => Some(('f', 'y')),
            ('u', 'l') => Some(('f', 'f')),
            _ => None,
        },
        'g' => match (b, c) {
            ('e', 'o') => Some(('k', 'a')),
            ('e', 'r') => Some(('d', 'e')),
            ('l', 'a') => Some(('g', 'd')),
            ('l', 'e') => Some(('g', 'a')),
            ('l', 'g') => Some(('g', 'l')),
            ('l', 'v') => Some(('g', 'v')),
            ('r', 'e') => Some(('e', 'l')),
            ('r', 'n') => Some(('g', 'n')),
            ('u', 'j') => Some(('g', 'u')),
            _ => None,
        },
        'h' => match (b, c) {
            ('a', 't') => Some(('h', 't')),
            ('a', 'u') => Some(('h', 'a')),
            ('b', 's') => Some(('s', 'h')),
            ('e', 'b') => Some(('h', 'e')),
            ('e', 'r') => Some(('h', 'z')),
            ('i', 'n') => Some(('h', 'i')),
            ('m', 'o') => Some(('h', 'o')),
            ('r', 'v') => Some(('h', 'r')),
            ('u', 'n') => Some(('h', 'u')),
            ('y', 'e') => Some(('h', 'y')),
            _ => None,
        },
        'i' => match (b, c) {
            ('b', 'o') => Some(('i', 'g')),
            ('c', 'e') | ('s', 'l') => Some(('i', 's')),
            ('d', 'o') => Some(('i', 'o')),
            ('i', 'i') => Some(('i', 'i')),
            ('k', 'u') => Some(('i', 'u')),
            ('l', 'e') => Some(('i', 'e')),
            ('n', 'a') => Some(('i', 'a')),
            ('n', 'd') => Some(('i', 'd')),
            ('p', 'k') => Some(('i', 'k')),
            ('t', 'a') => Some(('i', 't')),
            _ => None,
        },
        'j' => match (b, c) {
            ('a', 'v') => Some(('j', 'v')),
            ('p', 'n') => Some(('j', 'a')),
            _ => None,
        },
        'k' => match (b, c) {
            ('a', 'l') => Some(('k', 'l')),
            ('a', 'n') => Some(('k', 'n')),
            ('a', 's') => Some(('k', 's')),
            ('a', 't') => Some(('k', 'a')),
            ('a', 'u') => Some(('k', 'r')),
            ('a', 'z') => Some(('k', 'k')),
            ('h', 'm') => Some(('k', 'm')),
            ('i', 'k') => Some(('k', 'i')),
            ('i', 'n') => Some(('r', 'w')),
            ('i', 'r') => Some(('k', 'y')),
            ('o', 'm') => Some(('k', 'v')),
            ('o', 'n') => Some(('k', 'g')),
            ('o', 'r') => Some(('k', 'o')),
            ('u', 'a') => Some(('k', 'j')),
            ('u', 'r') => Some(('k', 'u')),
            _ => None,
        },
        'l' => match (b, c) {
            ('a', 'o') => Some(('l', 'o')),
            ('a', 't') => Some(('l', 'a')),
            ('a', 'v') => Some(('l', 'v')),
            ('i', 'm') => Some(('l', 'i')),
            ('i', 'n') => Some(('l', 'n')),
            ('i', 't') => Some(('l', 't')),
            ('t', 'z') => Some(('l', 'b')),
            ('u', 'b') => Some(('l', 'u')),
            ('u', 'g') => Some(('l', 'g')),
            _ => None,
        },
        'm' => match (b, c) {
            ('a', 'c') | ('k', 'd') => Some(('m', 'k')),
            ('a', 'h') => Some(('m', 'h')),
            ('a', 'l') => Some(('m', 'l')),
            ('a', 'o') | ('r', 'i') => Some(('m', 'i')),
            ('a', 'r') => Some(('m', 'r')),
            ('a', 'y') | ('s', 'a') => Some(('m', 's')),
            ('l', 'g') => Some(('m', 'g')),
            ('l', 't') => Some(('m', 't')),
            ('o', 'n') => Some(('m', 'n')),
            ('y', 'a') => Some(('m', 'y')),
            _ => None,
        },
        'n' => match (b, c) {
            ('a', 'u') => Some(('n', 'a')),
            ('a', 'v') => Some(('n', 'v')),
            ('b', 'l') => Some(('n', 'r')),
            ('d', 'e') => Some(('n', 'd')),
            ('d', 'o') => Some(('n', 'g')),
            ('e', 'p') => Some(('n', 'e')),
            ('l', 'd') => Some(('n', 'l')),
            ('n', 'o') => Some(('n', 'n')),
            ('o', 'b') => Some(('n', 'b')),
            ('o', 'r') => Some(('n', 'o')),
            ('y', 'a') => Some(('n', 'y')),
            _ => None,
        },
        'o' => match (b, c) {
            ('c', 'i') => Some(('o', 'c')),
            ('j', 'i') => Some(('o', 'j')),
            ('r', 'i') => Some(('o', 'r')),
            ('r', 'm') => Some(('o', 'm')),
            ('s', 's') => Some(('o', 's')),
            _ => None,
        },
        'p' => match (b, c) {
            ('a', 'n') => Some(('p', 'a')),
            ('e', 'r') => Some(('f', 'a')),
            ('l', 'i') => Some(('p', 'i')),
            ('o', 'l') => Some(('p', 'l')),
            ('o', 'r') => Some(('p', 't')),
            ('u', 's') => Some(('p', 's')),
            _ => None,
        },
        'q' => match (b, c) {
            ('u', 'e') => Some(('q', 'u')),
            _ => None,
        },
        'r' => match (b, c) {
            ('o', 'h') => Some(('r', 'm')),
            ('o', 'n') | ('u', 'm') => Some(('r', 'o')),
            ('u', 'n') => Some(('r', 'n')),
            ('u', 's') => Some(('r', 'u')),
            _ => None,
        },
        's' => match (b, c) {
            ('a', 'g') => Some(('s', 'g')),
            ('a', 'n') => Some(('s', 'a')),
            ('i', 'n') => Some(('s', 'i')),
            ('l', 'k') | ('l', 'o') => Some(('s', 'k')),
            ('l', 'v') => Some(('s', 'l')),
            ('m', 'e') => Some(('s', 'e')),
            ('m', 'o') => Some(('s', 'm')),
            ('n', 'a') => Some(('s', 'n')),
            ('n', 'd') => Some(('s', 'd')),
            ('o', 'm') => Some(('s', 'o')),
            ('o', 't') => Some(('s', 't')),
            ('p', 'a') => Some(('e', 's')),
            ('q', 'i') => Some(('s', 'q')),
            ('r', 'd') => Some(('s', 'c')),
            ('r', 'p') => Some(('s', 'r')),
            ('s', 'w') => Some(('s', 's')),
            ('u', 'n') => Some(('s', 'u')),
            ('w', 'a') => Some(('s', 'w')),
            ('w', 'e') => Some(('s', 'v')),
            _ => None,
        },
        't' => match (b, c) {
            ('a', 'h') => Some(('t', 'y')),
            ('a', 'm') => Some(('t', 'a')),
            ('a', 't') => Some(('t', 't')),
            ('e', 'l') => Some(('t', 'e')),
            ('g', 'k') => Some(('t', 'g')),
            ('g', 'l') => Some(('t', 'l')),
            ('h', 'a') => Some(('t', 'h')),
            ('i', 'b') => Some(('b', 'o')),
            ('i', 'r') => Some(('t', 'i')),
            ('o', 'n') => Some(('t', 'o')),
            ('s', 'n') => Some(('t', 'n')),
            ('s', 'o') => Some(('t', 's')),
            ('u', 'k') => Some(('t', 'k')),
            ('u', 'r') => Some(('t', 'r')),
            ('w', 'i') => Some(('t', 'w')),
            _ => None,
        },
        'u' => match (b, c) {
            ('i', 'g') => Some(('u', 'g')),
            ('k', 'r') => Some(('u', 'k')),
            ('r', 'd') => Some(('u', 'r')),
            ('z', 'b') => Some(('u', 'z')),
            _ => None,
        },
        'v' => match (b, c) {
            ('e', 'n') => Some(('v', 'e')),
            ('i', 'e') => Some(('v', 'i')),
            ('o', 'l') => Some(('v', 'o')),
            _ => None,
        },
        'w' => match (b, c) {
            ('e', 'l') => Some(('c', 'y')),
            ('l', 'n') => Some(('w', 'a')),
            ('o', 'l') => Some(('w', 'o')),
            _ => None,
        },
        'x' => match (b, c) {
            ('h', 'o') => Some(('x', 'h')),
            _ => None,
        },
        'y' => match (b, c) {
            ('i', 'd') => Some(('y', 'i')),
            ('o', 'r') => Some(('y', 'o')),
            _ => None,
        },
        'z' => match (b, c) {
            ('h', 'a') => Some(('z', 'a')),
            ('h', 'o') => Some(('z', 'h')),
            ('u', 'l') => Some(('z', 'u')),
            _ => None,
        },
        _ => None,
    }
}

/// The lower-case form of an ASCII letter; other characters stay.
pub fn lower_of(c: char) -> (r: char)
    ensures
        r == ascii_lower(c),
{
    if 'A' <= c && c <= 'Z' {
        (c as u8 + 32) as char
    } else {
        c
    }
}

/// Gives a primary language subtag its shortest form.
fn normalize_primary(code: &str) -> (r: String)
    ensures
        r@ == primary_normalized(code@),
{
    let n: usize = code.unicode_len();
    if n == 3 {
        let a = lower_of(code.get_char(0));
        let b = lower_of(code.get_char(1));
        let c = lower_of(code.get_char(2));
        if let Some((x, y)) = iso639_2_to_1(a, b, c) {
            let mut two = String::new();
            two.push(x);
            two.push(y);
            assert(two@ =~= seq![x, y]);
            return two;
        }
    }
    let mut lower = String::new();
    let mut i: usize = 0;
    while i < n
        invariant
            i <= n == code@.len(),
            lower@ == lowered(code@).take(i as int),
        decreases n - i,
    {
        lower.push(lower_of(code.get_char(i)));
        i += 1;
        assert(lower@ =~= lowered(code@).take(i as int));
    }
    assert(lower@ =~= lowered(code@));
    lower
}

/// Gives a language code or tag its shortest form.
///
/// Three-letter codes become two letters where ISO 639-1 has them. Only the
/// primary subtag of a tag is changed. Codes without a shorter form stay.
pub fn normalize_language(code: &str) -> (r: String)
    ensures
        r@ == language_normalized(code@),
{
    let n: usize = code.unicode_len();
    let mut dash: usize = 0;
    assert(code@.skip(0) =~= code@);
    while dash < n && code.get_char(dash) != '-'
        invariant
            dash <= n == code@.len(),
            before_dash(code@) == dash + before_dash(code@.skip(dash as int)),
        decreases n - dash,
    {
        assert(code@.skip(dash as int).skip(1) =~= code@.skip(dash + 1));
        dash += 1;
    }
    let primary = code.substring_char(0, dash);
    let rest = code.substring_char(dash, n);
    let mut r = normalize_primary(primary);
    r.push_str(rest);
    assert(primary@ =~= code@.take(dash as int));
    assert(rest@ =~= code@.skip(dash as int));
    r
}

proof fn lemma_two_letters(a: char, b: char, c: char)
    ensures
        two_letters(a, b, c) matches Some((x, y)) ==> 'a' <= x && x <= 'z' && 'a' <= y && y <= 'z',
{
}

pub(crate) proof fn lemma_before_dash(head: Seq<char>, tail: Seq<char>)
    requires
        forall|i: int| 0 <= i < head.len() ==> head[i] != '-',
        tail.len() > 0 ==> tail[0] == '-',
    ensures
        before_dash(head + tail) == head.len(),
    decreases head.len(),
{
    if head.len() == 0 {
        assert(head + tail =~= tail);
    } else {
        assert((head + tail).skip(1) =~= head.skip(1) + tail);
        lemma_before_dash(head.skip(1), tail);
    }
}

proof fn lemma_dash_found(code: Seq<char>)
    ensures
        before_dash(code) <= code.len(),
        forall|i: int| 0 <= i < before_dash(code) ==> code[i] != '-',
        before_dash(code) < code.len() ==> code[before_dash(code) as int] == '-',
    decreases code.len(),
{
    if code.len() > 0 && code[0] != '-' {
        lemma_dash_found(code.skip(1));
        assert forall|i: int| 0 <= i < before_dash(code) implies code[i] != '-' by {
            if i > 0 {
                assert(code[i] == code.skip(1)[i - 1]);
            }
        }
    }
}

/// Normalizing a language code a second time changes nothing.
pub proof fn normalization_is_idempotent(code: Seq<char>)
    ensures
        language_normalized(language_normalized(code)) == language_normalized(code),
{
    let n = before_dash(code) as int;
    lemma_dash_found(code);
    let head = code.take(n);
    let tail = code.skip(n);
    let p = primary_normalized(head);
    let lower = lowered(head);
    if lower.len() == 3 {
        lemma_two_letters(lower[0], lower[1], lower[2]);
    }
    assert(lowered(p) =~= p);
    assert forall|i: int| 0 <= i < p.len() implies p[i] != '-' by {
        if p == lower {
            assert(head[i] == code[i]);
        }
    }
    lemma_before_dash(p, tail);
    assert((p + tail).take(p.len() as int) =~= p);
    assert((p + tail).skip(p.len() as int) =~= tail);
}

/// A code without a shorter form keeps its letters, in lower case; a tag keeps
/// everything behind its primary subtag.
pub proof fn normalization_keeps_the_rest(code: Seq<char>)
    ensures
        before_dash(code) != 3 ==> language_normalized(code) == lowered(
            code.take(before_dash(code) as int),
        ) + code.skip(before_dash(code) as int),
        language_normalized(code).len() <= code.len(),
        ({
            let kept = code.len() - before_dash(code);
            language_normalized(code).skip(language_normalized(code).len() - kept) == code.skip(
                before_dash(code) as int,
            )
        }),
{
    lemma_dash_found(code);
    let n = before_dash(code) as int;
    let p = primary_normalized(code.take(n));
    assert((p + code.skip(n)).skip(p.len() as int) =~= code.skip(n));
}

} // verus!
