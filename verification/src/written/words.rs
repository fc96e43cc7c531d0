//! Numbers, lists and names of languages as they are written in words.
use vstd::prelude::*;
use crate::lang::{language_normalized, lemma_before_dash, lowered, two_letters};
use crate::listing::{comma_parts, ids_of};
use crate::text::{
    decimal, digit_char, digits_value, hex_char, hexadecimal, is_space, parsed_u64, trimmed,
};

verus! {

/// Ten to the power of `n`.
pub open spec fn power10(n: nat) -> nat
    decreases n,
{
    if n == 0 {
        1
    } else {
        10 * power10((n - 1) as nat)
    }
}

/// A digit counts as much as its distance from '0'.
pub proof fn digit_has_its_value(c: char)
    ensures
        digits_value(seq![c]) == if '0' <= c && c <= '9' {
            Some((c as u32 - '0' as u32) as nat)
        } else {
            None
        },
{
    assert(seq![c].drop_last() =~= Seq::empty());
    assert(digits_value(Seq::empty()) == Some(0nat));
}

/// A digit in front of `n` others counts ten to the power of `n` times as much as
/// at the end.
pub proof fn digits_count_by_place(t: Seq<char>, u: Seq<char>)
    ensures
        digits_value(t + u) == match (digits_value(t), digits_value(u)) {
            (Some(a), Some(b)) => Some(a * power10(u.len()) + b),
            _ => None,
        },
    decreases u.len(),
{
    if u.len() == 0 {
        assert(t + u =~= t);
        if digits_value(t) is Some {
            let a = digits_value(t)->0;
            assert(a * 1 == a) by (nonlinear_arith);
        }
    } else {
        assert((t + u).drop_last() =~= t + u.drop_last());
        assert((t + u).last() == u.last());
        digits_count_by_place(t, u.drop_last());
        if digits_value(t) is Some && digits_value(u.drop_last()) is Some {
            let a = digits_value(t)->0;
            let b = digits_value(u.drop_last())->0;
            let p = power10((u.len() - 1) as nat);
            assert((a * p + b) * 10 == a * (10 * p) + b * 10) by (nonlinear_arith);
        }
    }
}

/// A number that is written in decimal has no sign, no zero in front but for 0
/// itself, and spells itself.
pub proof fn decimal_spells_its_number(n: nat)
    ensures
        digits_value(decimal(n)) == Some(n),
        decimal(n).len() > 0,
        forall|i: int|
            0 <= i < decimal(n).len() ==> '0' <= #[trigger] decimal(n)[i] && decimal(n)[i] <= '9',
        n > 0 ==> decimal(n)[0] != '0',
    decreases n,
{
    if n < 10 {
        digit_has_its_value(digit_char(n as int));
    } else {
        decimal_spells_its_number(n / 10);
        assert(decimal(n).drop_last() =~= decimal(n / 10));
    }
}

/// A number that is written in decimal is read back, with or without a plus sign
/// in front; one that is too large is not a number.
pub proof fn decimal_is_read_back(n: nat)
    ensures
        parsed_u64(decimal(n)) == if n < 0x1_0000_0000_0000_0000 {
            Some(n as u64)
        } else {
            None
        },
        parsed_u64(seq!['+'] + decimal(n)) == parsed_u64(decimal(n)),
        parsed_u64(seq!['-'] + decimal(n)) is None,
        parsed_u64(seq!['0'] + decimal(n)) == parsed_u64(decimal(n)),
        parsed_u64(Seq::empty()) is None,
        parsed_u64(seq!['+']) is None,
{
    decimal_spells_its_number(n);
    let d = decimal(n);
    assert((seq!['+'] + d).skip(1) =~= d);
    assert(seq!['+'].skip(1) =~= Seq::empty());
    digits_count_by_place(seq!['-'], d);
    digit_has_its_value('-');
    digits_count_by_place(seq!['0'], d);
    digit_has_its_value('0');
    assert(0 * power10(d.len()) == 0);
}

/// What hexadecimal digits spell.
pub open spec fn hex_value(t: Seq<char>) -> nat
    decreases t.len(),
{
    if t.len() == 0 {
        0
    } else {
        let c = t.last();
        16 * hex_value(t.drop_last()) + if c <= '9' {
            (c as u32 - '0' as u32) as nat
        } else {
            (c as u32 - 'A' as u32 + 10) as nat
        }
    }
}

/// A number that is written in hexadecimal spells itself, with digits and
/// upper-case letters, and as many of them as are asked for.
pub proof fn hexadecimal_spells_its_number(n: nat, width: nat)
    ensures
        hex_value(hexadecimal(n, width)) == n,
        hexadecimal(n, width).len() >= width,
        hexadecimal(n, width).len() >= 1,
        forall|i: int|
            0 <= i < hexadecimal(n, width).len() ==> ({
                let c = #[trigger] hexadecimal(n, width)[i];
                ('0' <= c && c <= '9') || ('A' <= c && c <= 'F')
            }),
        hexadecimal(n, width).len() > width && width > 0 ==> hexadecimal(n, width)[0] != '0',
    decreases n, width,
{
    let t = hexadecimal(n, width);
    if n < 16 && width <= 1 {
        assert(t.drop_last() =~= Seq::empty());
        assert(hex_value(Seq::empty()) == 0);
        assert(t.last() == hex_char(n as int));
    } else {
        let less = if width > 0 {
            (width - 1) as nat
        } else {
            0
        };
        hexadecimal_spells_its_number(n / 16, less);
        assert(t.drop_last() =~= hexadecimal(n / 16, less));
        assert(t.last() == hex_char(n as int % 16));
        assert(16 * (n / 16) + n % 16 == n);
        if t.len() > width && width > 0 && less == 0 {
            lemma_hex_first(n / 16);
        }
    }
}

proof fn lemma_hex_first(n: nat)
    requires
        n > 0,
    ensures
        hexadecimal(n, 0)[0] != '0',
    decreases n,
{
    if n >= 16 {
        lemma_hex_first(n / 16);
        hexadecimal_spells_its_number(n / 16, 0);
    }
}

/// The characters that are white space.
pub proof fn white_space_is_by_list(c: char)
    ensures
        is_space(c) <==> c == '\t' || c == '\n' || c == '\u{0B}' || c == '\u{0C}' || c == '\r' || c
            == ' ' || c == '\u{85}' || c == '\u{A0}' || c == '\u{1680}' || ('\u{2000}' <= c && c
            <= '\u{200A}') || c == '\u{2028}' || c == '\u{2029}' || c == '\u{202F}' || c
            == '\u{205F}' || c == '\u{3000}',
{
}

proof fn lemma_left(front: Seq<char>, t: Seq<char>)
    requires
        forall|i: int| 0 <= i < front.len() ==> is_space(#[trigger] front[i]),
        t.len() > 0 ==> !is_space(t[0]),
    ensures
        crate::text::left_trimmed(front + t) == t,
    decreases front.len(),
{
    if front.len() == 0 {
        assert(front + t =~= t);
    } else {
        assert((front + t)[0] == front[0]);
        assert((front + t).skip(1) =~= front.skip(1) + t);
        assert forall|i: int| 0 <= i < front.skip(1).len() implies is_space(
            #[trigger] front.skip(1)[i],
        ) by {
            assert(front.skip(1)[i] == front[i + 1]);
        }
        lemma_left(front.skip(1), t);
    }
}

proof fn lemma_right(t: Seq<char>, back: Seq<char>)
    requires
        forall|i: int| 0 <= i < back.len() ==> is_space(#[trigger] back[i]),
        t.len() > 0 ==> !is_space(t.last()),
    ensures
        crate::text::right_trimmed(t + back) == t,
    decreases back.len(),
{
    if back.len() == 0 {
        assert(t + back =~= t);
    } else {
        assert((t + back).last() == back.last());
        assert((t + back).drop_last() =~= t + back.drop_last());
        lemma_right(t, back.drop_last());
    }
}

/// White space around a text that neither starts nor ends with any makes no
/// difference.
pub proof fn white_space_around_is_left_out(front: Seq<char>, t: Seq<char>, back: Seq<char>)
    requires
        forall|i: int| 0 <= i < front.len() ==> is_space(#[trigger] front[i]),
        forall|i: int| 0 <= i < back.len() ==> is_space(#[trigger] back[i]),
        t.len() > 0 ==> !is_space(t[0]) && !is_space(t.last()),
    ensures
        trimmed(front + t + back) == t,
{
    if t.len() == 0 {
        assert(front + t + back =~= (front + back) + t);
        assert forall|i: int| 0 <= i < (front + back).len() implies is_space(
            #[trigger] (front + back)[i],
        ) by {
            if i < front.len() {
                assert((front + back)[i] == front[i]);
            } else {
                assert((front + back)[i] == back[i - front.len()]);
            }
        }
        lemma_left(front + back, t);
    } else {
        assert(front + t + back =~= front + (t + back));
        assert((t + back)[0] == t[0]);
        lemma_left(front, t + back);
        lemma_right(t, back);
    }
}

/// Numbers in decimal with a comma between each two, and spaces behind it.
pub open spec fn list_text(ids: Seq<u32>, spaces: Seq<char>) -> Seq<char>
    decreases ids.len(),
{
    if ids.len() == 0 {
        Seq::empty()
    } else if ids.len() == 1 {
        decimal(ids[0] as nat)
    } else {
        list_text(ids.drop_last(), spaces) + seq![','] + spaces + decimal(ids.last() as nat)
    }
}

proof fn lemma_parts(t: Seq<char>, u: Seq<char>)
    requires
        forall|i: int| 0 <= i < u.len() ==> #[trigger] u[i] != ',',
    ensures
        comma_parts(t).len() > 0,
        comma_parts(t + u) == comma_parts(t).drop_last().push(comma_parts(t).last() + u),
    decreases t.len() + u.len(),
{
    if u.len() == 0 {
        assert(t + u =~= t);
        if t.len() > 0 {
            lemma_parts(t.drop_last(), u);
        }
        assert(comma_parts(t).last() + u =~= comma_parts(t).last());
        assert(comma_parts(t) =~= comma_parts(t).drop_last().push(comma_parts(t).last()));
    } else {
        lemma_parts(t, u.drop_last());
        assert((t + u).drop_last() =~= t + u.drop_last());
        assert((t + u).last() == u.last());
        let before = comma_parts(t + u.drop_last());
        assert(before.drop_last() =~= comma_parts(t).drop_last());
        assert(comma_parts(t).last() + u.drop_last() =~= before.last());
        assert(before.last().push(u.last()) =~= comma_parts(t).last() + u);
    }
}

proof fn lemma_one_id(spaces: Seq<char>, id: u32)
    requires
        forall|i: int| 0 <= i < spaces.len() ==> is_space(#[trigger] spaces[i]),
    ensures
        parsed_u64(trimmed(spaces + decimal(id as nat))) == Some(id as u64),
        forall|i: int|
            0 <= i < (spaces + decimal(id as nat)).len() ==> #[trigger] (spaces + decimal(
                id as nat,
            ))[i] != ',',
{
    let d = decimal(id as nat);
    decimal_spells_its_number(id as nat);
    decimal_is_read_back(id as nat);
    assert(!is_space(d[0]) && !is_space(d.last())) by {
        assert('0' <= d[0] && d[0] <= '9');
        assert('0' <= d[d.len() - 1] && d[d.len() - 1] <= '9');
    }
    white_space_around_is_left_out(spaces, d, Seq::empty());
    assert(spaces + d + Seq::<char>::empty() =~= spaces + d);
    assert forall|i: int| 0 <= i < (spaces + d).len() implies #[trigger] (spaces + d)[i] != ',' by {
        if i < spaces.len() {
            assert((spaces + d)[i] == spaces[i]);
        } else {
            assert((spaces + d)[i] == d[i - spaces.len()]);
        }
    }
}

/// A list of track identifiers that is written with commas, and white space behind
/// them, is read back.
pub proof fn written_list_is_read(ids: Seq<u32>, spaces: Seq<char>)
    requires
        ids.len() > 0,
        forall|i: int| 0 <= i < spaces.len() ==> is_space(#[trigger] spaces[i]),
    ensures
        ids_of(comma_parts(list_text(ids, spaces))) == Ok::<Seq<u32>, Seq<char>>(ids),
    decreases ids.len(),
{
    let t = list_text(ids, spaces);
    if ids.len() == 1 {
        let none = Seq::<char>::empty();
        lemma_one_id(none, ids[0]);
        assert(none + decimal(ids[0] as nat) =~= decimal(ids[0] as nat));
        lemma_parts(none, t);
        assert(none + t =~= t);
        let parts = comma_parts(t);
        assert(parts =~= seq![t]);
        assert(parts.drop_last() =~= Seq::empty());
        assert(ids_of(Seq::empty()) == Ok::<Seq<u32>, Seq<char>>(Seq::empty()));
        assert(parts.last() == t);
        assert(ids =~= Seq::<u32>::empty().push(ids[0]));
    } else {
        let init = ids.drop_last();
        let more = spaces + decimal(ids.last() as nat);
        let first = list_text(init, spaces);
        written_list_is_read(init, spaces);
        lemma_one_id(spaces, ids.last());
        let comma = first.push(',');
        assert(t =~= comma + more);
        lemma_parts(comma, more);
        assert(comma.drop_last() =~= first);
        let parts = comma_parts(t);
        assert(comma_parts(comma).drop_last() =~= comma_parts(first));
        assert(parts.drop_last() =~= comma_parts(first));
        assert(Seq::<char>::empty() + more =~= more);
        assert(parts.last() == more);
        assert(ids =~= init.push(ids.last()));
    }
}

/// Whether a code of ISO 639-2, bibliographic or terminological, names the language
/// that two letters of ISO 639-1 name.
pub open spec fn is_long_code(x: char, y: char, code: (char, char, char)) -> bool {
    match x {
        'a' => match y {
            'a' => code == ('a', 'a', 'r'),
            'b' => code == ('a', 'b', 'k'),
            'e' => code == ('a', 'v', 'e'),
            'f' => code == ('a', 'f', 'r'),
            'k' => code == ('a', 'k', 'a'),
            'm' => code == ('a', 'm', 'h'),
            'n' => code == ('a', 'r', 'g'),
            'r' => code == ('a', 'r', 'a'),
            's' => code == ('a', 's', 'm'),
            'v' => code == ('a', 'v', 'a'),
            'y' => code == ('a', 'y', 'm'),
            'z' => code == ('a', 'z', 'e'),
            _ => false,
        },
        'b' => match y {
            'a' => code == ('b', 'a', 'k'),
            'e' => code == ('b', 'e', 'l'),
            'g' => code == ('b', 'u', 'l'),
            'h' => code == ('b', 'i', 'h'),
            'i' => code == ('b', 'i', 's'),
            'm' => code == ('b', 'a', 'm'),
            'n' => code == ('b', 'e', 'n'),
            'o' => code == ('b', 'o', 'd') || code == ('t', 'i', 'b'),
            'r' => code == ('b', 'r', 'e'),
            's' => code == ('b', 'o', 's'),
            _ => false,
        },
        'c' => match y {
            'a' => code == ('c', 'a', 't'),
            'e' => code == ('c', 'h', 'e'),
            'h' => code == ('c', 'h', 'a'),
            'o' => code == ('c', 'o', 's'),
            'r' => code == ('c', 'r', 'e'),
            's' => code == ('c', 'e', 's') || code == ('c', 'z', 'e'),
            'u' => code == ('c', 'h', 'u'),
            'v' => code == ('c', 'h', 'v'),
            'y' => code == ('c', 'y', 'm') || code == ('w', 'e', 'l'),
            _ => false,
        },
        'd' => match y {
            'a' => code == ('d', 'a', 'n'),
            'e' => code == ('d', 'e', 'u') || code == ('g', 'e', 'r'),
            'v' => code == ('d', 'i', 'v'),
            'z' => code == ('d', 'z', 'o'),
            _ => false,
        },
        'e' => match y {
            'e' => code == ('e', 'w', 'e'),
            'l' => code == ('e', 'l', 'l') || code == ('g', 'r', 'e'),
            'n' => code == ('e', 'n', 'g'),
            'o' => code == ('e', 'p', 'o'),
            's' => code == ('s', 'p', 'a'),
            't' => code == ('e', 's', 't'),
            'u' => code == ('b', 'a', 'q') || code == ('e', 'u', 's'),
            _ => false,
        },
        'f' => match y {
            'a' => code == ('f', 'a', 's') || code == ('p', 'e', 'r'),
            'f' => code == ('f', 'u', 'l'),
            'i' => code == ('f', 'i', 'n'),
            'j' => code == ('f', 'i', 'j'),
            'o' => code == ('f', 'a', 'o'),
            'r' => code == ('f', 'r', 'a') || code == ('f', 'r', 'e'),
            'y' => code == ('f', 'r', 'y'),
            _ => false,
        },
        'g' => match y {
            'a' => code == ('g', 'l', 'e'),
            'd' => code == ('g', 'l', 'a'),
            'l' => code == ('g', 'l', 'g'),
            'n' => code == ('g', 'r', 'n'),
            'u' => code == ('g', 'u', 'j'),
            'v' => code == ('g', 'l', 'v'),
            _ => false,
        },
        'h' => match y {
            'a' => code == ('h', 'a', 'u'),
            'e' => code == ('h', 'e', 'b'),
            'i' => code == ('h', 'i', 'n'),
            'o' => code == ('h', 'm', 'o'),
            'r' => code == ('h', 'r', 'v'),
            't' => code == ('h', 'a', 't'),
            'u' => code == ('h', 'u', 'n'),
            'y' => code == ('a', 'r', 'm') || code == ('h', 'y', 'e'),
            'z' => code == ('h', 'e', 'r'),
            _ => false,
        },
        'i' => match y {
            'a' => code == ('i', 'n', 'a'),
            'd' => code == ('i', 'n', 'd'),
            'e' => code == ('i', 'l', 'e'),
            'g' => code == ('i', 'b', 'o'),
            'i' => code == ('i', 'i', 'i'),
            'k' => code == ('i', 'p', 'k'),
            'o' => code == ('i', 'd', 'o'),
            's' => code == ('i', 'c', 'e') || code == ('i', 's', 'l'),
            't' => code == ('i', 't', 'a'),
            'u' => code == ('i', 'k', 'u'),
            _ => false,
        },
        'j' => match y {
            'a' => code == ('j', 'p', 'n'),
            'v' => code == ('j', 'a', 'v'),
            _ => false,
        },
        'k' => match y {
            'a' => code == ('g', 'e', 'o') || code == ('k', 'a', 't'),
            'g' => code == ('k', 'o', 'n'),
            'i' => code == ('k', 'i', 'k'),
            'j' => code == ('k', 'u', 'a'),
            'k' => code == ('k', 'a', 'z'),
            'l' => code == ('k', 'a', 'l'),
            'm' => code == ('k', 'h', 'm'),
            'n' => code == ('k', 'a', 'n'),
            'o' => code == ('k', 'o', 'r'),
            'r' => code == ('k', 'a', 'u'),
            's' => code == ('k', 'a', 's'),
            'u' => code == ('k', 'u', 'r'),
            'v' => code == ('k', 'o', 'm'),
            'w' => code == ('c', 'o', 'r'),
            'y' => code == ('k', 'i', 'r'),
            _ => false,
        },
        'l' => match y {
            'a' => code == ('l', 'a', 't'),
            'b' => code == ('l', 't', 'z'),
            'g' => code == ('l', 'u', 'g'),
            'i' => code == ('l', 'i', 'm'),
            'n' => code == ('l', 'i', 'n'),
            'o' => code == ('l', 'a', 'o'),
            't' => code == ('l', 'i', 't'),
            'u' => code == ('l', 'u', 'b'),
            'v' => code == ('l', 'a', 'v'),
            _ => false,
        },
        'm' => match y {
            'g' => code == ('m', 'l', 'g'),
            'h' => code == ('m', 'a', 'h'),
            'i' => code == ('m', 'a', 'o') || code == ('m', 'r', 'i'),
            'k' => code == ('m', 'a', 'c') || code == ('m', 'k', 'd'),
            'l' => code == ('m', 'a', 'l'),
            'n' => code == ('m', 'o', 'n'),
            'r' => code == ('m', 'a', 'r'),
            's' => code == ('m', 'a', 'y') || code == ('m', 's', 'a'),
            't' => code == ('m', 'l', 't'),
            'y' => code == ('b', 'u', 'r') || code == ('m', 'y', 'a'),
            _ => false,
        },
        'n' => match y {
            'a' => code == ('n', 'a', 'u'),
            'b' => code == ('n', 'o', 'b'),
            'd' => code == ('n', 'd', 'e'),
            'e' => code == ('n', 'e', 'p'),
            'g' => code == ('n', 'd', 'o'),
            'l' => code == ('d', 'u', 't') || code == ('n', 'l', 'd'),
            'n' => code == ('n', 'n', 'o'),
            'o' => code == ('n', 'o', 'r'),
            'r' => code == ('n', 'b', 'l'),
            'v' => code == ('n', 'a', 'v'),
            'y' => code == ('n', 'y', 'a'),
            _ => false,
        },
        'o' => match y {
            'c' => code == ('o', 'c', 'i'),
            'j' => code == ('o', 'j', 'i'),
            'm' => code == ('o', 'r', 'm'),
            'r' => code == ('o', 'r', 'i'),
            's' => code == ('o', 's', 's'),
            _ => false,
        },
        'p' => match y {
            'a' => code == ('p', 'a', 'n'),
            'i' => code == ('p', 'l', 'i'),
            'l' => code == ('p', 'o', 'l'),
            's' => code == ('p', 'u', 's'),
            't' => code == ('p', 'o', 'r'),
            _ => false,
        },
        'q' => match y {
            'u' => code == ('q', 'u', 'e'),
            _ => false,
        },
        'r' => match y {
            'm' => code == ('r', 'o', 'h'),
            'n' => code == ('r', 'u', 'n'),
            'o' => code == ('r', 'o', 'n') || code == ('r', 'u', 'm'),
            'u' => code == ('r', 'u', 's'),
            'w' => code == ('k', 'i', 'n'),
            _ => false,
        },
        's' => match y {
            'a' => code == ('s', 'a', 'n'),
            'c' => code == ('s', 'r', 'd'),
            'd' => code == ('s', 'n', 'd'),
            'e' => code == ('s', 'm', 'e'),
            'g' => code == ('s', 'a', 'g'),
            'h' => code == ('h', 'b', 's'),
            'i' => code == ('s', 'i', 'n'),
            'k' => code == ('s', 'l', 'k') || code == ('s', 'l', 'o'),
            'l' => code == ('s', 'l', 'v'),
            'm' => code == ('s', 'm', 'o'),
            'n' => code == ('s', 'n', 'a'),
            'o' => code == ('s', 'o', 'm'),
            'q' => code == ('a', 'l', 'b') || code == ('s', 'q', 'i'),
            'r' => code == ('s', 'r', 'p'),
            's' => code == ('s', 's', 'w'),
            't' => code == ('s', 'o', 't'),
            'u' => code == ('s', 'u', 'n'),
            'v' => code == ('s', 'w', 'e'),
            'w' => code == ('s', 'w', 'a'),
            _ => false,
        },
        't' => match y {
            'a' => code == ('t', 'a', 'm'),
            'e' => code == ('t', 'e', 'l'),
            'g' => code == ('t', 'g', 'k'),
            'h' => code == ('t', 'h', 'a'),
            'i' => code == ('t', 'i', 'r'),
            'k' => code == ('t', 'u', 'k'),
            'l' => code == ('t', 'g', 'l'),
            'n' => code == ('t', 's', 'n'),
            'o' => code == ('t', 'o', 'n'),
            'r' => code == ('t', 'u', 'r'),
            's' => code == ('t', 's', 'o'),
            't' => code == ('t', 'a', 't'),
            'w' => code == ('t', 'w', 'i'),
            'y' => code == ('t', 'a', 'h'),
            _ => false,
        },
        'u' => match y {
            'g' => code == ('u', 'i', 'g'),
            'k' => code == ('u', 'k', 'r'),
            'r' => code == ('u', 'r', 'd'),
            'z' => code == ('u', 'z', 'b'),
            _ => false,
        },
        'v' => match y {
            'e' => code == ('v', 'e', 'n'),
            'i' => code == ('v', 'i', 'e'),
            'o' => code == ('v', 'o', 'l'),
            _ => false,
        },
        'w' => match y {
            'a' => code == ('w', 'l', 'n'),
            'o' => code == ('w', 'o', 'l'),
            _ => false,
        },
        'x' => match y {
            'h' => code == ('x', 'h', 'o'),
            _ => false,
        },
        'y' => match y {
            'i' => code == ('y', 'i', 'd'),
            'o' => code == ('y', 'o', 'r'),
            _ => false,
        },
        'z' => match y {
            'a' => code == ('z', 'h', 'a'),
            'h' => code == ('c', 'h', 'i') || code == ('z', 'h', 'o'),
            'u' => code == ('z', 'u', 'l'),
            _ => false,
        },
        _ => false,
    }
}

/// A code of three letters is shortened to two exactly if both name the same
/// language.
pub proof fn codes_name_the_same_language(a: char, b: char, c: char, x: char, y: char)
    ensures
        two_letters(a, b, c) == Some((x, y)) <==> is_long_code(x, y, (a, b, c)),
{
}

/// The code of three letters of a language, in upper or lower case, is replaced by
/// the one of two letters; what stands behind a dash stays.
pub proof fn long_code_is_shortened(code: Seq<char>, rest: Seq<char>, x: char, y: char)
    requires
        code.len() == 3,
        is_long_code(x, y, (lowered(code)[0], lowered(code)[1], lowered(code)[2])),
        rest.len() > 0 ==> rest[0] == '-',
    ensures
        language_normalized(code + rest) == seq![x, y] + rest,
{
    let lower = lowered(code);
    codes_name_the_same_language(lower[0], lower[1], lower[2], x, y);
    lemma_long_code(lower[0], lower[1], lower[2], x, y);
    assert(lower[0] != '-' && lower[1] != '-' && lower[2] != '-');
    lemma_before_dash(code, rest);
    assert((code + rest).take(3) =~= code);
    assert((code + rest).skip(3) =~= rest);
}

proof fn lemma_long_code(a: char, b: char, c: char, x: char, y: char)
    requires
        is_long_code(x, y, (a, b, c)),
    ensures
        a != '-',
        b != '-',
        c != '-',
{
}

/// Letters are put in lower case one by one, others stay.
pub proof fn letters_are_lowered(t: Seq<char>, i: int)
    requires
        0 <= i < t.len(),
    ensures
        lowered(t).len() == t.len(),
        'A' <= t[i] && t[i] <= 'Z' ==> lowered(t)[i] as u32 - 'a' as u32 == t[i] as u32
            - 'A' as u32,
        !('A' <= t[i] && t[i] <= 'Z') ==> lowered(t)[i] == t[i],
{
}

} // verus!
