//! JSON values: their fields and their text.
use vstd::prelude::*;

verus! {

/// A JSON value as a mathematical value, with numbers of type `N`.
pub enum Json<N> {
    Null,
    Bool(bool),
    Str(Seq<char>),
    Num(N),
    Array(Seq<Json<N>>),
    Object(Seq<(Seq<char>, Json<N>)>),
}

/// A JSON value. A number is held as text, or as what has been read from it.
#[derive(Debug)]
pub enum JsonValue<N> {
    Null,
    Bool(bool),
    Str(String),
    Num(N),
    Array(Vec<JsonValue<N>>),
    Object(Vec<(String, JsonValue<N>)>),
}

/// What a JSON number says as an integer and as a time.
#[derive(Debug, Clone, Copy, PartialEq, Eq, Structural)]
pub struct Number {
    /// The number without its fraction, at least 0 and at most the largest `u64`.
    pub whole: u64,
    /// The number as milliseconds, in 90 kHz ticks, rounded.
    pub ticks: u64,
}

impl View for Number {
    type V = Number;

    open spec fn view(&self) -> Number {
        *self
    }
}

impl<N: View> JsonValue<N> {
    /// The value as a mathematical value.
    pub open spec fn tree(&self) -> Json<N::V>
        decreases self,
    {
        match self {
            JsonValue::Null => Json::Null,
            JsonValue::Bool(b) => Json::Bool(*b),
            JsonValue::Str(s) => Json::Str(s@),
            JsonValue::Num(n) => Json::Num(n@),
            JsonValue::Array(items) => Json::Array(
                Seq::new(
                    items@.len(),
                    |i: int|
                        if 0 <= i < items@.len() {
                            items@[i].tree()
                        } else {
                            Json::Null
                        },
                ),
            ),
            JsonValue::Object(pairs) => Json::Object(
                Seq::new(
                    pairs@.len(),
                    |i: int|
                        if 0 <= i < pairs@.len() {
                            (pairs@[i].0@, pairs@[i].1.tree())
                        } else {
                            (Seq::empty(), Json::Null)
                        },
                ),
            ),
        }
    }
}

/// The values as mathematical values.
pub open spec fn trees<N: View>(items: Seq<JsonValue<N>>) -> Seq<Json<N::V>> {
    Seq::new(items.len(), |i: int| items[i].tree())
}

/// The fields as mathematical values.
pub open spec fn pair_trees<N: View>(pairs: Seq<(String, JsonValue<N>)>) -> Seq<
    (Seq<char>, Json<N::V>),
> {
    Seq::new(pairs.len(), |i: int| (pairs[i].0@, pairs[i].1.tree()))
}

/// An array's tree is made of the trees of its items.
pub(crate) proof fn lemma_array_tree<N: View>(items: Vec<JsonValue<N>>)
    ensures
        JsonValue::Array(items).tree() == Json::Array(trees(items@)),
{
    if let Json::Array(seq) = JsonValue::Array(items).tree() {
        assert(seq =~= trees(items@));
    }
}

/// An object's tree is made of the trees of its fields.
pub(crate) proof fn lemma_object_tree<N: View>(pairs: Vec<(String, JsonValue<N>)>)
    ensures
        JsonValue::Object(pairs).tree() == Json::Object(pair_trees(pairs@)),
{
    if let Json::Object(seq) = JsonValue::Object(pairs).tree() {
        assert(seq =~= pair_trees(pairs@));
    }
}

/// The value of the first of the fields that has the key.
pub open spec fn first_with_key<N>(pairs: Seq<(Seq<char>, Json<N>)>, key: Seq<char>) -> Option<
    Json<N>,
>
    decreases pairs.len(),
{
    if pairs.len() == 0 {
        None
    } else if pairs[0].0 == key {
        Some(pairs[0].1)
    } else {
        first_with_key(pairs.skip(1), key)
    }
}

/// The value of a field. Only an object has fields.
pub open spec fn field<N>(j: Json<N>, key: Seq<char>) -> Option<Json<N>> {
    match j {
        Json::Object(pairs) => first_with_key(pairs, key),
        _ => None,
    }
}

/// `n`, or `limit` if `n` is more.
pub open spec fn at_most(n: u64, limit: int) -> int {
    if n <= limit {
        n as int
    } else {
        limit
    }
}

impl<N: View> JsonValue<N> {
    /// The text of a string.
    pub fn as_str(&self) -> (r: Option<&str>)
        ensures
            match (r, self.tree()) {
                (Some(s), Json::Str(t)) => s@ == t,
                (Some(_), _) => false,
                (None, t) => !(t is Str),
            },
    {
        match self {
            JsonValue::Str(s) => Some(s.as_str()),
            _ => None,
        }
    }

    /// The value of a boolean.
    pub fn as_bool(&self) -> (r: Option<bool>)
        ensures
            r == match self.tree() {
                Json::Bool(b) => Some(b),
                _ => None,
            },
    {
        match self {
            JsonValue::Bool(b) => Some(*b),
            _ => None,
        }
    }

    /// The items of an array.
    pub fn as_array(&self) -> (r: Option<&[JsonValue<N>]>)
        ensures
            match (r, self.tree()) {
                (Some(s), Json::Array(items)) => trees(s@) == items,
                (Some(_), _) => false,
                (None, t) => !(t is Array),
            },
    {
        match self {
            JsonValue::Array(items) => {
                proof {
                    lemma_array_tree(*items);
                }
                Some(items.as_slice())
            },
            _ => None,
        }
    }

    /// Whether the value is null.
    pub fn is_null(&self) -> (r: bool)
        ensures
            r == (self.tree() is Null),
    {
        match self {
            JsonValue::Null => true,
            _ => false,
        }
    }

    /// The value of a field.
    pub fn get(&self, key: &str) -> (r: Option<&JsonValue<N>>)
        ensures
            match (r, field(self.tree(), key@)) {
                (Some(v), Some(t)) => v.tree() == t,
                (None, None) => true,
                _ => false,
            },
    {
        match self {
            JsonValue::Object(pairs) => {
                proof {
                    lemma_object_tree(*pairs);
                }
                let ghost all = pair_trees(pairs@);
                let wanted = key.to_owned();
                let mut i: usize = 0;
                assert(all.skip(0) =~= all);
                while i < pairs.len()
                    invariant
                        i <= pairs@.len(),
                        all == pair_trees(pairs@),
                        self.tree() == Json::Object(all),
                        wanted@ == key@,
                        first_with_key(all, key@) == first_with_key(all.skip(i as int), key@),
                    decreases pairs@.len() - i,
                {
                    assert(all.skip(i as int)[0] == all[i as int]);
                    if pairs[i].0 == wanted {
                        return Some(&pairs[i].1);
                    }
                    assert(all.skip(i as int).skip(1) =~= all.skip(i + 1));
                    i += 1;
                }
                None
            },
            _ => None,
        }
    }
}

impl JsonValue<Number> {
    /// A number as an integer.
    pub fn as_u64(&self) -> (r: Option<u64>)
        ensures
            r == match self.tree() {
                Json::Num(n) => Some(n.whole),
                _ => None,
            },
    {
        match self {
            JsonValue::Num(n) => Some(n.whole),
            _ => None,
        }
    }

    /// A number as a 16-bit integer: the largest one if it does not fit.
    pub fn as_u16(&self) -> (r: Option<u16>)
        ensures
            r == match self.tree() {
                Json::Num(n) => Some(at_most(n.whole, 0xFFFF) as u16),
                _ => None,
            },
    {
        match self {
            JsonValue::Num(n) => Some(
                if n.whole <= 0xFFFF {
                    n.whole as u16
                } else {
                    0xFFFF
                },
            ),
            _ => None,
        }
    }

    /// A number as an 8-bit integer: the largest one if it does not fit.
    pub fn as_u8(&self) -> (r: Option<u8>)
        ensures
            r == match self.tree() {
                Json::Num(n) => Some(at_most(n.whole, 0xFF) as u8),
                _ => None,
            },
    {
        match self {
            JsonValue::Num(n) => Some(
                if n.whole <= 0xFF {
                    n.whole as u8
                } else {
                    0xFF
                },
            ),
            _ => None,
        }
    }
}

/// What stands for a character inside a JSON string.
pub open spec fn escape(c: char) -> Seq<char> {
    if c == '\\' {
        seq!['\\', '\\']
    } else if c == '"' {
        seq!['\\', '"']
    } else if c == '\n' {
        seq!['\\', 'n']
    } else if c == '\r' {
        seq!['\\', 'r']
    } else if c == '\t' {
        seq!['\\', 't']
    } else {
        seq![c]
    }
}

/// What stands for a text inside a JSON string.
pub open spec fn escaped(s: Seq<char>) -> Seq<char>
    decreases s.len(),
{
    if s.len() == 0 {
        Seq::empty()
    } else {
        escape(s[0]) + escaped(s.skip(1))
    }
}

/// A text as a JSON string.
pub open spec fn quoted(s: Seq<char>) -> Seq<char> {
    seq!['"'] + escaped(s) + seq!['"']
}

/// A JSON value as text, without white space. A number is its own text.
pub open spec fn rendered(j: Json<Seq<char>>) -> Seq<char>
    decreases j,
{
    match j {
        Json::Null => "null"@,
        Json::Bool(true) => "true"@,
        Json::Bool(false) => "false"@,
        Json::Str(s) => quoted(s),
        Json::Num(n) => n,
        Json::Array(items) => if items.len() == 0 {
            seq!['[', ']']
        } else {
            seq!['['] + rendered(items[0]) + rendered_items(items.skip(1))
        },
        Json::Object(pairs) => if pairs.len() == 0 {
            seq!['{', '}']
        } else {
            seq!['{'] + quoted(pairs[0].0) + seq![':'] + rendered(pairs[0].1) + rendered_pairs(
                pairs.skip(1),
            )
        },
    }
}

/// The rest of an array, from behind an item.
pub open spec fn rendered_items(items: Seq<Json<Seq<char>>>) -> Seq<char>
    decreases items,
{
    if items.len() == 0 {
        seq![']']
    } else {
        seq![','] + rendered(items[0]) + rendered_items(items.skip(1))
    }
}

/// The rest of an object, from behind a field.
pub open spec fn rendered_pairs(pairs: Seq<(Seq<char>, Json<Seq<char>>)>) -> Seq<char>
    decreases pairs,
{
    if pairs.len() == 0 {
        seq!['}']
    } else {
        seq![','] + quoted(pairs[0].0) + seq![':'] + rendered(pairs[0].1) + rendered_pairs(
            pairs.skip(1),
        )
    }
}

/// Appends a text as a JSON string.
pub fn push_quoted(out: &mut String, s: &str)
    ensures
        final(out)@ == old(out)@ + quoted(s@),
{
    out.push('"');
    let ghost start = out@;
    assert(s@.skip(0) =~= s@);
    for c in it: s.chars()
        invariant
            it.seq() == s@,
            out@ + escaped(s@.skip(it.index() as int)) == start + escaped(s@),
    {
        let ghost rest = s@.skip(it.index() as int);
        let ghost before = out@;
        if c == '\\' {
            out.push('\\');
            out.push('\\');
        } else if c == '"' {
            out.push('\\');
            out.push('"');
        } else if c == '\n' {
            out.push('\\');
            out.push('n');
        } else if c == '\r' {
            out.push('\\');
            out.push('r');
        } else if c == '\t' {
            out.push('\\');
            out.push('t');
        } else {
            out.push(c);
        }
        proof {
            assert(out@ =~= before + escape(c));
            assert(rest[0] == c);
            assert(rest.skip(1) =~= s@.skip(it.index() + 1));
            assert(out@ + escaped(rest.skip(1)) =~= before + escaped(rest));
        }
    }
    out.push('"');
    assert(out@ =~= old(out)@ + quoted(s@));
}

/// Appends a JSON value as text, without white space.
pub fn push_json(out: &mut String, value: &JsonValue<String>)
    ensures
        final(out)@ == old(out)@ + rendered(value.tree()),
    decreases value,
{
    match value {
        JsonValue::Null => out.push_str("null"),
        JsonValue::Bool(b) => {
            if *b {
                out.push_str("true");
            } else {
                out.push_str("false");
            }
        },
        JsonValue::Str(s) => push_quoted(out, s.as_str()),
        JsonValue::Num(n) => out.push_str(n.as_str()),
        JsonValue::Array(items) => {
            proof {
                lemma_array_tree(*items);
            }
            let ghost all = trees(items@);
            if items.len() == 0 {
                out.push('[');
                out.push(']');
                assert(out@ =~= old(out)@ + seq!['[', ']']);
                return ;
            }
            out.push('[');
            push_json(out, &items[0]);
            let ghost goal = old(out)@ + rendered(value.tree());
            assert(out@ + rendered_items(all.skip(1)) =~= goal);
            let mut i: usize = 1;
            while i < items.len()
                invariant
                    1 <= i <= items@.len(),
                    all == trees(items@),
                    value is Array && value->Array_0 == *items,
                    out@ + rendered_items(all.skip(i as int)) == goal,
                decreases items@.len() - i,
            {
                let ghost before = out@;
                out.push(',');
                push_json(out, &items[i]);
                proof {
                    let rest = all.skip(i as int);
                    assert(rest[0] == items@[i as int].tree());
                    assert(rest.skip(1) =~= all.skip(i + 1));
                    assert(out@ + rendered_items(rest.skip(1)) =~= before + rendered_items(rest));
                }
                i += 1;
            }
            assert(all.skip(i as int) =~= Seq::empty());
            out.push(']');
            assert(out@ =~= goal);
        },
        JsonValue::Object(pairs) => {
            proof {
                lemma_object_tree(*pairs);
            }
            let ghost all = pair_trees(pairs@);
            if pairs.len() == 0 {
                out.push('{');
                out.push('}');
                assert(out@ =~= old(out)@ + seq!['{', '}']);
                return ;
            }
            out.push('{');
            push_quoted(out, pairs[0].0.as_str());
            out.push(':');
            push_json(out, &pairs[0].1);
            let ghost goal = old(out)@ + rendered(value.tree());
            assert(out@ + rendered_pairs(all.skip(1)) =~= goal);
            let mut i: usize = 1;
            while i < pairs.len()
                invariant
                    1 <= i <= pairs@.len(),
                    all == pair_trees(pairs@),
                    value is Object && value->Object_0 == *pairs,
                    out@ + rendered_pairs(all.skip(i as int)) == goal,
                decreases pairs@.len() - i,
            {
                let ghost before = out@;
                out.push(',');
                push_quoted(out, pairs[i].0.as_str());
                out.push(':');
                push_json(out, &pairs[i].1);
                proof {
                    let rest = all.skip(i as int);
                    assert(rest[0] == (pairs@[i as int].0@, pairs@[i as int].1.tree()));
                    assert(rest.skip(1) =~= all.skip(i + 1));
                    assert(out@ + rendered_pairs(rest.skip(1)) =~= before + rendered_pairs(rest));
                }
                i += 1;
            }
            assert(all.skip(i as int) =~= Seq::empty());
            out.push('}');
            assert(out@ =~= goal);
        },
    }
}

} // verus!
