//! Clip information files as they are written.
use vstd::prelude::*;
use crate::bytes::{be16, be32, be32_bytes, lemma_be32};
use crate::ebml::written::{holds, lemma_holds_at, lemma_holds_parts};
use crate::lang::{language_normalized, lowered};
use crate::m2ts::clpi::{
    behind_last, clip_language, clip_languages, clip_paths, clip_streams_at, clip_times,
    directory_of, groups_end, last_name, path_in, path_trimmed, program_languages, sequences_at,
    stem_of, with_stream,
};
use crate::written::payloads::{four_bytes, two_bytes};
use crate::written::tables::a_language_names_itself;
use vstd::utf8::encode_utf8;

verus! {

/// The attributes of a stream: of one with subtitles, its coding type, its language,
/// and more; or any others.
pub enum Attributes {
    Subtitles { coding: u8, language: Seq<char>, more: Seq<u8> },
    Others(Seq<u8>),
}

/// A stream of a clip.
pub struct ClipStream {
    pub pid: u16,
    pub attributes: Attributes,
}

/// The bytes of attributes.
pub open spec fn attributes_bytes(a: Attributes) -> Seq<u8> {
    match a {
        Attributes::Subtitles { coding, language, more } => seq![coding] + encode_utf8(language)
            + more,
        Attributes::Others(b) => b,
    }
}

/// Whether attributes can be written: a language in three bytes that is "und" or
/// ends in no zero character.
pub open spec fn is_attributes(a: Attributes) -> bool {
    &&& attributes_bytes(a).len() <= 255
    &&& match a {
        Attributes::Subtitles { coding, language, .. } => (coding == 0x90 || coding == 0x91)
            && encode_utf8(language).len() == 3 && language.len() > 0 && language.last() != '\0',
        Attributes::Others(b) => b.len() > 0 ==> b[0] != 0x90 && b[0] != 0x91,
    }
}

/// A stream as it is written.
pub open spec fn clip_stream_bytes(s: ClipStream) -> Seq<u8> {
    let b = attributes_bytes(s.attributes);
    two_bytes(s.pid) + seq![b.len() as u8] + b
}

/// Streams as they are written.
pub open spec fn clip_streams_bytes(ss: Seq<ClipStream>) -> Seq<u8>
    decreases ss.len(),
{
    if ss.len() == 0 {
        Seq::empty()
    } else {
        clip_stream_bytes(ss[0]) + clip_streams_bytes(ss.skip(1))
    }
}

/// Languages with those that streams name. The first one of a stream counts.
pub open spec fn streams_said(ss: Seq<ClipStream>, map: Map<u16, Seq<char>>) -> Map<u16, Seq<char>>
    decreases ss.len(),
{
    if ss.len() == 0 {
        map
    } else {
        let more = match ss[0].attributes {
            Attributes::Subtitles { language, .. } => if language == "und"@ || map.contains_key(
                ss[0].pid,
            ) {
                map
            } else {
                map.insert(ss[0].pid, language_normalized(language))
            },
            Attributes::Others(_) => map,
        };
        streams_said(ss.skip(1), more)
    }
}

/// Groups as they are written: a byte, the size of the data, and data of each.
pub open spec fn groups_bytes(gs: Seq<(u8, Seq<u8>)>) -> Seq<u8>
    decreases gs.len(),
{
    if gs.len() == 0 {
        Seq::empty()
    } else {
        seq![gs[0].0] + two_bytes(gs[0].1.len() as u16) + gs[0].1 + groups_bytes(gs.skip(1))
    }
}

/// A program sequence: six bytes, streams and groups.
pub struct ProgramSequence {
    pub head: Seq<u8>,
    pub streams: Seq<ClipStream>,
    pub groups: Seq<(u8, Seq<u8>)>,
}

/// Whether a program sequence can be written.
pub open spec fn is_sequence(p: ProgramSequence) -> bool {
    &&& p.head.len() == 6
    &&& p.streams.len() <= 255
    &&& p.groups.len() <= 255
    &&& forall|i: int|
        0 <= i < p.streams.len() ==> is_attributes((#[trigger] p.streams[i]).attributes)
    &&& forall|i: int| 0 <= i < p.groups.len() ==> (#[trigger] p.groups[i]).1.len() < 0x1_0000
}

/// Program sequences as they are written.
pub open spec fn sequences_bytes(ps: Seq<ProgramSequence>) -> Seq<u8>
    decreases ps.len(),
{
    if ps.len() == 0 {
        Seq::empty()
    } else {
        let p = ps[0];
        p.head + seq![p.streams.len() as u8, p.groups.len() as u8] + clip_streams_bytes(p.streams)
            + groups_bytes(p.groups) + sequences_bytes(ps.skip(1))
    }
}

/// Languages with those that program sequences name.
pub open spec fn sequences_said(ps: Seq<ProgramSequence>, map: Map<u16, Seq<char>>) -> Map<
    u16,
    Seq<char>,
>
    decreases ps.len(),
{
    if ps.len() == 0 {
        map
    } else {
        sequences_said(ps.skip(1), streams_said(ps[0].streams, map))
    }
}

proof fn lemma_pair(s: Seq<u8>, at: int, v: u16)
    requires
        holds(s, at, two_bytes(v)),
    ensures
        be16(s, at) == v,
{
    lemma_holds_at(s, at, two_bytes(v), 0);
    lemma_holds_at(s, at, two_bytes(v), 1);
}

proof fn lemma_subtitles(s: Seq<u8>, pos: int, coding: u8, language: Seq<char>, more: Seq<u8>)
    requires
        holds(s, pos, seq![coding] + encode_utf8(language) + more),
        encode_utf8(language).len() == 3,
        language.len() > 0,
        language.last() != '\0',
    ensures
        s[pos] == coding,
        clip_language(s.subrange(pos + 1, pos + 4)) == if language == "und"@ {
            None
        } else {
            Some(language_normalized(language))
        },
{
    let field = encode_utf8(language);
    lemma_holds_parts(s, pos, seq![coding] + field, more);
    lemma_holds_parts(s, pos, seq![coding], field);
    lemma_holds_at(s, pos, seq![coding], 0);
    vstd::utf8::encode_utf8_valid_utf8(language);
    vstd::utf8::encode_utf8_decode_utf8(language);
    let none = Seq::<char>::empty();
    assert(language + none =~= language);
    if language != "und"@ {
        a_language_names_itself(language, none);
    } else {
        reveal_strlit("und");
        assert(seq!['a'].len() != "und"@.len());
        a_language_names_itself(seq!['a'], none);
    }
}

proof fn lemma_stream(s: Seq<u8>, pos: int, c: ClipStream, map: Map<u16, Seq<char>>)
    requires
        holds(s, pos, clip_stream_bytes(c)),
        is_attributes(c.attributes),
    ensures
        be16(s, pos) == c.pid,
        s[pos + 2] == attributes_bytes(c.attributes).len(),
        clip_stream_bytes(c).len() == 3 + attributes_bytes(c.attributes).len(),
        attributes_bytes(c.attributes).len() > 0 ==> with_stream(
            s,
            pos + 3,
            attributes_bytes(c.attributes).len() as int,
            c.pid,
            map,
        ) == streams_said(seq![c], map),
        attributes_bytes(c.attributes).len() == 0 ==> streams_said(seq![c], map) == map,
{
    let b = attributes_bytes(c.attributes);
    lemma_holds_parts(s, pos, two_bytes(c.pid) + seq![b.len() as u8], b);
    lemma_holds_parts(s, pos, two_bytes(c.pid), seq![b.len() as u8]);
    lemma_pair(s, pos, c.pid);
    lemma_holds_at(s, pos + 2, seq![b.len() as u8], 0);
    assert(seq![c].skip(1) =~= Seq::empty());
    reveal_with_fuel(streams_said, 2);
    match c.attributes {
        Attributes::Subtitles { coding, language, more } => {
            lemma_subtitles(s, pos + 3, coding, language, more);
        },
        Attributes::Others(b) => {
            if b.len() > 0 {
                lemma_holds_at(s, pos + 3, b, 0);
            }
        },
    }
}

proof fn lemma_streams(s: Seq<u8>, pos: int, ss: Seq<ClipStream>, map: Map<u16, Seq<char>>)
    requires
        holds(s, pos, clip_streams_bytes(ss)),
        forall|i: int| 0 <= i < ss.len() ==> is_attributes((#[trigger] ss[i]).attributes),
    ensures
        clip_streams_at(s, pos, ss.len(), map) == Some(
            (streams_said(ss, map), pos + clip_streams_bytes(ss).len()),
        ),
    decreases ss.len(),
{
    if ss.len() > 0 {
        let c = ss[0];
        let rest = ss.skip(1);
        assert(is_attributes(ss[0].attributes));
        lemma_holds_parts(s, pos, clip_stream_bytes(c), clip_streams_bytes(rest));
        lemma_stream(s, pos, c, map);
        assert forall|i: int| 0 <= i < rest.len() implies is_attributes(
            (#[trigger] rest[i]).attributes,
        ) by {
            assert(rest[i] == ss[i + 1]);
        }
        assert(seq![c].skip(1) =~= Seq::empty());
        reveal_with_fuel(streams_said, 2);
        let more = streams_said(seq![c], map);
        lemma_streams(s, pos + clip_stream_bytes(c).len(), rest, more);
    }
}

proof fn lemma_groups(s: Seq<u8>, pos: int, gs: Seq<(u8, Seq<u8>)>)
    requires
        holds(s, pos, groups_bytes(gs)),
        forall|i: int| 0 <= i < gs.len() ==> (#[trigger] gs[i]).1.len() < 0x1_0000,
    ensures
        groups_end(s, pos, gs.len()) == pos + groups_bytes(gs).len(),
    decreases gs.len(),
{
    if gs.len() > 0 {
        let rest = gs.skip(1);
        assert(gs[0].1.len() < 0x1_0000);
        let size = two_bytes(gs[0].1.len() as u16);
        lemma_holds_parts(s, pos, seq![gs[0].0] + size + gs[0].1, groups_bytes(rest));
        lemma_holds_parts(s, pos, seq![gs[0].0] + size, gs[0].1);
        lemma_holds_parts(s, pos, seq![gs[0].0], size);
        lemma_pair(s, pos + 1, gs[0].1.len() as u16);
        assert forall|i: int| 0 <= i < rest.len() implies (#[trigger] rest[i]).1.len()
            < 0x1_0000 by {
            assert(rest[i] == gs[i + 1]);
        }
        lemma_groups(s, pos + 3 + gs[0].1.len(), rest);
    }
}

proof fn lemma_sequences(
    s: Seq<u8>,
    pos: int,
    ps: Seq<ProgramSequence>,
    map: Map<u16, Seq<char>>,
)
    requires
        holds(s, pos, sequences_bytes(ps)),
        forall|i: int| 0 <= i < ps.len() ==> is_sequence(#[trigger] ps[i]),
    ensures
        sequences_at(s, pos, ps.len(), map) == Some(sequences_said(ps, map)),
    decreases ps.len(),
{
    if ps.len() > 0 {
        let p = ps[0];
        let rest = ps.skip(1);
        assert(is_sequence(ps[0]));
        let numbers = seq![p.streams.len() as u8, p.groups.len() as u8];
        let streams = clip_streams_bytes(p.streams);
        let groups = groups_bytes(p.groups);
        lemma_holds_parts(s, pos, p.head + numbers + streams + groups, sequences_bytes(rest));
        lemma_holds_parts(s, pos, p.head + numbers + streams, groups);
        lemma_holds_parts(s, pos, p.head + numbers, streams);
        lemma_holds_parts(s, pos, p.head, numbers);
        lemma_holds_at(s, pos + 6, numbers, 0);
        lemma_holds_at(s, pos + 6, numbers, 1);
        lemma_streams(s, pos + 8, p.streams, map);
        lemma_groups(s, pos + 8 + streams.len(), p.groups);
        assert forall|i: int| 0 <= i < rest.len() implies is_sequence(#[trigger] rest[i]) by {
            assert(rest[i] == ps[i + 1]);
        }
        lemma_sequences(
            s,
            pos + 8 + streams.len() + groups.len(),
            rest,
            streams_said(p.streams, map),
        );
    }
}

proof fn lemma_four(s: Seq<u8>, at: int, v: u32)
    requires
        holds(s, at, four_bytes(v)),
    ensures
        be32(s, at) == v,
{
    assert(four_bytes(v) =~= be32_bytes(v));
    lemma_be32(s, at, v);
}

/// Clip information that is written, with program information at any place, gives
/// the language of each stream with subtitles that names one.
pub proof fn written_clip_languages_are_read(
    data: Seq<u8>,
    offset: u32,
    head: Seq<u8>,
    ps: Seq<ProgramSequence>,
)
    requires
        data.len() >= 40,
        holds(data, 0, seq![0x48u8, 0x44u8, 0x4Du8, 0x56u8]),
        holds(data, 12, four_bytes(offset)),
        offset > 0,
        head.len() == 5,
        1 <= ps.len() <= 100,
        forall|i: int| 0 <= i < ps.len() ==> is_sequence(#[trigger] ps[i]),
        holds(data, offset as int, head + seq![ps.len() as u8] + sequences_bytes(ps)),
        sequences_said(ps, Map::empty()) != Map::<u16, Seq<char>>::empty(),
    ensures
        clip_languages(data) == Some(sequences_said(ps, Map::empty())),
{
    let magic = seq![0x48u8, 0x44u8, 0x4Du8, 0x56u8];
    lemma_holds_at(data, 0, magic, 0);
    lemma_holds_at(data, 0, magic, 1);
    lemma_holds_at(data, 0, magic, 2);
    lemma_holds_at(data, 0, magic, 3);
    lemma_four(data, 12, offset);
    let section = data.skip(offset as int);
    let b = head + seq![ps.len() as u8] + sequences_bytes(ps);
    assert(section.subrange(0, b.len() as int) =~= data.subrange(
        offset as int,
        offset + b.len() as int,
    ));
    assert(holds(section, 0, b));
    lemma_holds_parts(section, 0, head + seq![ps.len() as u8], sequences_bytes(ps));
    lemma_holds_parts(section, 0, head, seq![ps.len() as u8]);
    lemma_holds_at(section, 5, seq![ps.len() as u8], 0);
    lemma_sequences(section, 6, ps, Map::empty());
    assert(program_languages(section, 5) == Some(sequences_said(ps, Map::empty())));
}

/// Clip information that is written, with sequence information at any place, gives
/// the first presentation start and end times.
pub proof fn written_clip_times_are_read(
    data: Seq<u8>,
    offset: u32,
    head: Seq<u8>,
    atc_count: u8,
    atc: Seq<u8>,
    stc_count: u8,
    stc: Seq<u8>,
    start: u32,
    end: u32,
)
    requires
        data.len() >= 40,
        holds(data, 0, seq![0x48u8, 0x44u8, 0x4Du8, 0x56u8]),
        holds(data, 8, four_bytes(offset)),
        offset > 0,
        head.len() == 5,
        atc.len() == 4,
        stc.len() == 7,
        holds(
            data,
            offset as int,
            head + seq![atc_count] + atc + seq![stc_count] + stc + four_bytes(start) + four_bytes(
                end,
            ),
        ),
    ensures
        clip_times(data) == if atc_count > 0 && stc_count > 0 {
            Some((start as u64, end as u64))
        } else {
            None
        },
{
    let magic = seq![0x48u8, 0x44u8, 0x4Du8, 0x56u8];
    lemma_holds_at(data, 0, magic, 0);
    lemma_holds_at(data, 0, magic, 1);
    lemma_holds_at(data, 0, magic, 2);
    lemma_holds_at(data, 0, magic, 3);
    lemma_four(data, 8, offset);
    let section = data.skip(offset as int);
    let d = head + seq![atc_count] + atc + seq![stc_count] + stc;
    let b = d + four_bytes(start) + four_bytes(end);
    assert(section.subrange(0, 26) =~= data.subrange(offset as int, offset + 26));
    assert(holds(section, 0, b));
    lemma_holds_parts(section, 0, d + four_bytes(start), four_bytes(end));
    lemma_holds_parts(section, 0, d, four_bytes(start));
    lemma_four(section, 18, start);
    lemma_four(section, 22, end);
    lemma_holds_at(section, 0, d, 5);
    lemma_holds_at(section, 0, d, 10);
}

/// The place behind the last occurrence of a character is where none follows.
pub proof fn last_occurrence_is_last(t: Seq<char>, c: char, u: Seq<char>)
    requires
        t.len() > 0 ==> t.last() == c,
        forall|i: int| 0 <= i < u.len() ==> #[trigger] u[i] != c,
    ensures
        behind_last(t + u, c) == t.len(),
    decreases u.len(),
{
    if u.len() == 0 {
        assert(t + u =~= t);
    } else {
        assert((t + u).last() == u.last());
        assert(u[u.len() - 1] != c);
        assert((t + u).drop_last() =~= t + u.drop_last());
        last_occurrence_is_last(t, c, u.drop_last());
    }
}

/// Whether a text is a part of a path that is a name.
pub open spec fn is_name(t: Seq<char>) -> bool {
    &&& t.len() > 0
    &&& t != seq!['.']
    &&& t != seq!['.', '.']
    &&& forall|i: int| 0 <= i < t.len() ==> #[trigger] t[i] != '/'
}

proof fn lemma_last_part(dir: Seq<char>, name: Seq<char>)
    requires
        dir.len() > 0,
        dir.last() != '/',
        dir.len() >= 2 ==> dir.last() != '.',
        is_name(name),
    ensures
        path_trimmed(dir + seq!['/'] + name) == dir + seq!['/'] + name,
        last_name(dir + seq!['/'] + name) == Some(name),
        directory_of(dir + seq!['/'] + name) == dir,
{
    let front = dir + seq!['/'];
    let path = front + name;
    assert(path.last() == name.last());
    assert(name[name.len() - 1] != '/');
    if name.len() >= 2 {
        assert(path[path.len() - 2] == name[name.len() - 2]);
        assert(name[name.len() - 2] != '/');
    } else {
        assert(name =~= seq![name[0]]);
        assert(name[0] != '.');
    }
    last_occurrence_is_last(front, '/', name);
    assert(path.skip(front.len() as int) =~= name);
    assert(path.take(front.len() as int) =~= front);
    reveal_strlit(".");
    reveal_strlit("..");
    assert("."@ =~= seq!['.']);
    assert(".."@ =~= seq!['.', '.']);
    assert(front.drop_last() =~= dir);
    assert(path_trimmed(dir) == dir);
    assert(path_trimmed(front) == dir);
}

/// The clip information of a file with any extension in a directory whose name is
/// "STREAM" in upper or lower case is looked for beside that directory, in
/// "CLIPINF" and then in "clipinf", under the same name with the extension "clpi".
#[verifier::spinoff_prover]
#[verifier::rlimit(60)]
pub proof fn clip_information_is_beside_the_stream(
    base: Seq<char>,
    stream: Seq<char>,
    stem: Seq<char>,
    ext: Seq<char>,
)
    requires
        base.len() > 0,
        base.last() != '/',
        base.last() != '.',
        lowered(stream) == seq!['s', 't', 'r', 'e', 'a', 'm'],
        stem.len() > 0,
        ext.len() > 0,
        forall|i: int| 0 <= i < stem.len() ==> #[trigger] stem[i] != '/',
        forall|i: int| 0 <= i < ext.len() ==> #[trigger] ext[i] != '/' && ext[i] != '.',
    ensures
        clip_paths(base + seq!['/'] + stream + seq!['/'] + (stem + seq!['.'] + ext)) == Some(
            (
                base + seq!['/', 'C', 'L', 'I', 'P', 'I', 'N', 'F', '/'] + stem + seq![
                    '.',
                    'c',
                    'l',
                    'p',
                    'i',
                ],
                base + seq!['/', 'c', 'l', 'i', 'p', 'i', 'n', 'f', '/'] + stem + seq![
                    '.',
                    'c',
                    'l',
                    'p',
                    'i',
                ],
            ),
        ),
{
    let name = stem + seq!['.'] + ext;
    let dir = base + seq!['/'] + stream;
    let low = seq!['s', 't', 'r', 'e', 'a', 'm'];
    assert(lowered(stream).len() == stream.len() && low.len() == 6);
    assert forall|i: int| 0 <= i < stream.len() implies #[trigger] stream[i] != '/' && stream[i]
        != '.' by {
        assert(lowered(stream)[i] == low[i]);
        assert('a' <= low[i] && low[i] <= 'z');
    }
    assert(stream.len() == 6);
    assert(is_name(stream));
    assert forall|i: int| 0 <= i < name.len() implies #[trigger] name[i] != '/' by {
        if i < stem.len() {
            assert(name[i] == stem[i]);
        } else if i > stem.len() {
            assert(name[i] == ext[i - stem.len() - 1]);
        }
    }
    assert(is_name(name));
    lemma_last_part(base, stream);
    assert(dir.last() == stream[5]);
    lemma_last_part(dir, name);
    assert forall|i: int| 0 <= i < ext.len() implies #[trigger] ext[i] != '.' by {
        assert(ext[i] != '/');
    }
    last_occurrence_is_last(stem + seq!['.'], '.', ext);
    assert(stem_of(name) =~= stem);
    reveal_strlit("stream");
    assert("stream"@ =~= low);
    reveal_strlit(".clpi");
    reveal_strlit("CLIPINF");
    reveal_strlit("clipinf");
    let clip = stem + ".clpi"@;
    assert(path_in(path_in(base, "CLIPINF"@), clip) =~= base + seq![
        '/',
        'C',
        'L',
        'I',
        'P',
        'I',
        'N',
        'F',
        '/',
    ] + stem + seq!['.', 'c', 'l', 'p', 'i']);
    assert(path_in(path_in(base, "clipinf"@), clip) =~= base + seq![
        '/',
        'c',
        'l',
        'i',
        'p',
        'i',
        'n',
        'f',
        '/',
    ] + stem + seq!['.', 'c', 'l', 'p', 'i']);
}

} // verus!
