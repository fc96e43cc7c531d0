//! Track entries as they are written.
use vstd::prelude::*;
use crate::ebml::vint::Element;
use crate::ebml::written::{
    be_bytes, data_start, element_bytes, holds, is_id, lemma_holds_parts, power256, size_fits,
    written_data_is_read, written_element_is_read, written_number_is_read, written_text_is_read,
};
use crate::error::ErrorView;
use crate::lang::language_normalized;
use crate::mkv::cues::PgsCuePoint;
use crate::mkv::tracks::{
    compression_at, compression_from, encoding_at, encoding_from, encodings_at, encodings_from,
    entry_at, entry_from, entry_step, no_fields, tracks_at, tracks_from, CompressionView,
    FieldsView, TrackView,
};
use crate::track::{mkv_info, ContainerFormat};
use vstd::utf8::encode_utf8;

verus! {

/// What a child of a track entry says. Numbers are written with a number of
/// bytes.
pub enum EntryValue {
    Number(u64, nat),
    Uid(u64, nat),
    Kind(u64, nat),
    Default(u64, nat),
    Forced(u64, nat),
    Codec(Seq<char>),
    Name(Seq<char>),
    Language(Seq<char>),
    LanguageTag(Seq<char>),
    /// With the number of bytes of the sizes inside.
    Compression(CompressionView, nat),
    /// An element that says nothing about a track here.
    Other(u64, Seq<u8>),
}

/// A child of a track entry, with the number of bytes of its size.
pub struct EntryField {
    pub value: EntryValue,
    pub width: nat,
}

/// The identifier of a child of a track entry.
pub open spec fn entry_id(v: EntryValue) -> u64 {
    match v {
        EntryValue::Number(_, _) => 0xD7,
        EntryValue::Uid(_, _) => 0x73C5,
        EntryValue::Kind(_, _) => 0x83,
        EntryValue::Default(_, _) => 0x88,
        EntryValue::Forced(_, _) => 0x55AA,
        EntryValue::Codec(_) => 0x86,
        EntryValue::Name(_) => 0x536E,
        EntryValue::Language(_) => 0x22B59C,
        EntryValue::LanguageTag(_) => 0x22B59D,
        EntryValue::Compression(_, _) => 0x6D80,
        EntryValue::Other(id, _) => id,
    }
}

/// The data of a ContentCompression element.
pub open spec fn compression_bytes(c: CompressionView, w: nat) -> Seq<u8> {
    match c {
        CompressionView::Zlib => element_bytes(0x4254, w, seq![0u8]),
        CompressionView::HeaderStripping(head) => element_bytes(0x4254, w, seq![3u8])
            + element_bytes(0x4255, w, head),
    }
}

/// The data of a ContentEncodings element.
pub open spec fn encodings_bytes(c: CompressionView, w: nat) -> Seq<u8> {
    element_bytes(0x6240, w, element_bytes(0x5034, w, compression_bytes(c, w)))
}

/// The data of a child of a track entry.
pub open spec fn entry_data(v: EntryValue) -> Seq<u8> {
    match v {
        EntryValue::Number(n, k) => be_bytes(n as nat, k),
        EntryValue::Uid(n, k) => be_bytes(n as nat, k),
        EntryValue::Kind(n, k) => be_bytes(n as nat, k),
        EntryValue::Default(n, k) => be_bytes(n as nat, k),
        EntryValue::Forced(n, k) => be_bytes(n as nat, k),
        EntryValue::Codec(t) => encode_utf8(t),
        EntryValue::Name(t) => encode_utf8(t),
        EntryValue::Language(t) => encode_utf8(t),
        EntryValue::LanguageTag(t) => encode_utf8(t),
        EntryValue::Compression(c, w) => encodings_bytes(c, w),
        EntryValue::Other(_, data) => data,
    }
}

/// Whether a number can be written with `k` bytes.
pub open spec fn number_fits(n: u64, k: nat) -> bool {
    k <= 8 && n < power256(k)
}

/// Whether an identifier is none of those of a track entry's children that count.
pub open spec fn is_other_id(id: u64) -> bool {
    is_id(id) && id != 0xD7 && id != 0x73C5 && id != 0x83 && id != 0x88 && id != 0x55AA && id
        != 0x86 && id != 0x536E && id != 0x22B59C && id != 0x22B59D && id != 0x6D80
}

/// Whether a child of a track entry can be written.
pub open spec fn entry_fits(f: EntryField) -> bool {
    &&& size_fits(entry_data(f.value).len(), f.width)
    &&& match f.value {
        EntryValue::Number(n, k) => number_fits(n, k),
        EntryValue::Uid(n, k) => number_fits(n, k),
        EntryValue::Kind(n, k) => number_fits(n, k),
        EntryValue::Default(n, k) => number_fits(n, k),
        EntryValue::Forced(n, k) => number_fits(n, k),
        EntryValue::Compression(c, w) => {
            let inner = compression_bytes(c, w);
            &&& size_fits(inner.len(), w)
            &&& size_fits(element_bytes(0x5034, w, inner).len(), w)
            &&& c matches CompressionView::HeaderStripping(head) ==> size_fits(head.len(), w)
            &&& size_fits(1, w)
        },
        EntryValue::Other(id, _) => is_other_id(id),
        _ => true,
    }
}

/// The children of a track entry as they are written.
pub open spec fn entry_fields_bytes(fields: Seq<EntryField>) -> Seq<u8>
    decreases fields.len(),
{
    if fields.len() == 0 {
        Seq::empty()
    } else {
        element_bytes(entry_id(fields[0].value), fields[0].width, entry_data(fields[0].value))
            + entry_fields_bytes(fields.skip(1))
    }
}

/// What the last child says of those that say something of a kind.
pub open spec fn last_said<T>(fields: Seq<EntryField>, of: spec_fn(EntryValue) -> Option<T>) -> Option<
    T,
>
    decreases fields.len(),
{
    if fields.len() == 0 {
        None
    } else {
        match last_said(fields.skip(1), of) {
            Some(x) => Some(x),
            None => of(fields[0].value),
        }
    }
}

/// The number that the children of a track entry give.
pub open spec fn number_said(fields: Seq<EntryField>) -> Option<u64> {
    last_said(fields, |v: EntryValue| match v {
        EntryValue::Number(n, _) => Some(n),
        _ => None,
    })
}

/// The unique identifier that the children of a track entry give.
pub open spec fn uid_said(fields: Seq<EntryField>) -> Option<u64> {
    last_said(fields, |v: EntryValue| match v {
        EntryValue::Uid(n, _) => Some(n),
        _ => None,
    })
}

/// The track type that the children of a track entry give.
pub open spec fn kind_said(fields: Seq<EntryField>) -> Option<u64> {
    last_said(fields, |v: EntryValue| match v {
        EntryValue::Kind(n, _) => Some(n),
        _ => None,
    })
}

/// Whether the children of a track entry say that it is active by default: 1
/// says yes.
pub open spec fn default_said(fields: Seq<EntryField>) -> Option<bool> {
    last_said(fields, |v: EntryValue| match v {
        EntryValue::Default(n, _) => Some(n == 1),
        _ => None,
    })
}

/// Whether the children of a track entry say that it is forced: 1 says yes.
pub open spec fn forced_said(fields: Seq<EntryField>) -> Option<bool> {
    last_said(fields, |v: EntryValue| match v {
        EntryValue::Forced(n, _) => Some(n == 1),
        _ => None,
    })
}

/// The codec that the children of a track entry name.
pub open spec fn codec_said(fields: Seq<EntryField>) -> Option<Seq<char>> {
    last_said(fields, |v: EntryValue| match v {
        EntryValue::Codec(t) => Some(t),
        _ => None,
    })
}

/// The name that the children of a track entry give.
pub open spec fn name_said(fields: Seq<EntryField>) -> Option<Seq<char>> {
    last_said(fields, |v: EntryValue| match v {
        EntryValue::Name(t) => Some(t),
        _ => None,
    })
}

/// The old language code that the children of a track entry give.
pub open spec fn code_said(fields: Seq<EntryField>) -> Option<Seq<char>> {
    last_said(fields, |v: EntryValue| match v {
        EntryValue::Language(t) => Some(t),
        _ => None,
    })
}

/// The language tag that the children of a track entry give.
pub open spec fn tag_said(fields: Seq<EntryField>) -> Option<Seq<char>> {
    last_said(fields, |v: EntryValue| match v {
        EntryValue::LanguageTag(t) => Some(t),
        _ => None,
    })
}

/// The compression that the children of a track entry name.
pub open spec fn compression_said(fields: Seq<EntryField>) -> Option<CompressionView> {
    last_said(fields, |v: EntryValue| match v {
        EntryValue::Compression(c, _) => Some(c),
        _ => None,
    })
}

/// The first of two values that is there.
pub open spec fn or_else<T>(a: Option<T>, b: Option<T>) -> Option<T> {
    match a {
        Some(x) => Some(x),
        None => b,
    }
}

spec fn said_behind(f: FieldsView, fields: Seq<EntryField>) -> FieldsView {
    FieldsView {
        track_number: or_else(number_said(fields), f.track_number),
        track_uid: or_else(uid_said(fields), f.track_uid),
        track_type: or_else(kind_said(fields), f.track_type),
        codec_id: or_else(codec_said(fields), f.codec_id),
        language: or_else(code_said(fields), f.language),
        language_tag: or_else(tag_said(fields), f.language_tag),
        name: or_else(name_said(fields), f.name),
        flag_default: or_else(default_said(fields), f.flag_default),
        flag_forced: or_else(forced_said(fields), f.flag_forced),
        compression: or_else(compression_said(fields), f.compression),
    }
}

spec fn with_said(f: FieldsView, v: EntryValue) -> FieldsView {
    match v {
        EntryValue::Number(n, _) => FieldsView { track_number: Some(n), ..f },
        EntryValue::Uid(n, _) => FieldsView { track_uid: Some(n), ..f },
        EntryValue::Kind(n, _) => FieldsView { track_type: Some(n), ..f },
        EntryValue::Default(n, _) => FieldsView { flag_default: Some(n == 1), ..f },
        EntryValue::Forced(n, _) => FieldsView { flag_forced: Some(n == 1), ..f },
        EntryValue::Codec(t) => FieldsView { codec_id: Some(t), ..f },
        EntryValue::Name(t) => FieldsView { name: Some(t), ..f },
        EntryValue::Language(t) => FieldsView { language: Some(t), ..f },
        EntryValue::LanguageTag(t) => FieldsView { language_tag: Some(t), ..f },
        EntryValue::Compression(c, _) => FieldsView { compression: Some(c), ..f },
        EntryValue::Other(_, _) => f,
    }
}

proof fn lemma_said(f: FieldsView, fields: Seq<EntryField>)
    requires
        fields.len() > 0,
    ensures
        said_behind(f, fields) == said_behind(with_said(f, fields[0].value), fields.skip(1)),
{
    assert(said_behind(f, fields) =~= said_behind(
        with_said(f, fields[0].value),
        fields.skip(1),
    ));
}

#[verifier::spinoff_prover]
#[verifier::rlimit(60)]
proof fn lemma_compression(s: Seq<u8>, pos: int, c: CompressionView, w: nat)
    requires
        holds(s, pos, compression_bytes(c, w)),
        size_fits(compression_bytes(c, w).len(), w),
        size_fits(1, w),
        c matches CompressionView::HeaderStripping(head) ==> size_fits(head.len(), w),
        s.len() <= u64::MAX,
    ensures
        compression_at(s, pos, compression_bytes(c, w).len() as u64) == Ok::<
            (Option<CompressionView>, int),
            ErrorView,
        >((Some(c), pos + compression_bytes(c, w).len())),
{
    let n = compression_bytes(c, w).len();
    let end = pos + n;
    let algo = match c {
        CompressionView::Zlib => 0u8,
        CompressionView::HeaderStripping(_) => 3u8,
    };
    let first = element_bytes(0x4254, w, seq![algo]);
    let rest = match c {
        CompressionView::Zlib => Seq::<u8>::empty(),
        CompressionView::HeaderStripping(head) => element_bytes(0x4255, w, head),
    };
    assert(compression_bytes(c, w) =~= first + rest);
    lemma_holds_parts(s, pos, first, rest);
    written_element_is_read(s, pos, 0x4254, w, seq![algo]);
    let data = data_start(pos, 0x4254, w);
    assert(be_bytes(algo as nat, 1) =~= seq![algo]) by {
        reveal_with_fuel(be_bytes, 2);
    }
    assert(power256(1) == 256) by {
        reveal_with_fuel(power256, 2);
    }
    written_number_is_read(s, data, algo as u64, 1);
    let next = pos + first.len();
    if let CompressionView::HeaderStripping(head) = c {
        written_element_is_read(s, next, 0x4255, w, head);
        let at = data_start(next, 0x4255, w);
        written_data_is_read(s, at, head);
        assert(compression_from(s, end, end, (3, head)) == Ok::<_, ErrorView>(((3u64, head), end)));
        assert(compression_from(s, next, end, (3, Seq::empty())) == compression_from(
            s,
            end,
            end,
            (3, head),
        ));
    } else {
        assert(compression_from(s, end, end, (0, Seq::empty())) == Ok::<_, ErrorView>(
            ((0u64, Seq::<u8>::empty()), end),
        ));
    }
    assert(compression_from(s, pos, end, (0, Seq::empty())) == compression_from(
        s,
        next,
        end,
        (algo as u64, Seq::empty()),
    ));
}

proof fn lemma_encodings(s: Seq<u8>, pos: int, c: CompressionView, w: nat)
    requires
        holds(s, pos, encodings_bytes(c, w)),
        size_fits(compression_bytes(c, w).len(), w),
        size_fits(element_bytes(0x5034, w, compression_bytes(c, w)).len(), w),
        size_fits(1, w),
        c matches CompressionView::HeaderStripping(head) ==> size_fits(head.len(), w),
        s.len() <= u64::MAX,
    ensures
        encodings_at(s, pos, encodings_bytes(c, w).len() as u64) == Ok::<
            (Option<CompressionView>, int),
            ErrorView,
        >((Some(c), pos + encodings_bytes(c, w).len())),
{
    let inner = compression_bytes(c, w);
    let middle = element_bytes(0x5034, w, inner);
    let end = pos + encodings_bytes(c, w).len();
    written_element_is_read(s, pos, 0x6240, w, middle);
    let at = data_start(pos, 0x6240, w);
    written_element_is_read(s, at, 0x5034, w, inner);
    let data = data_start(at, 0x5034, w);
    lemma_compression(s, data, c, w);
    assert(encoding_from(s, at, at + middle.len()) == compression_at(s, data, inner.len() as u64));
    assert(encoding_at(s, at, middle.len() as u64) == compression_at(s, data, inner.len() as u64));
    assert(encodings_from(s, pos, end) == Ok::<_, ErrorView>((Some(c), end)));
}

proof fn lemma_field(s: Seq<u8>, pos: int, f: EntryField, g: FieldsView)
    requires
        entry_fits(f),
        holds(s, pos, element_bytes(entry_id(f.value), f.width, entry_data(f.value))),
        s.len() <= u64::MAX,
    ensures
        ({
            let size = entry_data(f.value).len();
            let data = data_start(pos, entry_id(f.value), f.width);
            entry_step(s, Element { id: entry_id(f.value), size: size as u64, data }, g) == Ok::<
                (FieldsView, int),
                ErrorView,
            >((with_said(g, f.value), data + size))
        }),
{
    let id = entry_id(f.value);
    let bytes = entry_data(f.value);
    written_element_is_read(s, pos, id, f.width, bytes);
    let data = data_start(pos, id, f.width);
    match f.value {
        EntryValue::Number(n, k) => {
            written_number_is_read(s, data, n, k);
        },
        EntryValue::Uid(n, k) => {
            written_number_is_read(s, data, n, k);
        },
        EntryValue::Kind(n, k) => {
            written_number_is_read(s, data, n, k);
        },
        EntryValue::Default(n, k) => {
            written_number_is_read(s, data, n, k);
        },
        EntryValue::Forced(n, k) => {
            written_number_is_read(s, data, n, k);
        },
        EntryValue::Codec(t) => {
            written_text_is_read(s, data, t);
        },
        EntryValue::Name(t) => {
            written_text_is_read(s, data, t);
        },
        EntryValue::Language(t) => {
            written_text_is_read(s, data, t);
        },
        EntryValue::LanguageTag(t) => {
            written_text_is_read(s, data, t);
        },
        EntryValue::Compression(c, w) => {
            lemma_encodings(s, data, c, w);
        },
        EntryValue::Other(_, _) => {},
    }
}

proof fn lemma_fields(s: Seq<u8>, pos: int, fields: Seq<EntryField>, g: FieldsView)
    requires
        forall|i: int| 0 <= i < fields.len() ==> entry_fits(#[trigger] fields[i]),
        holds(s, pos, entry_fields_bytes(fields)),
        s.len() <= u64::MAX,
    ensures
        ({
            let end = pos + entry_fields_bytes(fields).len();
            entry_from(s, pos, end, g) == Ok::<(FieldsView, int), ErrorView>(
                (said_behind(g, fields), end),
            )
        }),
    decreases fields.len(),
{
    let end = pos + entry_fields_bytes(fields).len();
    if fields.len() == 0 {
        assert(said_behind(g, fields) =~= g);
    } else {
        let f = fields[0];
        let rest = fields.skip(1);
        let bytes = entry_data(f.value);
        let first = element_bytes(entry_id(f.value), f.width, bytes);
        assert(entry_fits(fields[0]));
        lemma_holds_parts(s, pos, first, entry_fields_bytes(rest));
        written_element_is_read(s, pos, entry_id(f.value), f.width, bytes);
        lemma_field(s, pos, f, g);
        assert forall|i: int| 0 <= i < rest.len() implies entry_fits(#[trigger] rest[i]) by {
            assert(rest[i] == fields[i + 1]);
        }
        let h = with_said(g, f.value);
        lemma_fields(s, pos + first.len(), rest, h);
        lemma_said(g, fields);
        assert(entry_from(s, pos, end, g) == entry_from(s, pos + first.len(), end, h));
    }
}

/// Whether the children of a track entry describe a PGS track: a subtitle track
/// with its codec.
pub open spec fn says_pgs(fields: Seq<EntryField>) -> bool {
    kind_said(fields) == Some(0x11u64) && codec_said(fields) == Some("S_HDMV/PGS"@)
}

/// The language that the children of a track entry name: the tag, or else the
/// code, in its shortest form. The code "und" names none.
pub open spec fn language_said(fields: Seq<EntryField>) -> Option<Seq<char>> {
    match or_else(tag_said(fields), code_said(fields)) {
        Some(l) => if l == "und"@ {
            None
        } else {
            Some(language_normalized(l))
        },
        None => None,
    }
}

/// The track that the children of a track entry describe.
pub open spec fn track_said(fields: Seq<EntryField>) -> TrackView {
    TrackView {
        track_number: number_said(fields)->0,
        track_uid: uid_said(fields),
        language: language_said(fields),
        name: name_said(fields),
        flag_default: default_said(fields),
        flag_forced: forced_said(fields),
        compression: compression_said(fields),
    }
}

/// A track entry that is written with any children, in any order, is read back:
/// a PGS track with the last value that is given for each of its properties, and
/// no track if the entry is not one of a PGS track.
pub proof fn written_entry_is_read(s: Seq<u8>, pos: int, fields: Seq<EntryField>)
    requires
        forall|i: int| 0 <= i < fields.len() ==> entry_fits(#[trigger] fields[i]),
        holds(s, pos, entry_fields_bytes(fields)),
        says_pgs(fields) ==> number_said(fields) is Some,
        s.len() <= u64::MAX,
    ensures
        entry_at(s, pos, entry_fields_bytes(fields).len() as u64) == Ok::<
            (Option<TrackView>, int),
            ErrorView,
        >(
            (
                if says_pgs(fields) {
                    Some(track_said(fields))
                } else {
                    None
                },
                pos + entry_fields_bytes(fields).len(),
            ),
        ),
{
    lemma_fields(s, pos, fields, no_fields());
}

/// What is known about a track that is written: what its entry says of it, by
/// name.
pub proof fn written_entry_is_listed(
    fields: Seq<EntryField>,
    counts: Map<u64, u64>,
    cues: Seq<PgsCuePoint>,
)
    requires
        number_said(fields) is Some,
        number_said(fields)->0 <= u32::MAX,
    ensures
        ({
            let number = number_said(fields)->0;
            let info = mkv_info(track_said(fields), counts, Some(cues));
            let bare = mkv_info(track_said(fields), counts, None);
            &&& info.track_id == number
            &&& info.language == language_said(fields)
            &&& info.name == name_said(fields)
            &&& info.flag_default == default_said(fields)
            &&& info.flag_forced == forced_said(fields)
            &&& info.container == ContainerFormat::Matroska
            &&& info.display_set_count == match uid_said(fields) {
                Some(uid) => if counts.contains_key(uid) {
                    Some(counts[uid])
                } else {
                    None
                },
                None => None,
            }
            &&& info.has_cues == Some(
                exists|i: int| 0 <= i < cues.len() && (#[trigger] cues[i]).track_number == number,
            )
            &&& bare.has_cues == Some(false)
        }),
{
}

/// A track entry's children, with the number of bytes of the entry's size.
pub struct Entry {
    pub fields: Seq<EntryField>,
    pub width: nat,
}

/// Whether a track entry can be written, and gives a number if it is one of a PGS
/// track.
pub open spec fn is_entry(e: Entry) -> bool {
    &&& forall|i: int| 0 <= i < e.fields.len() ==> entry_fits(#[trigger] e.fields[i])
    &&& size_fits(entry_fields_bytes(e.fields).len(), e.width)
    &&& says_pgs(e.fields) ==> number_said(e.fields) is Some
}

/// Track entries as they are written.
pub open spec fn entries_bytes(entries: Seq<Entry>) -> Seq<u8>
    decreases entries.len(),
{
    if entries.len() == 0 {
        Seq::empty()
    } else {
        element_bytes(0xAE, entries[0].width, entry_fields_bytes(entries[0].fields)) + entries_bytes(
            entries.skip(1),
        )
    }
}

/// The PGS tracks that entries describe, in order.
pub open spec fn tracks_said(entries: Seq<Entry>) -> Seq<TrackView>
    decreases entries.len(),
{
    if entries.len() == 0 {
        Seq::empty()
    } else if says_pgs(entries[0].fields) {
        seq![track_said(entries[0].fields)] + tracks_said(entries.skip(1))
    } else {
        tracks_said(entries.skip(1))
    }
}

proof fn lemma_entries(s: Seq<u8>, pos: int, entries: Seq<Entry>, before: Seq<TrackView>)
    requires
        forall|i: int| 0 <= i < entries.len() ==> is_entry(#[trigger] entries[i]),
        holds(s, pos, entries_bytes(entries)),
        s.len() <= u64::MAX,
    ensures
        ({
            let end = pos + entries_bytes(entries).len();
            tracks_from(s, pos, end, before) == Ok::<(Seq<TrackView>, int), ErrorView>(
                (before + tracks_said(entries), end),
            )
        }),
    decreases entries.len(),
{
    let end = pos + entries_bytes(entries).len();
    if entries.len() == 0 {
        assert(before + tracks_said(entries) =~= before);
    } else {
        let e = entries[0];
        let rest = entries.skip(1);
        let bytes = entry_fields_bytes(e.fields);
        let first = element_bytes(0xAE, e.width, bytes);
        assert(is_entry(entries[0]));
        lemma_holds_parts(s, pos, first, entries_bytes(rest));
        written_element_is_read(s, pos, 0xAE, e.width, bytes);
        written_entry_is_read(s, data_start(pos, 0xAE, e.width), e.fields);
        assert forall|i: int| 0 <= i < rest.len() implies is_entry(#[trigger] rest[i]) by {
            assert(rest[i] == entries[i + 1]);
        }
        let more = if says_pgs(e.fields) {
            before.push(track_said(e.fields))
        } else {
            before
        };
        lemma_entries(s, pos + first.len(), rest, more);
        assert(more + tracks_said(rest) =~= before + tracks_said(entries));
        assert(tracks_from(s, pos, end, before) == tracks_from(s, pos + first.len(), end, more));
    }
}

/// A Tracks element that is written is read back: its PGS tracks, in order.
pub proof fn written_tracks_are_read(s: Seq<u8>, pos: int, entries: Seq<Entry>, width: nat)
    requires
        forall|i: int| 0 <= i < entries.len() ==> is_entry(#[trigger] entries[i]),
        size_fits(entries_bytes(entries).len(), width),
        holds(s, pos, element_bytes(0x1654AE6B, width, entries_bytes(entries))),
        s.len() <= u64::MAX,
    ensures
        tracks_at(s, pos) == Ok::<Seq<TrackView>, ErrorView>(tracks_said(entries)),
{
    let bytes = entries_bytes(entries);
    written_element_is_read(s, pos, 0x1654AE6B, width, bytes);
    lemma_entries(s, data_start(pos, 0x1654AE6B, width), entries, Seq::empty());
    assert(Seq::<TrackView>::empty() + tracks_said(entries) =~= tracks_said(entries));
}

} // verus!
