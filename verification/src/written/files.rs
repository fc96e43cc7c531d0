//! Matroska files as they are written.
use vstd::prelude::*;
use crate::ebml::vint::{element_at, id_at, Element, Vint};
use crate::ebml::written::{
    be_bytes, data_start, element_bytes, holds, id_bytes, id_width, is_id, lemma_holds_parts,
    power128, size_bytes, size_fits, written_element_is_read, written_id_is_read,
    written_size_is_read, written_text_is_read,
};
use crate::error::ErrorView;
use crate::mkv::cues::PgsCuePoint;
use crate::mkv::header::{
    default_info, doc_type_from, ebml_header_at, empty_layout, info_at, info_from, layout_from,
    located, seek_entry_at, seek_from, seek_head_from, segment_at, FloatBits, SegmentInfo,
    SegmentLayout,
};
use crate::mkv::tracks::TrackView;
use crate::mkv::{
    compressions_of, cues_of, frame_counts_of, info_of, metadata_of, numbers_of, tracks_of, uids_of,
};
use crate::written::clusters::Raw;
use crate::written::index::{
    cues_bytes, cues_said, frames_said, is_cue, is_num, is_tag, lemma_num, looked_up, num_bytes,
    tags_bytes, written_index_is_read, written_tags_are_read, Cue, Num, Tag,
};
use crate::written::tracks::{
    entries_bytes, is_entry, or_else, tracks_said, written_tracks_are_read, Entry,
};
use vstd::utf8::encode_utf8;

verus! {

/// A child of the header of a file: its document type, or another.
pub enum HeaderChild {
    DocType(Seq<char>, nat),
    Other(Raw),
}

/// A child of a header as it is written.
pub open spec fn header_child_bytes(c: HeaderChild) -> Seq<u8> {
    match c {
        HeaderChild::DocType(t, w) => element_bytes(0x4282, w, encode_utf8(t)),
        HeaderChild::Other(r) => element_bytes(r.id, r.width, r.data),
    }
}

/// Whether a child of a header can be written.
pub open spec fn is_header_child(c: HeaderChild) -> bool {
    match c {
        HeaderChild::DocType(t, w) => size_fits(encode_utf8(t).len(), w),
        HeaderChild::Other(r) => is_id(r.id) && size_fits(r.data.len(), r.width) && r.id != 0x4282,
    }
}

/// The children of a header as they are written.
pub open spec fn header_bytes(cs: Seq<HeaderChild>) -> Seq<u8>
    decreases cs.len(),
{
    if cs.len() == 0 {
        Seq::empty()
    } else {
        header_child_bytes(cs[0]) + header_bytes(cs.skip(1))
    }
}

/// The document type that a header gives: the last one, or else the given one.
pub open spec fn doc_type_said(cs: Seq<HeaderChild>, t: Seq<char>) -> Seq<char>
    decreases cs.len(),
{
    if cs.len() == 0 {
        t
    } else {
        doc_type_said(
            cs.skip(1),
            match cs[0] {
                HeaderChild::DocType(x, _) => x,
                HeaderChild::Other(_) => t,
            },
        )
    }
}

proof fn lemma_header(s: Seq<u8>, pos: int, cs: Seq<HeaderChild>, t: Seq<char>)
    requires
        forall|i: int| 0 <= i < cs.len() ==> is_header_child(#[trigger] cs[i]),
        holds(s, pos, header_bytes(cs)),
        s.len() <= u64::MAX,
    ensures
        ({
            let end = pos + header_bytes(cs).len();
            doc_type_from(s, pos, end, t) == Ok::<(Seq<char>, int), ErrorView>(
                (doc_type_said(cs, t), end),
            )
        }),
    decreases cs.len(),
{
    let end = pos + header_bytes(cs).len();
    if cs.len() > 0 {
        let c = cs[0];
        let rest = cs.skip(1);
        let one = header_child_bytes(c);
        assert(is_header_child(cs[0]));
        lemma_holds_parts(s, pos, one, header_bytes(rest));
        assert forall|i: int| 0 <= i < rest.len() implies is_header_child(#[trigger] rest[i]) by {
            assert(rest[i] == cs[i + 1]);
        }
        let next = match c {
            HeaderChild::DocType(x, _) => x,
            HeaderChild::Other(_) => t,
        };
        match c {
            HeaderChild::DocType(x, w) => {
                written_element_is_read(s, pos, 0x4282, w, encode_utf8(x));
                written_text_is_read(s, data_start(pos, 0x4282, w), x);
            },
            HeaderChild::Other(r) => {
                written_element_is_read(s, pos, r.id, r.width, r.data);
            },
        }
        lemma_header(s, pos + one.len(), rest, next);
        assert(doc_type_from(s, pos, end, t) == doc_type_from(s, pos + one.len(), end, next));
    }
}

/// A file's header that is written is read back. Only documents of the types
/// "matroska" and "webm" are taken.
pub proof fn written_header_is_read(s: Seq<u8>, pos: int, cs: Seq<HeaderChild>, width: nat)
    requires
        forall|i: int| 0 <= i < cs.len() ==> is_header_child(#[trigger] cs[i]),
        size_fits(header_bytes(cs).len(), width),
        holds(s, pos, element_bytes(0x1A45DFA3, width, header_bytes(cs))),
        s.len() <= u64::MAX,
    ensures
        ({
            let t = doc_type_said(cs, Seq::empty());
            let next = pos + element_bytes(0x1A45DFA3, width, header_bytes(cs)).len();
            if t == "matroska"@ || t == "webm"@ {
                ebml_header_at(s, pos) == Ok::<(Seq<char>, int), ErrorView>((t, next))
            } else {
                ebml_header_at(s, pos) is Err
            }
        }),
{
    written_element_is_read(s, pos, 0x1A45DFA3, width, header_bytes(cs));
    lemma_header(s, data_start(pos, 0x1A45DFA3, width), cs, Seq::empty());
    reveal_strlit("matroska");
    reveal_strlit("webm");
    assert("matroska"@.len() == 8 && "webm"@.len() == 4);
}

/// A child of an Info element. A duration is the bits of a number of four or
/// eight bytes.
pub enum InfoChild {
    Scale(Num),
    Single(u32, nat),
    Double(u64, nat),
    Other(Raw),
}

/// A child of an Info element as it is written.
pub open spec fn info_child_bytes(c: InfoChild) -> Seq<u8> {
    match c {
        InfoChild::Scale(n) => num_bytes(0x2AD7B1, n),
        InfoChild::Single(b, w) => element_bytes(0x4489, w, be_bytes(b as nat, 4)),
        InfoChild::Double(b, w) => element_bytes(0x4489, w, be_bytes(b as nat, 8)),
        InfoChild::Other(r) => element_bytes(r.id, r.width, r.data),
    }
}

/// Whether a child of an Info element can be written.
pub open spec fn is_info_child(c: InfoChild) -> bool {
    match c {
        InfoChild::Scale(n) => is_num(n),
        InfoChild::Single(_, w) => size_fits(4, w),
        InfoChild::Double(_, w) => size_fits(8, w),
        InfoChild::Other(r) => is_id(r.id) && size_fits(r.data.len(), r.width) && r.id != 0x2AD7B1
            && r.id != 0x4489,
    }
}

/// The children of an Info element as they are written.
pub open spec fn info_bytes(cs: Seq<InfoChild>) -> Seq<u8>
    decreases cs.len(),
{
    if cs.len() == 0 {
        Seq::empty()
    } else {
        info_child_bytes(cs[0]) + info_bytes(cs.skip(1))
    }
}

/// The timestamp scale that an Info element gives: the last one, or else the
/// given one.
pub open spec fn scale_said(cs: Seq<InfoChild>, scale: u64) -> u64
    decreases cs.len(),
{
    if cs.len() == 0 {
        scale
    } else {
        scale_said(
            cs.skip(1),
            match cs[0] {
                InfoChild::Scale(n) => n.v,
                _ => scale,
            },
        )
    }
}

/// The duration that an Info element gives: the last one, or else the given one.
pub open spec fn duration_said(cs: Seq<InfoChild>, d: Option<FloatBits>) -> Option<FloatBits>
    decreases cs.len(),
{
    if cs.len() == 0 {
        d
    } else {
        duration_said(
            cs.skip(1),
            match cs[0] {
                InfoChild::Single(b, _) => Some(FloatBits::Single(b)),
                InfoChild::Double(b, _) => Some(FloatBits::Double(b)),
                _ => d,
            },
        )
    }
}

#[verifier::spinoff_prover]
#[verifier::rlimit(60)]
proof fn lemma_info(s: Seq<u8>, pos: int, cs: Seq<InfoChild>, info: SegmentInfo)
    requires
        forall|i: int| 0 <= i < cs.len() ==> is_info_child(#[trigger] cs[i]),
        holds(s, pos, info_bytes(cs)),
        s.len() <= u64::MAX,
    ensures
        ({
            let end = pos + info_bytes(cs).len();
            info_from(s, pos, end, info) == Ok::<(SegmentInfo, int), ErrorView>(
                (
                    SegmentInfo {
                        timestamp_scale: scale_said(cs, info.timestamp_scale),
                        duration: duration_said(cs, info.duration),
                    },
                    end,
                ),
            )
        }),
    decreases cs.len(),
{
    let end = pos + info_bytes(cs).len();
    if cs.len() > 0 {
        let c = cs[0];
        let rest = cs.skip(1);
        let one = info_child_bytes(c);
        assert(is_info_child(cs[0]));
        lemma_holds_parts(s, pos, one, info_bytes(rest));
        assert forall|i: int| 0 <= i < rest.len() implies is_info_child(#[trigger] rest[i]) by {
            assert(rest[i] == cs[i + 1]);
        }
        let next = match c {
            InfoChild::Scale(n) => SegmentInfo { timestamp_scale: n.v, ..info },
            InfoChild::Single(b, _) => SegmentInfo {
                duration: Some(FloatBits::Single(b)),
                ..info
            },
            InfoChild::Double(b, _) => SegmentInfo {
                duration: Some(FloatBits::Double(b)),
                ..info
            },
            InfoChild::Other(_) => info,
        };
        match c {
            InfoChild::Scale(n) => {
                lemma_num(s, pos, 0x2AD7B1, n);
            },
            InfoChild::Single(b, w) => {
                assert(crate::ebml::written::power256(4) == 0x1_0000_0000) by {
                    reveal_with_fuel(crate::ebml::written::power256, 5);
                }
                lemma_num(s, pos, 0x4489, Num { v: b as u64, k: 4, w });
            },
            InfoChild::Double(b, w) => {
                assert(crate::ebml::written::power256(8) == 0x1_0000_0000_0000_0000) by {
                    reveal_with_fuel(crate::ebml::written::power256, 9);
                }
                lemma_num(s, pos, 0x4489, Num { v: b, k: 8, w });
            },
            InfoChild::Other(r) => {
                written_element_is_read(s, pos, r.id, r.width, r.data);
            },
        }
        lemma_info(s, pos + one.len(), rest, next);
        assert(info_from(s, pos, end, info) == info_from(s, pos + one.len(), end, next));
    }
}

/// An Info element that is written is read back: its timestamp scale, a million
/// unless it gives one, and its duration.
pub proof fn written_info_is_read(s: Seq<u8>, pos: int, cs: Seq<InfoChild>, width: nat)
    requires
        forall|i: int| 0 <= i < cs.len() ==> is_info_child(#[trigger] cs[i]),
        size_fits(info_bytes(cs).len(), width),
        holds(s, pos, element_bytes(0x1549A966, width, info_bytes(cs))),
        s.len() <= u64::MAX,
    ensures
        info_at(s, pos) == Ok::<SegmentInfo, ErrorView>(
            SegmentInfo {
                timestamp_scale: scale_said(cs, 1_000_000),
                duration: duration_said(cs, None),
            },
        ),
{
    written_element_is_read(s, pos, 0x1549A966, width, info_bytes(cs));
    lemma_info(s, data_start(pos, 0x1549A966, width), cs, default_info());
}

/// What an entry of a SeekHead says: an element's identifier, in a number of
/// bytes, and its place, counted from the start of the segment's data.
pub struct SeekEntry {
    pub id: Num,
    pub place: Num,
    pub width: nat,
}

/// An entry of a SeekHead as it is written.
pub open spec fn seek_bytes(e: SeekEntry) -> Seq<u8> {
    num_bytes(0x53AB, e.id) + num_bytes(0x53AC, e.place)
}

/// Whether an entry of a SeekHead can be written and followed.
pub open spec fn is_seek(e: SeekEntry, base: u64) -> bool {
    is_num(e.id) && is_num(e.place) && size_fits(seek_bytes(e).len(), e.width) && base + e.place.v
        <= u64::MAX
}

/// The entries of a SeekHead as they are written.
pub open spec fn seeks_bytes(es: Seq<SeekEntry>) -> Seq<u8>
    decreases es.len(),
{
    if es.len() == 0 {
        Seq::empty()
    } else {
        element_bytes(0x4DBB, es[0].width, seek_bytes(es[0])) + seeks_bytes(es.skip(1))
    }
}

/// The place that the first of the entries for an element gives.
pub open spec fn seek_said(es: Seq<SeekEntry>, id: u64, base: u64) -> Option<u64>
    decreases es.len(),
{
    if es.len() == 0 {
        None
    } else if es[0].id.v == id {
        Some((base + es[0].place.v) as u64)
    } else {
        seek_said(es.skip(1), id, base)
    }
}

/// A child of a segment in front of its clusters.
pub enum SegmentChild {
    SeekHead { entries: Seq<SeekEntry>, width: nat },
    Element(Raw),
}

/// A child of a segment as it is written.
pub open spec fn segment_child_bytes(c: SegmentChild) -> Seq<u8> {
    match c {
        SegmentChild::SeekHead { entries, width } => element_bytes(
            0x114D9B74,
            width,
            seeks_bytes(entries),
        ),
        SegmentChild::Element(r) => element_bytes(r.id, r.width, r.data),
    }
}

/// Whether a child of a segment can be written.
pub open spec fn is_segment_child(c: SegmentChild, base: u64) -> bool {
    match c {
        SegmentChild::SeekHead { entries, width } => {
            &&& forall|i: int| 0 <= i < entries.len() ==> is_seek(#[trigger] entries[i], base)
            &&& size_fits(seeks_bytes(entries).len(), width)
        },
        SegmentChild::Element(r) => is_id(r.id) && size_fits(r.data.len(), r.width) && r.id
            != 0x114D9B74 && r.id != 0x1F43B675,
    }
}

/// The children of a segment in front of its clusters, as they are written.
pub open spec fn segment_children_bytes(cs: Seq<SegmentChild>) -> Seq<u8>
    decreases cs.len(),
{
    if cs.len() == 0 {
        Seq::empty()
    } else {
        segment_child_bytes(cs[0]) + segment_children_bytes(cs.skip(1))
    }
}

/// The place of an element in a segment whose children start at `pos`: the first
/// that an entry gives, or at which the element is.
pub open spec fn place_said(cs: Seq<SegmentChild>, id: u64, base: u64, pos: int) -> Option<u64>
    decreases cs.len(),
{
    if cs.len() == 0 {
        None
    } else {
        let rest = place_said(
            cs.skip(1),
            id,
            base,
            pos + segment_child_bytes(cs[0]).len(),
        );
        match cs[0] {
            SegmentChild::SeekHead { entries, .. } => or_else(seek_said(entries, id, base), rest),
            SegmentChild::Element(r) => if r.id == id {
                Some(pos as u64)
            } else {
                rest
            },
        }
    }
}

spec fn found_behind(l: SegmentLayout, f: spec_fn(u64) -> Option<u64>) -> SegmentLayout {
    SegmentLayout {
        segment_data_start: l.segment_data_start,
        tracks_position: or_else(l.tracks_position, f(0x1654AE6B)),
        cues_position: or_else(l.cues_position, f(0x1C53BB6B)),
        info_position: or_else(l.info_position, f(0x1549A966)),
        tags_position: or_else(l.tags_position, f(0x1254C367)),
        first_cluster_position: or_else(l.first_cluster_position, f(0x1F43B675)),
        segment_data_end: l.segment_data_end,
    }
}

proof fn lemma_seek(s: Seq<u8>, pos: int, e: SeekEntry, l: SegmentLayout)
    requires
        is_seek(e, l.segment_data_start),
        holds(s, pos, seek_bytes(e)),
        s.len() <= u64::MAX,
    ensures
        seek_entry_at(s, pos, seek_bytes(e).len() as u64, l) == Ok::<
            (SegmentLayout, int),
            ErrorView,
        >(
            (
                located(l, e.id.v, (l.segment_data_start + e.place.v) as u64),
                pos + seek_bytes(e).len(),
            ),
        ),
{
    let end = pos + seek_bytes(e).len();
    let first = num_bytes(0x53AB, e.id);
    lemma_holds_parts(s, pos, first, num_bytes(0x53AC, e.place));
    let at = pos + first.len();
    lemma_num(s, pos, 0x53AB, e.id);
    lemma_num(s, at, 0x53AC, e.place);
    let all = (Some(e.id.v), Some(e.place.v));
    assert(seek_from(s, end, end, all) == Ok::<_, ErrorView>((all, end)));
    assert(seek_from(s, at, end, (Some(e.id.v), None)) == seek_from(s, end, end, all));
    assert(seek_from(s, pos, end, (None, None)) == seek_from(s, at, end, (Some(e.id.v), None)));
}

proof fn lemma_seeks(s: Seq<u8>, pos: int, es: Seq<SeekEntry>, l: SegmentLayout)
    requires
        forall|i: int| 0 <= i < es.len() ==> is_seek(#[trigger] es[i], l.segment_data_start),
        holds(s, pos, seeks_bytes(es)),
        s.len() <= u64::MAX,
    ensures
        ({
            let end = pos + seeks_bytes(es).len();
            seek_head_from(s, pos, end, l) == Ok::<(SegmentLayout, int), ErrorView>(
                (found_behind(l, |id: u64| seek_said(es, id, l.segment_data_start)), end),
            )
        }),
    decreases es.len(),
{
    let end = pos + seeks_bytes(es).len();
    let base = l.segment_data_start;
    if es.len() == 0 {
        assert(found_behind(l, |id: u64| seek_said(es, id, base)) == l);
    } else {
        let e = es[0];
        let rest = es.skip(1);
        let one = element_bytes(0x4DBB, e.width, seek_bytes(e));
        assert(is_seek(es[0], base));
        lemma_holds_parts(s, pos, one, seeks_bytes(rest));
        written_element_is_read(s, pos, 0x4DBB, e.width, seek_bytes(e));
        lemma_seek(s, data_start(pos, 0x4DBB, e.width), e, l);
        assert forall|i: int| 0 <= i < rest.len() implies is_seek(#[trigger] rest[i], base) by {
            assert(rest[i] == es[i + 1]);
        }
        let m = located(l, e.id.v, (base + e.place.v) as u64);
        lemma_seeks(s, pos + one.len(), rest, m);
        assert(seek_head_from(s, pos, end, l) == seek_head_from(s, pos + one.len(), end, m));
        assert(found_behind(m, |id: u64| seek_said(rest, id, m.segment_data_start))
            == found_behind(l, |id: u64| seek_said(es, id, base)));
    }
}

proof fn lemma_segment(
    s: Seq<u8>,
    pos: int,
    cs: Seq<SegmentChild>,
    l: SegmentLayout,
)
    requires
        forall|i: int|
            0 <= i < cs.len() ==> is_segment_child(#[trigger] cs[i], l.segment_data_start),
        holds(s, pos, segment_children_bytes(cs)),
        pos + segment_children_bytes(cs).len() < l.segment_data_end,
        s.len() <= u64::MAX,
    ensures
        layout_from(s, pos, l) == layout_from(
            s,
            pos + segment_children_bytes(cs).len(),
            found_behind(l, |id: u64| place_said(cs, id, l.segment_data_start, pos)),
        ),
    decreases cs.len(),
{
    let base = l.segment_data_start;
    if cs.len() == 0 {
        assert(found_behind(l, |id: u64| place_said(cs, id, base, pos)) == l);
    } else {
        let c = cs[0];
        let rest = cs.skip(1);
        let one = segment_child_bytes(c);
        assert(is_segment_child(cs[0], base));
        lemma_holds_parts(s, pos, one, segment_children_bytes(rest));
        assert forall|i: int| 0 <= i < rest.len() implies is_segment_child(
            #[trigger] rest[i],
            base,
        ) by {
            assert(rest[i] == cs[i + 1]);
        }
        let next = pos + one.len();
        match c {
            SegmentChild::SeekHead { entries, width } => {
                written_element_is_read(s, pos, 0x114D9B74, width, seeks_bytes(entries));
                lemma_seeks(s, data_start(pos, 0x114D9B74, width), entries, l);
                let m = found_behind(l, |id: u64| seek_said(entries, id, base));
                lemma_segment(s, next, rest, m);
                assert(layout_from(s, pos, l) == layout_from(s, next, m));
                assert(found_behind(m, |id: u64| place_said(rest, id, base, next))
                    == found_behind(l, |id: u64| place_said(cs, id, base, pos)));
            },
            SegmentChild::Element(r) => {
                written_element_is_read(s, pos, r.id, r.width, r.data);
                let m = located(l, r.id, pos as u64);
                lemma_segment(s, next, rest, m);
                lemma_sizes(r.data.len(), r.width);
                assert(layout_from(s, pos, l) == layout_from(s, next, m));
                assert(found_behind(m, |id: u64| place_said(rest, id, base, next))
                    == found_behind(l, |id: u64| place_said(cs, id, base, pos)));
            },
        }
    }
}

proof fn lemma_sizes(n: nat, w: nat)
    requires
        size_fits(n, w),
    ensures
        n < u64::MAX,
{
    reveal_with_fuel(power128, 9);
}

/// The start of an element with a size of `w` bytes, which may be unknown.
pub open spec fn opening_bytes(id: u64, w: nat, size: Option<nat>) -> Seq<u8> {
    id_bytes(id) + size_bytes(
        match size {
            Some(n) => n,
            None => (power128(w) - 1) as nat,
        },
        w,
    )
}

/// Whether a size can be written.
pub open spec fn opening_fits(w: nat, size: Option<nat>) -> bool {
    1 <= w <= 8 && (size matches Some(n) ==> size_fits(n, w))
}

proof fn lemma_opening(s: Seq<u8>, pos: int, id: u64, w: nat, size: Option<nat>)
    requires
        is_id(id),
        opening_fits(w, size),
        holds(s, pos, opening_bytes(id, w, size)),
    ensures
        id_at(s, pos) == Some(Vint { value: id, width: id_width(id) as u8 }),
        element_at(s, pos) == Some(
            Element {
                id,
                size: match size {
                    Some(n) => n as u64,
                    None => u64::MAX,
                },
                data: data_start(pos, id, w),
            },
        ),
        opening_bytes(id, w, size).len() == id_width(id) + w,
        size matches Some(n) ==> n < u64::MAX,
{
    let n = match size {
        Some(n) => n,
        None => (power128(w) - 1) as nat,
    };
    assert(power128(w) > 1) by {
        reveal_with_fuel(power128, 9);
    }
    lemma_holds_parts(s, pos, id_bytes(id), size_bytes(n, w));
    written_id_is_read(s, pos, id);
    written_size_is_read(s, pos + id_width(id), n, w);
    if size is Some {
        lemma_sizes(n, w);
    }
}

/// A segment whose first cluster is behind other children is read back: where its
/// data is, and the place of each main element, which is the first that an entry
/// gives or at which the element is. The size of the segment and that of the
/// cluster may be unknown.
pub proof fn written_segment_is_read(
    s: Seq<u8>,
    pos: int,
    width: nat,
    size: Option<nat>,
    cs: Seq<SegmentChild>,
    cluster_width: nat,
    cluster_size: Option<nat>,
)
    requires
        opening_fits(width, size),
        opening_fits(cluster_width, cluster_size),
        holds(
            s,
            pos,
            opening_bytes(0x18538067, width, size) + (segment_children_bytes(cs) + opening_bytes(
                0x1F43B675,
                cluster_width,
                cluster_size,
            )),
        ),
        size matches Some(n) ==> segment_children_bytes(cs).len() < n && pos + 4 + width + n
            <= u64::MAX,
        forall|i: int|
            0 <= i < cs.len() ==> is_segment_child(#[trigger] cs[i], (pos + 4 + width) as u64),
        s.len() < u64::MAX,
    ensures
        ({
            let data = pos + 4 + width;
            let base = data as u64;
            segment_at(s, pos) matches Ok(l) && l.segment_data_start == data && l.segment_data_end
                == match size {
                Some(n) => (data + n) as u64,
                None => u64::MAX,
            } && l.tracks_position == place_said(cs, 0x1654AE6B, base, data) && l.cues_position
                == place_said(cs, 0x1C53BB6B, base, data) && l.info_position == place_said(
                cs,
                0x1549A966,
                base,
                data,
            ) && l.tags_position == place_said(cs, 0x1254C367, base, data)
                && l.first_cluster_position == or_else(
                place_said(cs, 0x1F43B675, base, data),
                Some((data + segment_children_bytes(cs).len()) as u64),
            )
        }),
{
    let data = pos + 4 + width;
    let base = data as u64;
    let head = opening_bytes(0x18538067, width, size);
    let cluster = opening_bytes(0x1F43B675, cluster_width, cluster_size);
    let inner = segment_children_bytes(cs);
    lemma_holds_parts(s, pos, head, inner + cluster);
    lemma_opening(s, pos, 0x18538067, width, size);
    lemma_holds_parts(s, data, inner, cluster);
    let at = data + inner.len();
    lemma_opening(s, at, 0x1F43B675, cluster_width, cluster_size);
    let end = match size {
        Some(n) => (data + n) as u64,
        None => u64::MAX,
    };
    let l = empty_layout(base, end);
    lemma_segment(s, data, cs, l);
    let m = found_behind(l, |id: u64| place_said(cs, id, base, data));
    assert(layout_from(s, data, l) == layout_from(s, at, m));
    assert(layout_from(s, at, m) == Ok::<_, ErrorView>(located(m, 0x1F43B675, at as u64)));
}

/// A Matroska file: its header, the size of its segment, the segment's children in
/// front of its first cluster, and what main elements among them hold.
pub struct WrittenFile {
    pub header: Seq<HeaderChild>,
    pub header_width: nat,
    pub width: nat,
    pub size: Option<nat>,
    pub children: Seq<SegmentChild>,
    pub cluster_width: nat,
    pub cluster_size: Option<nat>,
    pub entries: Seq<Entry>,
    pub tracks_width: nat,
    pub info: Seq<InfoChild>,
    pub info_width: nat,
    pub cues: Option<(Seq<Cue>, nat)>,
    pub tags: Option<(Seq<Tag>, nat)>,
}

impl WrittenFile {
    /// Where the segment is.
    pub open spec fn segment(self) -> int {
        element_bytes(0x1A45DFA3, self.header_width, header_bytes(self.header)).len() as int
    }

    /// Where the segment's data starts.
    pub open spec fn data(self) -> int {
        self.segment() + 4 + self.width
    }

    /// The place of an element of the segment.
    pub open spec fn place(self, id: u64) -> Option<u64> {
        place_said(self.children, id, self.data() as u64, self.data())
    }

    /// The numbers of the PGS tracks.
    pub open spec fn numbers(self) -> Seq<u64> {
        let tracks = tracks_said(self.entries);
        Seq::new(tracks.len(), |i: int| tracks[i].track_number)
    }

    /// Whether the file starts with a header and a segment up to a cluster.
    pub open spec fn starts(self, s: Seq<u8>) -> bool {
        &&& s.len() < u64::MAX
        &&& forall|i: int| 0 <= i < self.header.len() ==> is_header_child(#[trigger] self.header[i])
        &&& size_fits(header_bytes(self.header).len(), self.header_width)
        &&& doc_type_said(self.header, Seq::empty()) == "matroska"@ || doc_type_said(
            self.header,
            Seq::empty(),
        ) == "webm"@
        &&& holds(s, 0, element_bytes(0x1A45DFA3, self.header_width, header_bytes(self.header)))
        &&& opening_fits(self.width, self.size)
        &&& opening_fits(self.cluster_width, self.cluster_size)
        &&& holds(
            s,
            self.segment(),
            opening_bytes(0x18538067, self.width, self.size) + (segment_children_bytes(
                self.children,
            ) + opening_bytes(0x1F43B675, self.cluster_width, self.cluster_size)),
        )
        &&& self.size matches Some(n) ==> segment_children_bytes(self.children).len() < n
            && self.data() + n <= u64::MAX
        &&& forall|i: int|
            0 <= i < self.children.len() ==> is_segment_child(
                #[trigger] self.children[i],
                self.data() as u64,
            )
    }

    /// Whether the file has its tracks where they are to be found.
    pub open spec fn has_tracks(self, s: Seq<u8>) -> bool {
        &&& self.place(0x1654AE6B) matches Some(at) && holds(
            s,
            at as int,
            element_bytes(0x1654AE6B, self.tracks_width, entries_bytes(self.entries)),
        )
        &&& forall|i: int| 0 <= i < self.entries.len() ==> is_entry(#[trigger] self.entries[i])
        &&& size_fits(entries_bytes(self.entries).len(), self.tracks_width)
        &&& tracks_said(self.entries).len() > 0
    }

    /// Whether the file has its information where it is to be found.
    pub open spec fn has_info(self, s: Seq<u8>) -> bool {
        &&& self.place(0x1549A966) matches Some(at) && holds(
            s,
            at as int,
            element_bytes(0x1549A966, self.info_width, info_bytes(self.info)),
        )
        &&& forall|i: int| 0 <= i < self.info.len() ==> is_info_child(#[trigger] self.info[i])
        &&& size_fits(info_bytes(self.info).len(), self.info_width)
    }

    /// Whether the file has its index where it is to be found, if it has one.
    pub open spec fn has_cues(self, s: Seq<u8>) -> bool {
        match self.cues {
            Some((list, w)) => {
                &&& self.place(0x1C53BB6B) matches Some(at) && holds(
                    s,
                    at as int,
                    element_bytes(0x1C53BB6B, w, cues_bytes(list)),
                )
                &&& forall|i: int|
                    0 <= i < list.len() ==> is_cue(#[trigger] list[i], self.data() as u64)
                &&& size_fits(cues_bytes(list).len(), w)
            },
            None => self.place(0x1C53BB6B) is None,
        }
    }

    /// Whether the file has its tags where they are to be found, if it has any.
    pub open spec fn has_tags(self, s: Seq<u8>) -> bool {
        match self.tags {
            Some((list, w)) => {
                &&& self.place(0x1254C367) matches Some(at) && holds(
                    s,
                    at as int,
                    element_bytes(0x1254C367, w, tags_bytes(list)),
                )
                &&& forall|i: int| 0 <= i < list.len() ==> is_tag(#[trigger] list[i])
                &&& size_fits(tags_bytes(list).len(), w)
            },
            None => self.place(0x1254C367) is None,
        }
    }
}

/// The layout of a file that is written.
spec fn layout_fits(l: SegmentLayout, f: WrittenFile) -> bool {
    &&& l.segment_data_start == f.data()
    &&& l.tracks_position == f.place(0x1654AE6B)
    &&& l.info_position == f.place(0x1549A966)
    &&& l.cues_position == f.place(0x1C53BB6B)
    &&& l.tags_position == f.place(0x1254C367)
}

proof fn lemma_start(s: Seq<u8>, f: WrittenFile)
    requires
        f.starts(s),
        f.has_tracks(s),
    ensures
        tracks_of(s) matches Ok((l, tracks)) && layout_fits(l, f) && tracks == tracks_said(
            f.entries,
        ),
{
    written_header_is_read(s, 0, f.header, f.header_width);
    written_segment_is_read(
        s,
        f.segment(),
        f.width,
        f.size,
        f.children,
        f.cluster_width,
        f.cluster_size,
    );
    let at = f.place(0x1654AE6B)->0;
    written_tracks_are_read(s, at as int, f.entries, f.tracks_width);
}

proof fn lemma_info_of(s: Seq<u8>, f: WrittenFile, l: SegmentLayout)
    requires
        s.len() < u64::MAX,
        layout_fits(l, f),
        f.has_info(s),
    ensures
        info_of(s, l) == Ok::<SegmentInfo, ErrorView>(
            SegmentInfo {
                timestamp_scale: scale_said(f.info, 1_000_000),
                duration: duration_said(f.info, None),
            },
        ),
{
    let at = f.place(0x1549A966)->0;
    written_info_is_read(s, at as int, f.info, f.info_width);
}

/// The index entries of a file that is written.
pub open spec fn file_cues(f: WrittenFile) -> Option<Seq<PgsCuePoint>> {
    match f.cues {
        Some((list, _)) => {
            let found = cues_said(list, f.data() as u64, f.numbers());
            if found.len() > 0 {
                Some(found)
            } else {
                None
            }
        },
        None => None,
    }
}

proof fn lemma_cues_of(s: Seq<u8>, f: WrittenFile, l: SegmentLayout)
    requires
        s.len() < u64::MAX,
        layout_fits(l, f),
        f.has_cues(s),
    ensures
        cues_of(s, l, f.numbers()) == Ok::<Option<Seq<PgsCuePoint>>, ErrorView>(file_cues(f)),
{
    if let Some((list, w)) = f.cues {
        let at = f.place(0x1C53BB6B)->0;
        written_index_is_read(s, at as int, list, w, f.data() as u64, f.numbers());
    }
}

/// The frame count of a track of a file that is written.
pub open spec fn file_frames(f: WrittenFile, uid: u64) -> Option<u64> {
    match f.tags {
        Some((list, _)) => if is_uid(tracks_said(f.entries), uid) {
            frames_said(list, uid, None)
        } else {
            None
        },
        None => None,
    }
}

proof fn lemma_counts_of(s: Seq<u8>, f: WrittenFile, l: SegmentLayout, uid: u64)
    requires
        s.len() < u64::MAX,
        layout_fits(l, f),
        f.has_tags(s),
    ensures
        looked_up(frame_counts_of(s, l, uids_of(tracks_said(f.entries))), uid) == file_frames(
            f,
            uid,
        ),
{
    let uids = uids_of(tracks_said(f.entries));
    lemma_uids(tracks_said(f.entries), uid);
    if let Some((list, w)) = f.tags {
        let at = f.place(0x1254C367)->0;
        written_tags_are_read(s, at as int, list, w, uids, uid);
        if uids.len() == 0 {
            assert(!uids.contains(uid));
        }
    }
}

/// A Matroska file that is written is opened: its tracks, the numbers and
/// compressions of the tracks, its timestamp scale and duration, the index
/// entries of its tracks and the frame counts of its tags are those that it was
/// written with.
pub proof fn written_file_is_opened(s: Seq<u8>, f: WrittenFile, uid: u64)
    requires
        f.starts(s),
        f.has_tracks(s),
        f.has_info(s),
        f.has_cues(s),
        f.has_tags(s),
    ensures
        metadata_of(s) matches Ok(m) && m.pgs_tracks == tracks_said(f.entries)
            && m.pgs_track_numbers == f.numbers() && m.timestamp_scale == scale_said(
            f.info,
            1_000_000,
        ) && m.duration == duration_said(f.info, None) && m.cue_points == file_cues(f)
            && looked_up(m.frame_counts, uid) == file_frames(f, uid) && m.compression_map
            == compressions_of(tracks_said(f.entries)),
{
    lemma_start(s, f);
    let l = tracks_of(s)->Ok_0.0;
    lemma_info_of(s, f, l);
    lemma_cues_of(s, f, l);
    lemma_counts_of(s, f, l, uid);
    assert(numbers_of(tracks_said(f.entries)) =~= f.numbers());
}

/// Where tracks have different numbers, the compression under a number is that of
/// the track with the number.
pub proof fn compressions_are_by_number(tracks: Seq<TrackView>, k: int)
    requires
        0 <= k < tracks.len(),
        forall|i: int, j: int|
            0 <= i < j < tracks.len() ==> tracks[i].track_number != tracks[j].track_number,
    ensures
        match tracks[k].compression {
            Some(c) => compressions_of(tracks).contains_key(tracks[k].track_number)
                && compressions_of(tracks)[tracks[k].track_number] == c,
            None => !compressions_of(tracks).contains_key(tracks[k].track_number),
        },
    decreases tracks.len(),
{
    let init = tracks.drop_last();
    if k < init.len() {
        compressions_are_by_number(init, k);
        assert(init[k] == tracks[k]);
        assert(tracks[k].track_number != tracks[tracks.len() - 1].track_number);
    } else {
        lemma_no_compression(init, tracks[k].track_number);
    }
}

proof fn lemma_no_compression(tracks: Seq<TrackView>, number: u64)
    requires
        forall|i: int| 0 <= i < tracks.len() ==> (#[trigger] tracks[i]).track_number != number,
    ensures
        !compressions_of(tracks).contains_key(number),
    decreases tracks.len(),
{
    if tracks.len() > 0 {
        let init = tracks.drop_last();
        assert forall|i: int| 0 <= i < init.len() implies (#[trigger] init[i]).track_number
            != number by {
            assert(init[i] == tracks[i]);
        }
        lemma_no_compression(init, number);
        assert(tracks[tracks.len() - 1].track_number != number);
    }
}

/// Whether an identifier is that of one of the tracks.
pub open spec fn is_uid(tracks: Seq<TrackView>, uid: u64) -> bool {
    exists|i: int| 0 <= i < tracks.len() && (#[trigger] tracks[i]).track_uid == Some(uid)
}

proof fn lemma_uids(tracks: Seq<TrackView>, uid: u64)
    ensures
        uids_of(tracks).contains(uid) == is_uid(tracks, uid),
    decreases tracks.len(),
{
    if tracks.len() > 0 {
        let init = tracks.drop_last();
        let before = uids_of(init);
        lemma_uids(init, uid);
        if is_uid(init, uid) {
            let i = choose|i: int|
                0 <= i < init.len() && (#[trigger] init[i]).track_uid == Some(uid);
            assert(tracks[i].track_uid == Some(uid));
        }
        if let Some(u) = tracks.last().track_uid {
            assert(before.push(u).contains(uid) == (before.contains(uid) || u == uid)) by {
                if before.contains(uid) {
                    let k = choose|k: int| 0 <= k < before.len() && before[k] == uid;
                    assert(before.push(u)[k] == uid);
                }
                assert(before.push(u)[before.len() as int] == u);
            }
            if u == uid {
                assert(tracks[tracks.len() - 1].track_uid == Some(uid));
            }
        }
        if is_uid(tracks, uid) && !is_uid(init, uid) {
            let i = choose|i: int|
                0 <= i < tracks.len() && (#[trigger] tracks[i]).track_uid == Some(uid);
            if i < init.len() {
                assert(init[i].track_uid == Some(uid));
            }
        }
    }
}

} // verus!
