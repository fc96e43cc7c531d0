//! Index entries and tags as they are written.
use vstd::prelude::*;
use crate::ebml::vint::Element;
use crate::ebml::written::{
    be_bytes, bytes_spell_their_number, data_start, element_bytes, holds, is_id, lemma_holds_parts,
    size_fits, written_element_is_read, written_number_is_read, written_text_is_read,
};
use crate::error::ErrorView;
use crate::mkv::cues::{
    cue_at, cue_from, cues_at, cues_from, no_positions, positions_from, CueFields, PgsCuePoint,
    TrackPositions,
};
use crate::mkv::tags::{
    counted_for, simple_tag_at, simple_tag_from, tag_at, tag_from, tags_at, tags_from, targets_from,
};
use crate::text::{parsed_u64, trimmed};
use crate::written::clusters::Raw;
use crate::written::tracks::number_fits;
use vstd::utf8::encode_utf8;

verus! {

/// A number, with the number of its bytes and that of its size's.
pub struct Num {
    pub v: u64,
    pub k: nat,
    pub w: nat,
}

/// Whether a number can be written.
pub open spec fn is_num(n: Num) -> bool {
    number_fits(n.v, n.k) && size_fits(n.k, n.w)
}

/// An element that holds a number.
pub open spec fn num_bytes(id: u64, n: Num) -> Seq<u8> {
    element_bytes(id, n.w, be_bytes(n.v as nat, n.k))
}

pub(crate) proof fn lemma_num(s: Seq<u8>, pos: int, id: u64, n: Num)
    requires
        is_id(id),
        is_num(n),
        holds(s, pos, num_bytes(id, n)),
    ensures
        crate::ebml::vint::element_at(s, pos) == Some(
            Element { id, size: n.k as u64, data: data_start(pos, id, n.w) },
        ),
        crate::ebml::children::uint_at(s, data_start(pos, id, n.w), n.k as u64) == Ok::<
            u64,
            ErrorView,
        >(n.v),
        pos + num_bytes(id, n).len() == data_start(pos, id, n.w) + n.k,
        pos < data_start(pos, id, n.w) <= s.len(),
        data_start(pos, id, n.w) + n.k <= s.len(),
{
    bytes_spell_their_number(n.v as nat, n.k);
    written_element_is_read(s, pos, id, n.w, be_bytes(n.v as nat, n.k));
    written_number_is_read(s, data_start(pos, id, n.w), n.v, n.k);
}

/// A child of an entry's track positions.
pub enum PositionChild {
    Track(Num),
    Cluster(Num),
    Relative(Num),
    Other(Raw),
}

/// A child of track positions as it is written.
pub open spec fn position_bytes(c: PositionChild) -> Seq<u8> {
    match c {
        PositionChild::Track(n) => num_bytes(0xF7, n),
        PositionChild::Cluster(n) => num_bytes(0xF1, n),
        PositionChild::Relative(n) => num_bytes(0xF0, n),
        PositionChild::Other(r) => element_bytes(r.id, r.width, r.data),
    }
}

/// Whether a child of track positions can be written.
pub open spec fn is_position(c: PositionChild) -> bool {
    match c {
        PositionChild::Track(n) => is_num(n),
        PositionChild::Cluster(n) => is_num(n),
        PositionChild::Relative(n) => is_num(n),
        PositionChild::Other(r) => is_id(r.id) && size_fits(r.data.len(), r.width) && r.id != 0xF7
            && r.id != 0xF1 && r.id != 0xF0,
    }
}

/// The children of track positions as they are written.
pub open spec fn positions_bytes(cs: Seq<PositionChild>) -> Seq<u8>
    decreases cs.len(),
{
    if cs.len() == 0 {
        Seq::empty()
    } else {
        position_bytes(cs[0]) + positions_bytes(cs.skip(1))
    }
}

/// The track, the cluster and the place in it that track positions give behind
/// others: the last value of each.
pub open spec fn position_said(
    cs: Seq<PositionChild>,
    track: u64,
    cluster: u64,
    relative: Option<u64>,
) -> (u64, u64, Option<u64>)
    decreases cs.len(),
{
    if cs.len() == 0 {
        (track, cluster, relative)
    } else {
        let rest = cs.skip(1);
        match cs[0] {
            PositionChild::Track(n) => position_said(rest, n.v, cluster, relative),
            PositionChild::Cluster(n) => position_said(rest, track, n.v, relative),
            PositionChild::Relative(n) => position_said(rest, track, cluster, Some(n.v)),
            PositionChild::Other(_) => position_said(rest, track, cluster, relative),
        }
    }
}

proof fn lemma_positions(s: Seq<u8>, pos: int, cs: Seq<PositionChild>, p: TrackPositions)
    requires
        forall|i: int| 0 <= i < cs.len() ==> is_position(#[trigger] cs[i]),
        holds(s, pos, positions_bytes(cs)),
        s.len() <= u64::MAX,
    ensures
        ({
            let end = pos + positions_bytes(cs).len();
            let (track, cluster, relative) = position_said(cs, p.track, p.cluster, p.relative);
            positions_from(s, pos, end, p) == Ok::<(TrackPositions, int), ErrorView>(
                (TrackPositions { track, cluster, relative }, end),
            )
        }),
    decreases cs.len(),
{
    let end = pos + positions_bytes(cs).len();
    if cs.len() > 0 {
        let c = cs[0];
        let rest = cs.skip(1);
        let one = position_bytes(c);
        assert(is_position(cs[0]));
        lemma_holds_parts(s, pos, one, positions_bytes(rest));
        assert forall|i: int| 0 <= i < rest.len() implies is_position(#[trigger] rest[i]) by {
            assert(rest[i] == cs[i + 1]);
        }
        let q = match c {
            PositionChild::Track(n) => TrackPositions { track: n.v, ..p },
            PositionChild::Cluster(n) => TrackPositions { cluster: n.v, ..p },
            PositionChild::Relative(n) => TrackPositions { relative: Some(n.v), ..p },
            PositionChild::Other(_) => p,
        };
        match c {
            PositionChild::Track(n) => {
                lemma_num(s, pos, 0xF7, n);
            },
            PositionChild::Cluster(n) => {
                lemma_num(s, pos, 0xF1, n);
            },
            PositionChild::Relative(n) => {
                lemma_num(s, pos, 0xF0, n);
            },
            PositionChild::Other(r) => {
                written_element_is_read(s, pos, r.id, r.width, r.data);
            },
        }
        lemma_positions(s, pos + one.len(), rest, q);
        assert(positions_from(s, pos, end, p) == positions_from(s, pos + one.len(), end, q));
    }
}

/// A child of an index entry.
pub enum CueChild {
    Time(Num),
    Positions { children: Seq<PositionChild>, width: nat },
    Other(Raw),
}

/// A child of an index entry as it is written.
pub open spec fn cue_child_bytes(c: CueChild) -> Seq<u8> {
    match c {
        CueChild::Time(n) => num_bytes(0xB3, n),
        CueChild::Positions { children, width } => element_bytes(
            0xB7,
            width,
            positions_bytes(children),
        ),
        CueChild::Other(r) => element_bytes(r.id, r.width, r.data),
    }
}

/// Whether a child of an index entry can be written, and a cluster that it gives
/// can be reached from the start of the segment's data.
pub open spec fn is_cue_child(c: CueChild, base: u64) -> bool {
    match c {
        CueChild::Time(n) => is_num(n),
        CueChild::Positions { children, width } => {
            &&& forall|i: int| 0 <= i < children.len() ==> is_position(#[trigger] children[i])
            &&& size_fits(positions_bytes(children).len(), width)
            &&& base + position_said(children, 0, 0, None).1 <= u64::MAX
        },
        CueChild::Other(r) => is_id(r.id) && size_fits(r.data.len(), r.width) && r.id != 0xB3
            && r.id != 0xB7,
    }
}

/// The children of an index entry as they are written.
pub open spec fn cue_bytes(cs: Seq<CueChild>) -> Seq<u8>
    decreases cs.len(),
{
    if cs.len() == 0 {
        Seq::empty()
    } else {
        cue_child_bytes(cs[0]) + cue_bytes(cs.skip(1))
    }
}

/// The time that an entry gives: the last one, or else the given one.
pub open spec fn cue_time_said(cs: Seq<CueChild>, time: u64) -> u64
    decreases cs.len(),
{
    if cs.len() == 0 {
        time
    } else {
        cue_time_said(
            cs.skip(1),
            match cs[0] {
                CueChild::Time(n) => n.v,
                _ => time,
            },
        )
    }
}

/// The positions that an entry gives for one of the tracks: the last ones, or else
/// the given ones.
pub open spec fn cue_place_said(
    cs: Seq<CueChild>,
    tracks: Seq<u64>,
    place: Option<(u64, u64, Option<u64>)>,
) -> Option<(u64, u64, Option<u64>)>
    decreases cs.len(),
{
    if cs.len() == 0 {
        place
    } else {
        cue_place_said(
            cs.skip(1),
            tracks,
            match cs[0] {
                CueChild::Positions { children, .. } => {
                    let said = position_said(children, 0, 0, None);
                    if tracks.contains(said.0) {
                        Some(said)
                    } else {
                        place
                    }
                },
                _ => place,
            },
        )
    }
}

/// The index entry that is to be read: its time, and the track, the cluster and
/// the place that it gives for one of the tracks. The cluster counts from the
/// start of the segment's data.
pub open spec fn cue_said(cs: Seq<CueChild>, base: u64, tracks: Seq<u64>) -> Option<PgsCuePoint> {
    match cue_place_said(cs, tracks, None) {
        Some((track, cluster, relative)) => Some(
            PgsCuePoint {
                track_number: track,
                time: cue_time_said(cs, 0),
                cluster_position: (base + cluster) as u64,
                relative_position: relative,
            },
        ),
        None => None,
    }
}

spec fn with_base(place: Option<(u64, u64, Option<u64>)>, base: u64) -> Option<
    (u64, u64, Option<u64>),
> {
    match place {
        Some((track, cluster, relative)) => Some((track, (base + cluster) as u64, relative)),
        None => None,
    }
}

proof fn lemma_cue(
    s: Seq<u8>,
    pos: int,
    cs: Seq<CueChild>,
    base: u64,
    tracks: Seq<u64>,
    time: u64,
    place: Option<(u64, u64, Option<u64>)>,
)
    requires
        forall|i: int| 0 <= i < cs.len() ==> is_cue_child(#[trigger] cs[i], base),
        holds(s, pos, cue_bytes(cs)),
        s.len() <= u64::MAX,
    ensures
        ({
            let end = pos + cue_bytes(cs).len();
            cue_from(
                s,
                pos,
                end,
                base,
                tracks,
                CueFields { time, matched: with_base(place, base) },
            ) == Ok::<(CueFields, int), ErrorView>(
                (
                    CueFields {
                        time: cue_time_said(cs, time),
                        matched: with_base(cue_place_said(cs, tracks, place), base),
                    },
                    end,
                ),
            )
        }),
    decreases cs.len(),
{
    let end = pos + cue_bytes(cs).len();
    if cs.len() > 0 {
        let c = cs[0];
        let rest = cs.skip(1);
        let one = cue_child_bytes(c);
        assert(is_cue_child(cs[0], base));
        lemma_holds_parts(s, pos, one, cue_bytes(rest));
        assert forall|i: int| 0 <= i < rest.len() implies is_cue_child(
            #[trigger] rest[i],
            base,
        ) by {
            assert(rest[i] == cs[i + 1]);
        }
        match c {
            CueChild::Time(n) => {
                lemma_num(s, pos, 0xB3, n);
                lemma_cue(s, pos + one.len(), rest, base, tracks, n.v, place);
            },
            CueChild::Positions { children, width } => {
                let inner = positions_bytes(children);
                written_element_is_read(s, pos, 0xB7, width, inner);
                lemma_positions(s, data_start(pos, 0xB7, width), children, no_positions());
                let said = position_said(children, 0, 0, None);
                let next = if tracks.contains(said.0) {
                    Some(said)
                } else {
                    place
                };
                lemma_cue(s, pos + one.len(), rest, base, tracks, time, next);
            },
            CueChild::Other(r) => {
                written_element_is_read(s, pos, r.id, r.width, r.data);
                lemma_cue(s, pos + one.len(), rest, base, tracks, time, place);
            },
        }
    }
}

/// An index entry, with the number of bytes of its size.
pub struct Cue {
    pub children: Seq<CueChild>,
    pub width: nat,
}

/// Whether an index entry can be written.
pub open spec fn is_cue(c: Cue, base: u64) -> bool {
    &&& forall|i: int| 0 <= i < c.children.len() ==> is_cue_child(#[trigger] c.children[i], base)
    &&& size_fits(cue_bytes(c.children).len(), c.width)
}

/// Index entries as they are written.
pub open spec fn cues_bytes(cues: Seq<Cue>) -> Seq<u8>
    decreases cues.len(),
{
    if cues.len() == 0 {
        Seq::empty()
    } else {
        element_bytes(0xBB, cues[0].width, cue_bytes(cues[0].children)) + cues_bytes(cues.skip(1))
    }
}

/// The index entries that are to be read: those for one of the tracks, in order.
pub open spec fn cues_said(cues: Seq<Cue>, base: u64, tracks: Seq<u64>) -> Seq<PgsCuePoint>
    decreases cues.len(),
{
    if cues.len() == 0 {
        Seq::empty()
    } else {
        let rest = cues_said(cues.skip(1), base, tracks);
        match cue_said(cues[0].children, base, tracks) {
            Some(c) => seq![c] + rest,
            None => rest,
        }
    }
}

#[verifier::spinoff_prover]
#[verifier::rlimit(60)]
proof fn lemma_cues(
    s: Seq<u8>,
    pos: int,
    cues: Seq<Cue>,
    base: u64,
    tracks: Seq<u64>,
    before: Seq<PgsCuePoint>,
)
    requires
        forall|i: int| 0 <= i < cues.len() ==> is_cue(#[trigger] cues[i], base),
        holds(s, pos, cues_bytes(cues)),
        s.len() <= u64::MAX,
    ensures
        ({
            let end = pos + cues_bytes(cues).len();
            cues_from(s, pos, end, base, tracks, before) == Ok::<
                (Seq<PgsCuePoint>, int),
                ErrorView,
            >((before + cues_said(cues, base, tracks), end))
        }),
    decreases cues.len(),
{
    let end = pos + cues_bytes(cues).len();
    if cues.len() == 0 {
        assert(before + cues_said(cues, base, tracks) =~= before);
    } else {
        let c = cues[0];
        let rest = cues.skip(1);
        let inner = cue_bytes(c.children);
        let one = element_bytes(0xBB, c.width, inner);
        assert(is_cue(cues[0], base));
        lemma_holds_parts(s, pos, one, cues_bytes(rest));
        written_element_is_read(s, pos, 0xBB, c.width, inner);
        lemma_cue(s, data_start(pos, 0xBB, c.width), c.children, base, tracks, 0, None);
        assert forall|i: int| 0 <= i < rest.len() implies is_cue(#[trigger] rest[i], base) by {
            assert(rest[i] == cues[i + 1]);
        }
        let more = match cue_said(c.children, base, tracks) {
            Some(x) => before.push(x),
            None => before,
        };
        assert(cue_at(s, data_start(pos, 0xBB, c.width), inner.len() as u64, base, tracks)
            == Ok::<(Option<PgsCuePoint>, int), ErrorView>(
            (cue_said(c.children, base, tracks), pos + one.len()),
        ));
        lemma_cues(s, pos + one.len(), rest, base, tracks, more);
        assert(more + cues_said(rest, base, tracks) =~= before + cues_said(cues, base, tracks));
        assert(cues_from(s, pos, end, base, tracks, before) == cues_from(
            s,
            pos + one.len(),
            end,
            base,
            tracks,
            more,
        ));
    }
}

/// A Cues element that is written is read back: its entries for the tracks, in
/// order, each with its track, its time, its cluster and the place in it.
pub proof fn written_index_is_read(
    s: Seq<u8>,
    pos: int,
    cues: Seq<Cue>,
    width: nat,
    base: u64,
    tracks: Seq<u64>,
)
    requires
        forall|i: int| 0 <= i < cues.len() ==> is_cue(#[trigger] cues[i], base),
        size_fits(cues_bytes(cues).len(), width),
        holds(s, pos, element_bytes(0x1C53BB6B, width, cues_bytes(cues))),
        s.len() <= u64::MAX,
    ensures
        cues_at(s, pos, base, tracks) == Ok::<Seq<PgsCuePoint>, ErrorView>(
            cues_said(cues, base, tracks),
        ),
{
    written_element_is_read(s, pos, 0x1C53BB6B, width, cues_bytes(cues));
    lemma_cues(s, data_start(pos, 0x1C53BB6B, width), cues, base, tracks, Seq::empty());
    assert(Seq::<PgsCuePoint>::empty() + cues_said(cues, base, tracks) =~= cues_said(
        cues,
        base,
        tracks,
    ));
}

/// A simple tag: its name and its text, either of which may come first.
pub struct SimpleTag {
    pub name: Seq<char>,
    pub name_width: nat,
    pub text: Seq<char>,
    pub text_width: nat,
    pub text_first: bool,
}

/// A simple tag's children as they are written.
pub open spec fn simple_tag_bytes(t: SimpleTag) -> Seq<u8> {
    let name = element_bytes(0x4587, t.name_width, encode_utf8(t.name));
    let text = element_bytes(0x4487, t.text_width, encode_utf8(t.text));
    if t.text_first {
        text + name
    } else {
        name + text
    }
}

/// Whether a simple tag can be written.
pub open spec fn is_simple_tag(t: SimpleTag) -> bool {
    size_fits(encode_utf8(t.name).len(), t.name_width) && size_fits(
        encode_utf8(t.text).len(),
        t.text_width,
    )
}

/// The frame count that a simple tag gives: that of the one which is named so, if
/// its text is a number.
pub open spec fn count_said(t: SimpleTag) -> Option<u64> {
    if t.name == "NUMBER_OF_FRAMES"@ {
        parsed_u64(trimmed(t.text))
    } else {
        None
    }
}

#[verifier::spinoff_prover]
#[verifier::rlimit(60)]
proof fn lemma_simple_tag(s: Seq<u8>, pos: int, t: SimpleTag)
    requires
        is_simple_tag(t),
        holds(s, pos, simple_tag_bytes(t)),
        s.len() <= u64::MAX,
    ensures
        simple_tag_at(s, pos, simple_tag_bytes(t).len() as u64) == Ok::<
            (Option<u64>, int),
            ErrorView,
        >((count_said(t), pos + simple_tag_bytes(t).len())),
{
    let end = pos + simple_tag_bytes(t).len();
    let name = element_bytes(0x4587, t.name_width, encode_utf8(t.name));
    let text = element_bytes(0x4487, t.text_width, encode_utf8(t.text));
    if t.text_first {
        lemma_holds_parts(s, pos, text, name);
        let at = pos + text.len();
        written_element_is_read(s, pos, 0x4487, t.text_width, encode_utf8(t.text));
        written_text_is_read(s, data_start(pos, 0x4487, t.text_width), t.text);
        written_element_is_read(s, at, 0x4587, t.name_width, encode_utf8(t.name));
        written_text_is_read(s, data_start(at, 0x4587, t.name_width), t.name);
        let all = (Some(t.name), Some(t.text));
        assert(simple_tag_from(s, end, end, all) == Ok::<_, ErrorView>((all, end)));
        assert(simple_tag_from(s, at, end, (None, Some(t.text))) == simple_tag_from(
            s,
            end,
            end,
            all,
        ));
        assert(simple_tag_from(s, pos, end, (None, None)) == simple_tag_from(
            s,
            at,
            end,
            (None, Some(t.text)),
        ));
    } else {
        lemma_holds_parts(s, pos, name, text);
        let at = pos + name.len();
        written_element_is_read(s, pos, 0x4587, t.name_width, encode_utf8(t.name));
        written_text_is_read(s, data_start(pos, 0x4587, t.name_width), t.name);
        written_element_is_read(s, at, 0x4487, t.text_width, encode_utf8(t.text));
        written_text_is_read(s, data_start(at, 0x4487, t.text_width), t.text);
        let all = (Some(t.name), Some(t.text));
        assert(simple_tag_from(s, end, end, all) == Ok::<_, ErrorView>((all, end)));
        assert(simple_tag_from(s, at, end, (Some(t.name), None)) == simple_tag_from(
            s,
            end,
            end,
            all,
        ));
        assert(simple_tag_from(s, pos, end, (None, None)) == simple_tag_from(
            s,
            at,
            end,
            (Some(t.name), None),
        ));
    }
}

/// The targets of a tag as they are written.
pub open spec fn uids_bytes(uids: Seq<Num>) -> Seq<u8>
    decreases uids.len(),
{
    if uids.len() == 0 {
        Seq::empty()
    } else {
        num_bytes(0x63C5, uids[0]) + uids_bytes(uids.skip(1))
    }
}

/// The identifiers of a tag's targets.
pub open spec fn uids_said(uids: Seq<Num>) -> Seq<u64> {
    Seq::new(uids.len(), |i: int| uids[i].v)
}

proof fn lemma_targets(s: Seq<u8>, pos: int, uids: Seq<Num>, before: Seq<u64>)
    requires
        forall|i: int| 0 <= i < uids.len() ==> is_num(#[trigger] uids[i]),
        holds(s, pos, uids_bytes(uids)),
        s.len() <= u64::MAX,
    ensures
        ({
            let end = pos + uids_bytes(uids).len();
            targets_from(s, pos, end, before) == Ok::<(Seq<u64>, int), ErrorView>(
                (before + uids_said(uids), end),
            )
        }),
    decreases uids.len(),
{
    let end = pos + uids_bytes(uids).len();
    if uids.len() == 0 {
        assert(before + uids_said(uids) =~= before);
    } else {
        let rest = uids.skip(1);
        let one = num_bytes(0x63C5, uids[0]);
        assert(is_num(uids[0]));
        lemma_holds_parts(s, pos, one, uids_bytes(rest));
        lemma_num(s, pos, 0x63C5, uids[0]);
        assert forall|i: int| 0 <= i < rest.len() implies is_num(#[trigger] rest[i]) by {
            assert(rest[i] == uids[i + 1]);
        }
        lemma_targets(s, pos + one.len(), rest, before.push(uids[0].v));
        assert(before.push(uids[0].v) + uids_said(rest) =~= before + uids_said(uids));
        assert(targets_from(s, pos, end, before) == targets_from(
            s,
            pos + one.len(),
            end,
            before.push(uids[0].v),
        ));
    }
}

/// A tag: its targets and one simple tag.
pub struct Tag {
    pub uids: Seq<Num>,
    pub targets_width: nat,
    pub simple: SimpleTag,
    pub simple_width: nat,
    pub width: nat,
}

/// A tag's children as they are written.
pub open spec fn tag_bytes(t: Tag) -> Seq<u8> {
    element_bytes(0x63C0, t.targets_width, uids_bytes(t.uids)) + element_bytes(
        0x67C8,
        t.simple_width,
        simple_tag_bytes(t.simple),
    )
}

/// Whether a tag can be written.
pub open spec fn is_tag(t: Tag) -> bool {
    &&& forall|i: int| 0 <= i < t.uids.len() ==> is_num(#[trigger] t.uids[i])
    &&& is_simple_tag(t.simple)
    &&& size_fits(uids_bytes(t.uids).len(), t.targets_width)
    &&& size_fits(simple_tag_bytes(t.simple).len(), t.simple_width)
    &&& size_fits(tag_bytes(t).len(), t.width)
}

proof fn lemma_tag(s: Seq<u8>, pos: int, t: Tag, wanted: Seq<u64>, counts: Map<u64, u64>)
    requires
        is_tag(t),
        holds(s, pos, tag_bytes(t)),
        s.len() <= u64::MAX,
    ensures
        tag_at(s, pos, tag_bytes(t).len() as u64, wanted, counts) matches Ok((more, next)) && next
            == pos + tag_bytes(t).len() && more == match count_said(t.simple) {
            Some(n) => counted_for(counts, uids_said(t.uids), wanted, n),
            None => counts,
        },
{
    let end = pos + tag_bytes(t).len();
    let uids = uids_said(t.uids);
    let first = element_bytes(0x63C0, t.targets_width, uids_bytes(t.uids));
    let second = element_bytes(0x67C8, t.simple_width, simple_tag_bytes(t.simple));
    lemma_holds_parts(s, pos, first, second);
    let at = pos + first.len();
    written_element_is_read(s, pos, 0x63C0, t.targets_width, uids_bytes(t.uids));
    lemma_targets(s, data_start(pos, 0x63C0, t.targets_width), t.uids, Seq::empty());
    assert(Seq::<u64>::empty() + uids =~= uids);
    written_element_is_read(s, at, 0x67C8, t.simple_width, simple_tag_bytes(t.simple));
    lemma_simple_tag(s, data_start(at, 0x67C8, t.simple_width), t.simple);
    let all = (uids, count_said(t.simple));
    assert(tag_from(s, end, end, all) == Ok::<_, ErrorView>((all, end)));
    assert(tag_from(s, at, end, (uids, None)) == tag_from(s, end, end, all));
    assert(tag_from(s, pos, end, (Seq::empty(), None)) == tag_from(s, at, end, (uids, None)));
}

/// Tags as they are written.
pub open spec fn tags_bytes(tags: Seq<Tag>) -> Seq<u8>
    decreases tags.len(),
{
    if tags.len() == 0 {
        Seq::empty()
    } else {
        element_bytes(0x7373, tags[0].width, tag_bytes(tags[0])) + tags_bytes(tags.skip(1))
    }
}

/// The frame count that tags give for a track: that of the last tag which has the
/// track among its targets and gives one, or else the given one.
pub open spec fn frames_said(tags: Seq<Tag>, uid: u64, count: Option<u64>) -> Option<u64>
    decreases tags.len(),
{
    if tags.len() == 0 {
        count
    } else {
        frames_said(
            tags.skip(1),
            uid,
            match count_said(tags[0].simple) {
                Some(n) => if uids_said(tags[0].uids).contains(uid) {
                    Some(n)
                } else {
                    count
                },
                None => count,
            },
        )
    }
}

/// The value of a map, if it has one.
pub open spec fn looked_up(m: Map<u64, u64>, k: u64) -> Option<u64> {
    if m.contains_key(k) {
        Some(m[k])
    } else {
        None
    }
}

proof fn lemma_tags(
    s: Seq<u8>,
    pos: int,
    tags: Seq<Tag>,
    wanted: Seq<u64>,
    counts: Map<u64, u64>,
)
    requires
        forall|i: int| 0 <= i < tags.len() ==> is_tag(#[trigger] tags[i]),
        holds(s, pos, tags_bytes(tags)),
        s.len() <= u64::MAX,
    ensures
        ({
            let end = pos + tags_bytes(tags).len();
            tags_from(s, pos, end, wanted, counts) matches Ok((r, next)) && next == end && forall|
                uid: u64,
            |
                #[trigger] looked_up(r, uid) == if wanted.contains(uid) {
                    frames_said(tags, uid, looked_up(counts, uid))
                } else {
                    looked_up(counts, uid)
                }
        }),
    decreases tags.len(),
{
    let end = pos + tags_bytes(tags).len();
    if tags.len() > 0 {
        let t = tags[0];
        let rest = tags.skip(1);
        let one = element_bytes(0x7373, t.width, tag_bytes(t));
        assert(is_tag(tags[0]));
        lemma_holds_parts(s, pos, one, tags_bytes(rest));
        written_element_is_read(s, pos, 0x7373, t.width, tag_bytes(t));
        lemma_tag(s, data_start(pos, 0x7373, t.width), t, wanted, counts);
        assert forall|i: int| 0 <= i < rest.len() implies is_tag(#[trigger] rest[i]) by {
            assert(rest[i] == tags[i + 1]);
        }
        let more = match count_said(t.simple) {
            Some(n) => counted_for(counts, uids_said(t.uids), wanted, n),
            None => counts,
        };
        lemma_tags(s, pos + one.len(), rest, wanted, more);
        assert(tags_from(s, pos, end, wanted, counts) == tags_from(
            s,
            pos + one.len(),
            end,
            wanted,
            more,
        ));
        let r = tags_from(s, pos, end, wanted, counts)->Ok_0.0;
        assert forall|uid: u64| #[trigger] looked_up(r, uid) == if wanted.contains(uid) {
            frames_said(tags, uid, looked_up(counts, uid))
        } else {
            looked_up(counts, uid)
        } by {
            assert(looked_up(more, uid) == looked_up(more, uid));
        }
    }
}

/// A Tags element that is written is read back: for each wanted track the frame
/// count of the last tag that gives one for it, and nothing for any other track.
pub proof fn written_tags_are_read(
    s: Seq<u8>,
    pos: int,
    tags: Seq<Tag>,
    width: nat,
    wanted: Seq<u64>,
    uid: u64,
)
    requires
        forall|i: int| 0 <= i < tags.len() ==> is_tag(#[trigger] tags[i]),
        size_fits(tags_bytes(tags).len(), width),
        holds(s, pos, element_bytes(0x1254C367, width, tags_bytes(tags))),
        s.len() <= u64::MAX,
    ensures
        tags_at(s, pos, wanted) matches Ok(counts) && looked_up(counts, uid) == if wanted.contains(
            uid,
        ) {
            frames_said(tags, uid, None)
        } else {
            None
        },
{
    written_element_is_read(s, pos, 0x1254C367, width, tags_bytes(tags));
    lemma_tags(s, data_start(pos, 0x1254C367, width), tags, wanted, Map::empty());
    assert(looked_up(tags_at(s, pos, wanted)->Ok_0, uid) == looked_up(
        tags_at(s, pos, wanted)->Ok_0,
        uid,
    ));
}

} // verus!
