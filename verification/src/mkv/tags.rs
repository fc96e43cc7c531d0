//! Frame counts in a segment's tags.
use vstd::prelude::*;
use crate::ebml::children::{
    data_reads, element_end, end_of, expected_reads, fold_children, fold_reads, text_at, uint_at,
    uint_reads,
};
use crate::ebml::ids;
use crate::ebml::vint::{
    element_at, element_header_reads, id_at, read_element, read_element_id, read_element_size,
    Element,
};
use crate::error::{ErrorView, PgsError};
use crate::io::reader::{counted, SeekBufReader, Source};
use crate::lists::contains_u64;
use crate::mkv::tracks::text_view;
use crate::text::{parse_u64, parsed_u64, trim_text, trimmed};
use std::collections::HashMap;

verus! {

/// What a child of a Targets element makes of the track identifiers.
pub open spec fn targets_step(s: Seq<u8>, e: Element, uids: Seq<u64>) -> Result<
    (Seq<u64>, int),
    ErrorView,
> {
    if e.id == ids::TAG_TRACK_UID {
        match uint_at(s, e.data, e.size) {
            Err(error) => Err(error),
            Ok(v) => Ok((uids.push(v), e.data + e.size)),
        }
    } else {
        match end_of(e.data, e.size) {
            Err(error) => Err(error),
            Ok(next) => Ok((uids, next)),
        }
    }
}

/// The track identifiers in the children of a Targets element from `pos` on,
/// behind `uids`.
pub open spec fn targets_from(s: Seq<u8>, pos: int, end: int, uids: Seq<u64>) -> Result<
    (Seq<u64>, int),
    ErrorView,
> {
    fold_children(s, pos, end, uids, |e: Element, u: Seq<u64>| targets_step(s, e, u))
}

/// The track identifiers in a Targets element's data of `size` bytes at `pos`,
/// behind `uids`, and the position behind it.
pub open spec fn targets_at(s: Seq<u8>, pos: int, size: u64, uids: Seq<u64>) -> Result<
    (Seq<u64>, int),
    ErrorView,
> {
    match end_of(pos, size) {
        Err(error) => Err(error),
        Ok(end) => targets_from(s, pos, end, uids),
    }
}

/// What a child of a SimpleTag element makes of the tag's name and text.
pub open spec fn simple_tag_step(
    s: Seq<u8>,
    e: Element,
    a: (Option<Seq<char>>, Option<Seq<char>>),
) -> Result<((Option<Seq<char>>, Option<Seq<char>>), int), ErrorView> {
    if e.id == ids::TAG_NAME || e.id == ids::TAG_STRING {
        match text_at(s, e.data, e.size) {
            Err(error) => Err(error),
            Ok(t) => Ok(
                (
                    if e.id == ids::TAG_NAME {
                        (Some(t), a.1)
                    } else {
                        (a.0, Some(t))
                    },
                    e.data + e.size,
                ),
            ),
        }
    } else {
        match end_of(e.data, e.size) {
            Err(error) => Err(error),
            Ok(next) => Ok((a, next)),
        }
    }
}

/// The name and text in the children of a SimpleTag element from `pos` on.
pub open spec fn simple_tag_from(
    s: Seq<u8>,
    pos: int,
    end: int,
    a: (Option<Seq<char>>, Option<Seq<char>>),
) -> Result<((Option<Seq<char>>, Option<Seq<char>>), int), ErrorView> {
    fold_children(
        s,
        pos,
        end,
        a,
        |e: Element, b: (Option<Seq<char>>, Option<Seq<char>>)| simple_tag_step(s, e, b),
    )
}

/// The frame count that a tag gives, if it is one of that name and its text is
/// a number.
pub open spec fn frame_count_of(name: Option<Seq<char>>, text: Option<Seq<char>>) -> Option<u64> {
    match (name, text) {
        (Some(n), Some(t)) => if n == "NUMBER_OF_FRAMES"@ {
            parsed_u64(trimmed(t))
        } else {
            None
        },
        _ => None,
    }
}

/// The frame count in a SimpleTag element's data of `size` bytes at `pos`, if
/// there is one, and the position behind it.
pub open spec fn simple_tag_at(s: Seq<u8>, pos: int, size: u64) -> Result<
    (Option<u64>, int),
    ErrorView,
> {
    match end_of(pos, size) {
        Err(error) => Err(error),
        Ok(end) => match simple_tag_from(s, pos, end, (None, None)) {
            Err(error) => Err(error),
            Ok((a, next)) => Ok((frame_count_of(a.0, a.1), next)),
        },
    }
}

/// What a child of a Tag element makes of the track identifiers and the frame
/// count in it.
pub open spec fn tag_step(s: Seq<u8>, e: Element, a: (Seq<u64>, Option<u64>)) -> Result<
    ((Seq<u64>, Option<u64>), int),
    ErrorView,
> {
    if e.id == ids::TARGETS {
        match targets_at(s, e.data, e.size, a.0) {
            Err(error) => Err(error),
            Ok((uids, next)) => Ok(((uids, a.1), next)),
        }
    } else if e.id == ids::SIMPLE_TAG {
        match simple_tag_at(s, e.data, e.size) {
            Err(error) => Err(error),
            Ok((Some(count), next)) => Ok(((a.0, Some(count)), next)),
            Ok((None, next)) => Ok((a, next)),
        }
    } else {
        match end_of(e.data, e.size) {
            Err(error) => Err(error),
            Ok(next) => Ok((a, next)),
        }
    }
}

/// The track identifiers and the frame count in the children of a Tag element
/// from `pos` on.
pub open spec fn tag_from(s: Seq<u8>, pos: int, end: int, a: (Seq<u64>, Option<u64>)) -> Result<
    ((Seq<u64>, Option<u64>), int),
    ErrorView,
> {
    fold_children(s, pos, end, a, |e: Element, b: (Seq<u64>, Option<u64>)| tag_step(s, e, b))
}

/// The counts, with `count` for those of the identifiers that are wanted.
pub open spec fn counted_for(
    counts: Map<u64, u64>,
    uids: Seq<u64>,
    wanted: Seq<u64>,
    count: u64,
) -> Map<u64, u64> {
    Map::new(
        |uid: u64| counts.contains_key(uid) || (uids.contains(uid) && wanted.contains(uid)),
        |uid: u64|
            if uids.contains(uid) && wanted.contains(uid) {
                count
            } else {
                counts[uid]
            },
    )
}

/// What a Tag element's data of `size` bytes at `pos` makes of the counts, and
/// the position behind it.
pub open spec fn tag_at(
    s: Seq<u8>,
    pos: int,
    size: u64,
    wanted: Seq<u64>,
    counts: Map<u64, u64>,
) -> Result<(Map<u64, u64>, int), ErrorView> {
    match end_of(pos, size) {
        Err(error) => Err(error),
        Ok(end) => match tag_from(s, pos, end, (Seq::empty(), None)) {
            Err(error) => Err(error),
            Ok((a, next)) => Ok(
                (
                    match a.1 {
                        Some(count) => counted_for(counts, a.0, wanted, count),
                        None => counts,
                    },
                    next,
                ),
            ),
        },
    }
}

/// What a child of a Tags element makes of the counts. A malformed tag is
/// skipped.
pub open spec fn tags_step(
    s: Seq<u8>,
    e: Element,
    wanted: Seq<u64>,
    counts: Map<u64, u64>,
) -> Result<
    (Map<u64, u64>, int),
    ErrorView,
> {
    if e.id == ids::TAG {
        match tag_at(s, e.data, e.size, wanted, counts) {
            Ok(r) => Ok(r),
            Err(_) => match end_of(e.data, e.size) {
                Err(error) => Err(error),
                Ok(next) => Ok((counts, next)),
            },
        }
    } else {
        match end_of(e.data, e.size) {
            Err(error) => Err(error),
            Ok(next) => Ok((counts, next)),
        }
    }
}

/// What the children of a Tags element from `pos` on make of the counts.
pub open spec fn tags_from(
    s: Seq<u8>,
    pos: int,
    end: int,
    wanted: Seq<u64>,
    counts: Map<u64, u64>,
) -> Result<(Map<u64, u64>, int), ErrorView> {
    fold_children(
        s,
        pos,
        end,
        counts,
        |e: Element, c: Map<u64, u64>| tags_step(s, e, wanted, c),
    )
}

/// The number of bytes of a Targets element's child, behind its header, that are
/// read.
pub open spec fn targets_step_reads(s: Seq<u8>, e: Element) -> int {
    if e.id == ids::TAG_TRACK_UID {
        uint_reads(s, e)
    } else {
        0
    }
}

/// The number of bytes that reading the children of a Targets element from `pos`
/// on reads.
pub open spec fn targets_reads_from(s: Seq<u8>, pos: int, end: int, uids: Seq<u64>) -> int {
    fold_reads(
        s,
        pos,
        end,
        uids,
        |e: Element, x: Seq<u64>| targets_step(s, e, x),
        |e: Element| targets_step_reads(s, e),
    )
}

/// The number of bytes that reading a Targets element's data of `size` bytes at
/// `pos` reads.
pub open spec fn targets_reads(s: Seq<u8>, pos: int, size: u64, uids: Seq<u64>) -> int {
    match end_of(pos, size) {
        Err(_) => 0,
        Ok(end) => targets_reads_from(s, pos, end, uids),
    }
}

/// The number of bytes of a SimpleTag element's child, behind its header, that
/// are read.
pub open spec fn simple_tag_step_reads(s: Seq<u8>, e: Element) -> int {
    if e.id == ids::TAG_NAME || e.id == ids::TAG_STRING {
        data_reads(s, e)
    } else {
        0
    }
}

/// The number of bytes that reading the children of a SimpleTag element from `pos`
/// on reads.
pub open spec fn simple_tag_reads_from(
    s: Seq<u8>,
    pos: int,
    end: int,
    a: (Option<Seq<char>>, Option<Seq<char>>),
) -> int {
    fold_reads(
        s,
        pos,
        end,
        a,
        |e: Element, x: (Option<Seq<char>>, Option<Seq<char>>)| simple_tag_step(s, e, x),
        |e: Element| simple_tag_step_reads(s, e),
    )
}

/// The number of bytes that reading a SimpleTag element's data of `size` bytes at
/// `pos` reads.
pub open spec fn simple_tag_reads(s: Seq<u8>, pos: int, size: u64) -> int {
    match end_of(pos, size) {
        Err(_) => 0,
        Ok(end) => simple_tag_reads_from(s, pos, end, (None, None)),
    }
}

/// The number of bytes of a Tag element's child, behind its header, that are
/// read.
pub open spec fn tag_step_reads(s: Seq<u8>, e: Element) -> int {
    if e.id == ids::TARGETS {
        targets_reads(s, e.data, e.size, Seq::empty())
    } else if e.id == ids::SIMPLE_TAG {
        simple_tag_reads(s, e.data, e.size)
    } else {
        0
    }
}

/// The number of bytes that reading the children of a Tag element from `pos` on
/// reads.
pub open spec fn tag_reads_from(s: Seq<u8>, pos: int, end: int, a: (Seq<u64>, Option<u64>)) -> int {
    fold_reads(
        s,
        pos,
        end,
        a,
        |e: Element, x: (Seq<u64>, Option<u64>)| tag_step(s, e, x),
        |e: Element| tag_step_reads(s, e),
    )
}

/// The number of bytes that reading a Tag element's data of `size` bytes at `pos`
/// reads.
pub open spec fn tag_reads(s: Seq<u8>, pos: int, size: u64) -> int {
    match end_of(pos, size) {
        Err(_) => 0,
        Ok(end) => tag_reads_from(s, pos, end, (Seq::empty(), None)),
    }
}

/// The number of bytes of a Tags element's child, behind its header, that are
/// read.
pub open spec fn tags_step_reads(s: Seq<u8>, e: Element) -> int {
    if e.id == ids::TAG {
        tag_reads(s, e.data, e.size)
    } else {
        0
    }
}

/// The number of bytes that reading the children of a Tags element from `pos` on
/// reads.
pub open spec fn tags_reads_from(
    s: Seq<u8>,
    pos: int,
    end: int,
    wanted: Seq<u64>,
    counts: Map<u64, u64>,
) -> int {
    fold_reads(
        s,
        pos,
        end,
        counts,
        |e: Element, x: Map<u64, u64>| tags_step(s, e, wanted, x),
        |e: Element| tags_step_reads(s, e),
    )
}

/// The number of bytes that reading the Tags element at `pos` reads.
pub open spec fn tags_reads(s: Seq<u8>, pos: int, wanted: Seq<u64>) -> int {
    expected_reads(
        s,
        pos,
        ids::TAGS,
        |data: int, end: int| tags_reads_from(s, data, end, wanted, Map::empty()),
    )
}

/// The frame counts that the Tags element at `pos` gives for the wanted tracks.
/// Where there is another element, there are none.
pub open spec fn tags_at(s: Seq<u8>, pos: int, wanted: Seq<u64>) -> Result<
    Map<u64, u64>,
    ErrorView,
> {
    match id_at(s, pos) {
        None => Err(ErrorView::InvalidVint),
        Some(id) => if id.value != ids::TAGS {
            Ok(Map::empty())
        } else {
            match element_at(s, pos) {
                None => Err(ErrorView::InvalidVint),
                Some(e) => match end_of(e.data, e.size) {
                    Err(error) => Err(error),
                    Ok(end) => match tags_from(s, e.data, end, wanted, Map::empty()) {
                        Err(error) => Err(error),
                        Ok((counts, _)) => Ok(counts),
                    },
                },
            }
        },
    }
}

/// What reading a Targets element reads does not depend on the identifiers before
/// it.
proof fn lemma_targets_reads(s: Seq<u8>, pos: int, end: int, a: Seq<u64>, b: Seq<u64>)
    ensures
        targets_reads_from(s, pos, end, a) == targets_reads_from(s, pos, end, b),
    decreases
            (if pos < s.len() {
                s.len() - pos
            } else {
                0
            }),
{
    if pos < end {
        if let Some(e) = element_at(s, pos) {
            if let (Ok((c, next)), Ok((d, _))) = (targets_step(s, e, a), targets_step(s, e, b)) {
                if next > pos {
                    lemma_targets_reads(s, next, end, c, d);
                }
            }
        }
    }
}

fn parse_targets<R: Source>(
    reader: &mut SeekBufReader<R>,
    data_size: u64,
    track_uids: &mut Vec<u64>,
) -> (r: Result<(), PgsError>)
    ensures
        final(reader).bytes() == old(reader).bytes(),
        ({
            let reads = targets_reads(
                old(reader).bytes(),
                old(reader).at() as int,
                data_size,
                old(track_uids)@,
            );
            &&& final(reader).consumed() == counted(old(reader).consumed(), reads)
            &&& reads >= 0
        }),
        match (
            r,
            targets_at(old(reader).bytes(), old(reader).at() as int, data_size, old(track_uids)@),
        ) {
            (Ok(()), Ok((v, next))) => {
                &&& final(track_uids)@ == v
                &&& final(reader).at() == next
                &&& next >= old(reader).at()
            },
            (Err(e), Err(v)) => e@ == v,
            _ => false,
        },
{
    let ghost s = reader.bytes();
    let ghost start = reader.at() as int;
    let end = match element_end(reader.position(), data_size) {
        Ok(end) => end,
        Err(e) => {
            return Err(e);
        },
    };
    let ghost goal = targets_from(s, start, end as int, track_uids@);
    let ghost reads = targets_reads(s, start, data_size, track_uids@);
    let ghost mut done: int = 0;
    while reader.position() < end
        invariant
            reader.bytes() == s,
            done >= 0,
            reader.consumed() == counted(old(reader).consumed(), done),
            reads == targets_reads(s, start, data_size, old(track_uids)@),
            reads == done + targets_reads_from(s, reader.at() as int, end as int, track_uids@),
            s == old(reader).bytes(),
            start == old(reader).at(),
            reader.at() >= start,
            end == start + data_size,
            goal == targets_from(s, start, end as int, old(track_uids)@),
            goal == targets_from(s, reader.at() as int, end as int, track_uids@),
        decreases
                (if reader.at() < s.len() {
                    s.len() - reader.at()
                } else {
                    0
                }),
    {
        let ghost pos = reader.at() as int;
        let (child_id, child_size) = match read_element(reader) {
            Ok(e) => e,
            Err(e) => {
                return Err(e);
            },
        };
        assert(pos < s.len());
        proof {
            let e = Element { id: child_id, size: child_size, data: reader.at() as int };
            done = done + element_header_reads(s, pos) + targets_step_reads(s, e);
        }
        if child_id == ids::TAG_TRACK_UID {
            match reader.read_uint_be(child_size) {
                Ok(uid) => {
                    track_uids.push(uid);
                },
                Err(e) => {
                    return Err(e);
                },
            }
        } else {
            match reader.skip(child_size) {
                Ok(()) => {},
                Err(e) => {
                    return Err(e);
                },
            }
        }
    }
    Ok(())
}

fn parse_simple_tag_frame_count<R: Source>(reader: &mut SeekBufReader<R>, data_size: u64) -> (r:
    Result<Option<u64>, PgsError>)
    ensures
        final(reader).bytes() == old(reader).bytes(),
        ({
            let reads = simple_tag_reads(old(reader).bytes(), old(reader).at() as int, data_size);
            &&& final(reader).consumed() == counted(old(reader).consumed(), reads)
            &&& reads >= 0
        }),
        match (r, simple_tag_at(old(reader).bytes(), old(reader).at() as int, data_size)) {
            (Ok(count), Ok((v, next))) => {
                &&& count == v
                &&& final(reader).at() == next
                &&& next >= old(reader).at()
            },
            (Err(e), Err(v)) => e@ == v,
            _ => false,
        },
{
    let ghost s = reader.bytes();
    let ghost start = reader.at() as int;
    let end = match element_end(reader.position(), data_size) {
        Ok(end) => end,
        Err(e) => {
            return Err(e);
        },
    };
    let mut tag_name: Option<String> = None;
    let mut tag_string: Option<String> = None;
    let ghost goal = simple_tag_from(s, start, end as int, (None, None));
    let ghost reads = simple_tag_reads(s, start, data_size);
    let ghost mut done: int = 0;
    while reader.position() < end
        invariant
            reader.bytes() == s,
            done >= 0,
            reader.consumed() == counted(old(reader).consumed(), done),
            reads == simple_tag_reads(s, start, data_size),
            reads == done + simple_tag_reads_from(
                s,
                reader.at() as int,
                end as int,
                (text_view(tag_name), text_view(tag_string)),
            ),
            s == old(reader).bytes(),
            start == old(reader).at(),
            reader.at() >= start,
            end == start + data_size,
            goal == simple_tag_from(s, start, end as int, (None, None)),
            goal == simple_tag_from(
                s,
                reader.at() as int,
                end as int,
                (text_view(tag_name), text_view(tag_string)),
            ),
        decreases
                (if reader.at() < s.len() {
                    s.len() - reader.at()
                } else {
                    0
                }),
    {
        let ghost pos = reader.at() as int;
        let (child_id, child_size) = match read_element(reader) {
            Ok(e) => e,
            Err(e) => {
                return Err(e);
            },
        };
        assert(pos < s.len());
        proof {
            let e = Element { id: child_id, size: child_size, data: reader.at() as int };
            done = done + element_header_reads(s, pos) + simple_tag_step_reads(s, e);
        }
        if child_id == ids::TAG_NAME {
            tag_name = match reader.read_string(child_size) {
                Ok(t) => Some(t),
                Err(e) => {
                    return Err(e);
                },
            };
        } else if child_id == ids::TAG_STRING {
            tag_string = match reader.read_string(child_size) {
                Ok(t) => Some(t),
                Err(e) => {
                    return Err(e);
                },
            };
        } else {
            match reader.skip(child_size) {
                Ok(()) => {},
                Err(e) => {
                    return Err(e);
                },
            }
        }
    }
    match (tag_name, tag_string) {
        (Some(name), Some(text)) => {
            if name == "NUMBER_OF_FRAMES".to_owned() {
                Ok(parse_u64(trim_text(text.as_str())))
            } else {
                Ok(None)
            }
        },
        _ => Ok(None),
    }
}

/// Sets the count of those of the identifiers that are wanted.
fn record_count(counts: &mut HashMap<u64, u64>, uids: &Vec<u64>, wanted: &[u64], count: u64)
    ensures
        final(counts)@ == counted_for(old(counts)@, uids@, wanted@, count),
{
    broadcast use vstd::std_specs::hash::group_hash_axioms;

    let mut i: usize = 0;
    proof {
        assert(counts@ =~= counted_for(old(counts)@, uids@.take(0), wanted@, count));
    }
    while i < uids.len()
        invariant
            i <= uids@.len(),
            counts@ == counted_for(old(counts)@, uids@.take(i as int), wanted@, count),
        decreases uids@.len() - i,
    {
        let uid: u64 = uids[i];
        let ghost before = counts@;
        if contains_u64(wanted, uid) {
            counts.insert(uid, count);
        }
        i += 1;
        proof {
            let some = uids@.take(i - 1);
            let more = uids@.take(i as int);
            assert(more =~= some.push(uid));
            assert forall|x: u64| #[trigger] more.contains(x) == (some.contains(x) || x == uid) by {
                if some.contains(x) {
                    let j = choose|j: int| 0 <= j < some.len() && some[j] == x;
                    assert(more[j] == x);
                }
                assert(more[i - 1] == uid);
            }
            assert(counts@ =~= counted_for(old(counts)@, more, wanted@, count));
        }
    }
    assert(uids@.take(i as int) =~= uids@);
}

fn parse_tag<R: Source>(
    reader: &mut SeekBufReader<R>,
    data_size: u64,
    target_uids: &[u64],
    counts: &mut HashMap<u64, u64>,
) -> (r: Result<(), PgsError>)
    ensures
        final(reader).bytes() == old(reader).bytes(),
        ({
            let reads = tag_reads(old(reader).bytes(), old(reader).at() as int, data_size);
            &&& final(reader).consumed() == counted(old(reader).consumed(), reads)
            &&& reads >= 0
        }),
        match (
            r,
            tag_at(
                old(reader).bytes(),
                old(reader).at() as int,
                data_size,
                target_uids@,
                old(counts)@,
            ),
        ) {
            (Ok(()), Ok((v, next))) => {
                &&& final(counts)@ == v
                &&& final(reader).at() == next
                &&& next >= old(reader).at()
            },
            (Err(e), Err(v)) => e@ == v && *final(counts) == *old(counts),
            _ => false,
        },
{
    let ghost s = reader.bytes();
    let ghost start = reader.at() as int;
    let end = match element_end(reader.position(), data_size) {
        Ok(end) => end,
        Err(e) => {
            return Err(e);
        },
    };
    let mut track_uids: Vec<u64> = Vec::new();
    let mut frame_count: Option<u64> = None;
    let ghost goal = tag_from(s, start, end as int, (Seq::empty(), None));
    let ghost reads = tag_reads(s, start, data_size);
    let ghost mut done: int = 0;
    while reader.position() < end
        invariant
            reader.bytes() == s,
            done >= 0,
            reader.consumed() == counted(old(reader).consumed(), done),
            reads == tag_reads(s, start, data_size),
            reads == done + tag_reads_from(
                s,
                reader.at() as int,
                end as int,
                (track_uids@, frame_count),
            ),
            s == old(reader).bytes(),
            start == old(reader).at(),
            reader.at() >= start,
            end == start + data_size,
            *counts == *old(counts),
            goal == tag_from(s, start, end as int, (Seq::empty(), None)),
            goal == tag_from(s, reader.at() as int, end as int, (track_uids@, frame_count)),
        decreases
                (if reader.at() < s.len() {
                    s.len() - reader.at()
                } else {
                    0
                }),
    {
        let ghost pos = reader.at() as int;
        let (child_id, child_size) = match read_element(reader) {
            Ok(e) => e,
            Err(e) => {
                return Err(e);
            },
        };
        assert(pos < s.len());
        proof {
            let e = Element { id: child_id, size: child_size, data: reader.at() as int };
            if let Ok(inner_end) = end_of(e.data, e.size) {
                lemma_targets_reads(s, e.data, inner_end, Seq::empty(), track_uids@);
            }
            done = done + element_header_reads(s, pos) + tag_step_reads(s, e);
        }
        if child_id == ids::TARGETS {
            match parse_targets(reader, child_size, &mut track_uids) {
                Ok(()) => {},
                Err(e) => {
                    return Err(e);
                },
            }
        } else if child_id == ids::SIMPLE_TAG {
            match parse_simple_tag_frame_count(reader, child_size) {
                Ok(Some(count)) => {
                    frame_count = Some(count);
                },
                Ok(None) => {},
                Err(e) => {
                    return Err(e);
                },
            }
        } else {
            match reader.skip(child_size) {
                Ok(()) => {},
                Err(e) => {
                    return Err(e);
                },
            }
        }
    }
    if let Some(count) = frame_count {
        record_count(counts, &track_uids, target_uids, count);
    }
    Ok(())
}

/// Parses the Tags element at a position and returns the frame counts of the
/// wanted tracks, by their unique identifiers. Malformed tags are skipped.
pub fn parse_tags_frame_counts<R: Source>(
    reader: &mut SeekBufReader<R>,
    tags_position: u64,
    target_uids: &[u64],
) -> (r: Result<HashMap<u64, u64>, PgsError>)
    ensures
        final(reader).bytes() == old(reader).bytes(),
        ({
            let reads = tags_reads(old(reader).bytes(), tags_position as int, target_uids@);
            &&& final(reader).consumed() == counted(old(reader).consumed(), reads)
            &&& reads >= 0
        }),
        match (r, tags_at(old(reader).bytes(), tags_position as int, target_uids@)) {
            (Ok(counts), Ok(v)) => counts@ == v,
            (Err(e), Err(v)) => e@ == v,
            _ => false,
        },
{
    let ghost s = reader.bytes();
    let ghost wanted = target_uids@;
    let mut counts: HashMap<u64, u64> = HashMap::new();
    let _ = reader.seek_to(tags_position);
    let id = match read_element_id(reader) {
        Ok(id) => id,
        Err(e) => {
            return Err(e);
        },
    };
    if id.value != ids::TAGS {
        return Ok(counts);
    }
    let size = match read_element_size(reader) {
        Ok(size) => size,
        Err(e) => {
            return Err(e);
        },
    };
    let end = match element_end(reader.position(), size.value) {
        Ok(end) => end,
        Err(e) => {
            return Err(e);
        },
    };
    let ghost goal = tags_from(s, reader.at() as int, end as int, wanted, Map::empty());
    let ghost reads = tags_reads(s, tags_position as int, wanted);
    let ghost mut done: int = reader.at() - tags_position;
    while reader.position() < end
        invariant
            reader.bytes() == s,
            done >= 0,
            reader.consumed() == counted(old(reader).consumed(), done),
            reads == tags_reads(s, tags_position as int, wanted),
            reads == done + tags_reads_from(s, reader.at() as int, end as int, wanted, counts@),
            s == old(reader).bytes(),
            wanted == target_uids@,
            goal == tags_from(s, reader.at() as int, end as int, wanted, counts@),
            goal matches Err(e) ==> tags_at(s, tags_position as int, wanted) == Err::<
                Map<u64, u64>,
                ErrorView,
            >(e),
        decreases
                (if reader.at() < s.len() {
                    s.len() - reader.at()
                } else {
                    0
                }),
    {
        let ghost pos = reader.at() as int;
        let (child_id, child_size) = match read_element(reader) {
            Ok(e) => e,
            Err(e) => {
                return Err(e);
            },
        };
        assert(pos < s.len());
        proof {
            let e = Element { id: child_id, size: child_size, data: reader.at() as int };
            done = done + element_header_reads(s, pos) + tags_step_reads(s, e);
        }
        if child_id == ids::TAG {
            let tag_end = match element_end(reader.position(), child_size) {
                Ok(end) => end,
                Err(e) => {
                    return Err(e);
                },
            };
            if parse_tag(reader, child_size, target_uids, &mut counts).is_err() {
                let _ = reader.seek_to(tag_end);
            }
        } else {
            match reader.skip(child_size) {
                Ok(()) => {},
                Err(e) => {
                    return Err(e);
                },
            }
        }
    }
    Ok(counts)
}

} // verus!
