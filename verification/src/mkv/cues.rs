//! The index of a segment.
use vstd::prelude::*;
use crate::ebml::children::{
    element_end, end_of, expected_reads, fold_children, fold_reads, uint_at, uint_reads,
};
use crate::ebml::ids;
use crate::ebml::vint::{
    element_at, element_header_reads, id_at, read_element, read_element_id, read_element_size,
    Element,
};
use crate::error::{ErrorView, PgsError};
use crate::io::reader::{counted, SeekBufReader, Source};
use crate::lists::contains_u64;

verus! {

/// An index entry for a PGS track.
#[derive(Debug, Clone, Copy, PartialEq, Eq, Structural)]
pub struct PgsCuePoint {
    /// The track that the entry is for.
    pub track_number: u64,
    /// The entry's timestamp in the segment's timestamp units.
    pub time: u64,
    /// Where the cluster is.
    pub cluster_position: u64,
    /// Where the block is within the cluster's data, if the entry says so.
    pub relative_position: Option<u64>,
}

/// The track, the cluster's offset in the segment and the block's offset in the
/// cluster that a CueTrackPositions element gives.
#[derive(Clone, Copy)]
pub struct TrackPositions {
    pub track: u64,
    pub cluster: u64,
    pub relative: Option<u64>,
}

/// What a child of a CueTrackPositions element makes of the positions.
pub open spec fn positions_step(s: Seq<u8>, e: Element, p: TrackPositions) -> Result<
    (TrackPositions, int),
    ErrorView,
> {
    if e.id == ids::CUE_TRACK || e.id == ids::CUE_CLUSTER_POSITION || e.id
        == ids::CUE_RELATIVE_POSITION {
        match uint_at(s, e.data, e.size) {
            Err(error) => Err(error),
            Ok(v) => Ok(
                (
                    if e.id == ids::CUE_TRACK {
                        TrackPositions { track: v, ..p }
                    } else if e.id == ids::CUE_CLUSTER_POSITION {
                        TrackPositions { cluster: v, ..p }
                    } else {
                        TrackPositions { relative: Some(v), ..p }
                    },
                    e.data + e.size,
                ),
            ),
        }
    } else {
        match end_of(e.data, e.size) {
            Err(error) => Err(error),
            Ok(next) => Ok((p, next)),
        }
    }
}

/// The positions in the children of a CueTrackPositions element from `pos` on.
pub open spec fn positions_from(s: Seq<u8>, pos: int, end: int, p: TrackPositions) -> Result<
    (TrackPositions, int),
    ErrorView,
> {
    fold_children(s, pos, end, p, |e: Element, q: TrackPositions| positions_step(s, e, q))
}

/// No positions.
pub open spec fn no_positions() -> TrackPositions {
    TrackPositions { track: 0, cluster: 0, relative: None }
}

/// The positions in a CueTrackPositions element's data of `size` bytes at
/// `pos`, and the position behind it.
pub open spec fn positions_at(s: Seq<u8>, pos: int, size: u64) -> Result<
    (TrackPositions, int),
    ErrorView,
> {
    match end_of(pos, size) {
        Err(error) => Err(error),
        Ok(end) => positions_from(s, pos, end, no_positions()),
    }
}

/// What has been read of an index entry: its time, and the last track, cluster
/// position and relative position that match.
#[derive(Clone, Copy)]
pub struct CueFields {
    pub time: u64,
    pub matched: Option<(u64, u64, Option<u64>)>,
}

/// What a child of a CuePoint element makes of the entry. Cluster positions
/// count from the start of the segment's data, `base`.
pub open spec fn cue_step(
    s: Seq<u8>,
    e: Element,
    base: u64,
    tracks: Seq<u64>,
    c: CueFields,
) -> Result<
    (CueFields, int),
    ErrorView,
> {
    if e.id == ids::CUE_TIME {
        match uint_at(s, e.data, e.size) {
            Err(error) => Err(error),
            Ok(v) => Ok((CueFields { time: v, ..c }, e.data + e.size)),
        }
    } else if e.id == ids::CUE_TRACK_POSITIONS {
        match positions_at(s, e.data, e.size) {
            Err(error) => Err(error),
            Ok((p, next)) => if tracks.contains(p.track) {
                match end_of(base as int, p.cluster) {
                    Err(error) => Err(error),
                    Ok(cluster) => Ok(
                        (
                            CueFields { matched: Some((p.track, cluster as u64, p.relative)), ..c },
                            next,
                        ),
                    ),
                }
            } else {
                Ok((c, next))
            },
        }
    } else {
        match end_of(e.data, e.size) {
            Err(error) => Err(error),
            Ok(next) => Ok((c, next)),
        }
    }
}

/// What the children of a CuePoint element from `pos` on make of the entry.
pub open spec fn cue_from(
    s: Seq<u8>,
    pos: int,
    end: int,
    base: u64,
    tracks: Seq<u64>,
    c: CueFields,
) -> Result<(CueFields, int), ErrorView> {
    fold_children(s, pos, end, c, |e: Element, d: CueFields| cue_step(s, e, base, tracks, d))
}

/// The index entry that has been read, if it is for one of the tracks.
pub open spec fn cue_of(c: CueFields) -> Option<PgsCuePoint> {
    match c.matched {
        Some((track_number, cluster_position, relative_position)) => Some(
            PgsCuePoint { track_number, time: c.time, cluster_position, relative_position },
        ),
        None => None,
    }
}

/// The index entry in a CuePoint element's data of `size` bytes at `pos`, if it
/// is for one of the tracks, and the position behind it.
pub open spec fn cue_at(s: Seq<u8>, pos: int, size: u64, base: u64, tracks: Seq<u64>) -> Result<
    (Option<PgsCuePoint>, int),
    ErrorView,
> {
    match end_of(pos, size) {
        Err(error) => Err(error),
        Ok(end) => match cue_from(s, pos, end, base, tracks, CueFields { time: 0, matched: None }) {
            Err(error) => Err(error),
            Ok((c, next)) => Ok((cue_of(c), next)),
        },
    }
}

/// What a child of a Cues element makes of the index.
pub open spec fn cues_step(
    s: Seq<u8>,
    e: Element,
    base: u64,
    tracks: Seq<u64>,
    cues: Seq<PgsCuePoint>,
) -> Result<(Seq<PgsCuePoint>, int), ErrorView> {
    if e.id == ids::CUE_POINT {
        match cue_at(s, e.data, e.size, base, tracks) {
            Err(error) => Err(error),
            Ok((Some(cue), next)) => Ok((cues.push(cue), next)),
            Ok((None, next)) => Ok((cues, next)),
        }
    } else {
        match end_of(e.data, e.size) {
            Err(error) => Err(error),
            Ok(next) => Ok((cues, next)),
        }
    }
}

/// The index in the children of a Cues element from `pos` on, behind `cues`.
pub open spec fn cues_from(
    s: Seq<u8>,
    pos: int,
    end: int,
    base: u64,
    tracks: Seq<u64>,
    cues: Seq<PgsCuePoint>,
) -> Result<(Seq<PgsCuePoint>, int), ErrorView> {
    fold_children(
        s,
        pos,
        end,
        cues,
        |e: Element, c: Seq<PgsCuePoint>| cues_step(s, e, base, tracks, c),
    )
}

/// The number of bytes of a CueTrackPositions element's child, behind its header,
/// that are read.
pub open spec fn positions_step_reads(s: Seq<u8>, e: Element) -> int {
    if e.id == ids::CUE_TRACK || e.id == ids::CUE_CLUSTER_POSITION || e.id
        == ids::CUE_RELATIVE_POSITION {
        uint_reads(s, e)
    } else {
        0
    }
}

/// The number of bytes that reading the children of a CueTrackPositions element
/// from `pos` on reads.
pub open spec fn positions_reads_from(s: Seq<u8>, pos: int, end: int, p: TrackPositions) -> int {
    fold_reads(
        s,
        pos,
        end,
        p,
        |e: Element, x: TrackPositions| positions_step(s, e, x),
        |e: Element| positions_step_reads(s, e),
    )
}

/// The number of bytes that reading a CueTrackPositions element's data of `size`
/// bytes at `pos` reads.
pub open spec fn positions_reads(s: Seq<u8>, pos: int, size: u64) -> int {
    match end_of(pos, size) {
        Err(_) => 0,
        Ok(end) => positions_reads_from(s, pos, end, no_positions()),
    }
}

/// The number of bytes of a CuePoint element's child, behind its header, that are
/// read.
pub open spec fn cue_step_reads(s: Seq<u8>, e: Element) -> int {
    if e.id == ids::CUE_TIME {
        uint_reads(s, e)
    } else if e.id == ids::CUE_TRACK_POSITIONS {
        positions_reads(s, e.data, e.size)
    } else {
        0
    }
}

/// The number of bytes that reading the children of a CuePoint element from `pos`
/// on reads.
pub open spec fn cue_point_reads_from(
    s: Seq<u8>,
    pos: int,
    end: int,
    base: u64,
    tracks: Seq<u64>,
    c: CueFields,
) -> int {
    fold_reads(
        s,
        pos,
        end,
        c,
        |e: Element, x: CueFields| cue_step(s, e, base, tracks, x),
        |e: Element| cue_step_reads(s, e),
    )
}

/// The number of bytes that reading a CuePoint element's data of `size` bytes at
/// `pos` reads.
pub open spec fn cue_point_reads(
    s: Seq<u8>,
    pos: int,
    size: u64,
    base: u64,
    tracks: Seq<u64>,
) -> int {
    match end_of(pos, size) {
        Err(_) => 0,
        Ok(end) => cue_point_reads_from(
            s,
            pos,
            end,
            base,
            tracks,
            CueFields { time: 0, matched: None },
        ),
    }
}

/// The number of bytes of a Cues element's child, behind its header, that are
/// read.
pub open spec fn index_step_reads(s: Seq<u8>, e: Element, base: u64, tracks: Seq<u64>) -> int {
    if e.id == ids::CUE_POINT {
        cue_point_reads(s, e.data, e.size, base, tracks)
    } else {
        0
    }
}

/// The number of bytes that reading the children of a Cues element from `pos` on
/// reads.
pub open spec fn index_reads_from(
    s: Seq<u8>,
    pos: int,
    end: int,
    base: u64,
    tracks: Seq<u64>,
    cues: Seq<PgsCuePoint>,
) -> int {
    fold_reads(
        s,
        pos,
        end,
        cues,
        |e: Element, x: Seq<PgsCuePoint>| cues_step(s, e, base, tracks, x),
        |e: Element| index_step_reads(s, e, base, tracks),
    )
}

/// The number of bytes that reading the Cues element at `pos` reads.
pub open spec fn index_reads(s: Seq<u8>, pos: int, base: u64, tracks: Seq<u64>) -> int {
    expected_reads(
        s,
        pos,
        ids::CUES,
        |data: int, end: int| index_reads_from(s, data, end, base, tracks, Seq::empty()),
    )
}

/// The index entries for the tracks in the Cues element at `pos`.
pub open spec fn cues_at(s: Seq<u8>, pos: int, base: u64, tracks: Seq<u64>) -> Result<
    Seq<PgsCuePoint>,
    ErrorView,
> {
    match id_at(s, pos) {
        None => Err(ErrorView::InvalidVint),
        Some(id) => if id.value != ids::CUES {
            Err(ErrorView::InvalidMkv("expected Cues element"@))
        } else {
            match element_at(s, pos) {
                None => Err(ErrorView::InvalidVint),
                Some(e) => match end_of(e.data, e.size) {
                    Err(error) => Err(error),
                    Ok(end) => match cues_from(s, e.data, end, base, tracks, Seq::empty()) {
                        Err(error) => Err(error),
                        Ok((cues, _)) => Ok(cues),
                    },
                },
            }
        },
    }
}

fn parse_track_positions<R: Source>(reader: &mut SeekBufReader<R>, data_size: u64) -> (r: Result<
    TrackPositions,
    PgsError,
>)
    ensures
        final(reader).bytes() == old(reader).bytes(),
        ({
            let reads = positions_reads(old(reader).bytes(), old(reader).at() as int, data_size);
            &&& final(reader).consumed() == counted(old(reader).consumed(), reads)
            &&& reads >= 0
        }),
        match (r, positions_at(old(reader).bytes(), old(reader).at() as int, data_size)) {
            (Ok(p), Ok((v, next))) => {
                &&& p == v
                &&& final(reader).at() == next
                &&& next >= old(reader).at()
            },
            (Err(e), Err(v)) => e@ == v,
            _ => false,
        },
{
    let ghost s = reader.bytes();
    let ghost start = reader.at() as int;
    let end = match element_end(reader.position(), data_size) {
        Ok(end) => end,
        Err(e) => {
            return Err(e);
        },
    };
    let mut p = TrackPositions { track: 0, cluster: 0, relative: None };
    let ghost goal = positions_from(s, start, end as int, no_positions());
    let ghost reads = positions_reads(s, start, data_size);
    let ghost mut done: int = 0;
    while reader.position() < end
        invariant
            reader.bytes() == s,
            done >= 0,
            reader.consumed() == counted(old(reader).consumed(), done),
            reads == positions_reads(s, start, data_size),
            reads == done + positions_reads_from(s, reader.at() as int, end as int, p),
            s == old(reader).bytes(),
            start == old(reader).at(),
            reader.at() >= start,
            end == start + data_size,
            goal == positions_from(s, start, end as int, no_positions()),
            goal == positions_from(s, reader.at() as int, end as int, p),
        decreases
                (if reader.at() < s.len() {
                    s.len() - reader.at()
                } else {
                    0
                }),
    {
        let ghost pos = reader.at() as int;
        let (id, size) = match read_element(reader) {
            Ok(e) => e,
            Err(e) => {
                return Err(e);
            },
        };
        assert(pos < s.len());
        proof {
            let e = Element { id, size, data: reader.at() as int };
            done = done + element_header_reads(s, pos) + positions_step_reads(s, e);
        }
        if id == ids::CUE_TRACK {
            p.track = match reader.read_uint_be(size) {
                Ok(v) => v,
                Err(e) => {
                    return Err(e);
                },
            };
        } else if id == ids::CUE_CLUSTER_POSITION {
            p.cluster = match reader.read_uint_be(size) {
                Ok(v) => v,
                Err(e) => {
                    return Err(e);
                },
            };
        } else if id == ids::CUE_RELATIVE_POSITION {
            p.relative = match reader.read_uint_be(size) {
                Ok(v) => Some(v),
                Err(e) => {
                    return Err(e);
                },
            };
        } else {
            match reader.skip(size) {
                Ok(()) => {},
                Err(e) => {
                    return Err(e);
                },
            }
        }
    }
    Ok(p)
}

fn parse_cue_point<R: Source>(
    reader: &mut SeekBufReader<R>,
    data_size: u64,
    segment_data_start: u64,
    pgs_track_numbers: &[u64],
) -> (r: Result<Option<PgsCuePoint>, PgsError>)
    ensures
        final(reader).bytes() == old(reader).bytes(),
        ({
            let reads = cue_point_reads(
                old(reader).bytes(),
                old(reader).at() as int,
                data_size,
                segment_data_start,
                pgs_track_numbers@,
            );
            &&& final(reader).consumed() == counted(old(reader).consumed(), reads)
            &&& reads >= 0
        }),
        match (
            r,
            cue_at(
                old(reader).bytes(),
                old(reader).at() as int,
                data_size,
                segment_data_start,
                pgs_track_numbers@,
            ),
        ) {
            (Ok(cue), Ok((v, next))) => {
                &&& cue == v
                &&& final(reader).at() == next
                &&& next >= old(reader).at()
            },
            (Err(e), Err(v)) => e@ == v,
            _ => false,
        },
{
    let ghost s = reader.bytes();
    let ghost start = reader.at() as int;
    let ghost tracks = pgs_track_numbers@;
    let end = match element_end(reader.position(), data_size) {
        Ok(end) => end,
        Err(e) => {
            return Err(e);
        },
    };
    let mut c = CueFields { time: 0, matched: None };
    let ghost goal = cue_from(s, start, end as int, segment_data_start, tracks, c);
    let ghost reads = cue_point_reads(s, start, data_size, segment_data_start, tracks);
    let ghost mut done: int = 0;
    while reader.position() < end
        invariant
            reader.bytes() == s,
            done >= 0,
            reader.consumed() == counted(old(reader).consumed(), done),
            reads == cue_point_reads(s, start, data_size, segment_data_start, tracks),
            reads == done + cue_point_reads_from(
                s,
                reader.at() as int,
                end as int,
                segment_data_start,
                tracks,
                c,
            ),
            s == old(reader).bytes(),
            start == old(reader).at(),
            tracks == pgs_track_numbers@,
            reader.at() >= start,
            end == start + data_size,
            goal == cue_from(
                s,
                start,
                end as int,
                segment_data_start,
                tracks,
                CueFields { time: 0, matched: None },
            ),
            goal == cue_from(s, reader.at() as int, end as int, segment_data_start, tracks, c),
        decreases
                (if reader.at() < s.len() {
                    s.len() - reader.at()
                } else {
                    0
                }),
    {
        let ghost pos = reader.at() as int;
        let (id, size) = match read_element(reader) {
            Ok(e) => e,
            Err(e) => {
                return Err(e);
            },
        };
        assert(pos < s.len());
        proof {
            let e = Element { id, size, data: reader.at() as int };
            done = done + element_header_reads(s, pos) + cue_step_reads(s, e);
        }
        if id == ids::CUE_TIME {
            c.time = match reader.read_uint_be(size) {
                Ok(v) => v,
                Err(e) => {
                    return Err(e);
                },
            };
        } else if id == ids::CUE_TRACK_POSITIONS {
            let p = match parse_track_positions(reader, size) {
                Ok(p) => p,
                Err(e) => {
                    return Err(e);
                },
            };
            if contains_u64(pgs_track_numbers, p.track) {
                match element_end(segment_data_start, p.cluster) {
                    Ok(cluster) => {
                        c.matched = Some((p.track, cluster, p.relative));
                    },
                    Err(e) => {
                        return Err(e);
                    },
                }
            }
        } else {
            match reader.skip(size) {
                Ok(()) => {},
                Err(e) => {
                    return Err(e);
                },
            }
        }
    }
    match c.matched {
        Some((track_number, cluster_position, relative_position)) => Ok(
            Some(PgsCuePoint { track_number, time: c.time, cluster_position, relative_position }),
        ),
        None => Ok(None),
    }
}

/// Parses the Cues element at a position and returns the index entries for the
/// tracks.
///
/// There are none where only the video track is indexed.
pub fn parse_cues_for_tracks<R: Source>(
    reader: &mut SeekBufReader<R>,
    cues_position: u64,
    segment_data_start: u64,
    pgs_track_numbers: &[u64],
) -> (r: Result<Vec<PgsCuePoint>, PgsError>)
    ensures
        final(reader).bytes() == old(reader).bytes(),
        ({
            let reads = index_reads(
                old(reader).bytes(),
                cues_position as int,
                segment_data_start,
                pgs_track_numbers@,
            );
            &&& final(reader).consumed() == counted(old(reader).consumed(), reads)
            &&& reads >= 0
        }),
        match (
            r,
            cues_at(
                old(reader).bytes(),
                cues_position as int,
                segment_data_start,
                pgs_track_numbers@,
            ),
        ) {
            (Ok(cues), Ok(v)) => cues@ == v,
            (Err(e), Err(v)) => e@ == v,
            _ => false,
        },
{
    let ghost s = reader.bytes();
    let ghost tracks = pgs_track_numbers@;
    let _ = reader.seek_to(cues_position);
    let id = match read_element_id(reader) {
        Ok(id) => id,
        Err(e) => {
            return Err(e);
        },
    };
    if id.value != ids::CUES {
        return Err(PgsError::InvalidMkv("expected Cues element".to_owned()));
    }
    let size = match read_element_size(reader) {
        Ok(size) => size,
        Err(e) => {
            return Err(e);
        },
    };
    let end = match element_end(reader.position(), size.value) {
        Ok(end) => end,
        Err(e) => {
            return Err(e);
        },
    };
    let mut cue_points: Vec<PgsCuePoint> = Vec::new();
    let ghost goal = cues_from(
        s,
        reader.at() as int,
        end as int,
        segment_data_start,
        tracks,
        cue_points@,
    );
    let ghost reads = index_reads(s, cues_position as int, segment_data_start, tracks);
    let ghost mut done: int = reader.at() - cues_position;
    assert(cue_points@ =~= Seq::<PgsCuePoint>::empty());
    while reader.position() < end
        invariant
            reader.bytes() == s,
            done >= 0,
            reader.consumed() == counted(old(reader).consumed(), done),
            reads == index_reads(s, cues_position as int, segment_data_start, tracks),
            reads == done + index_reads_from(
                s,
                reader.at() as int,
                end as int,
                segment_data_start,
                tracks,
                cue_points@,
            ),
            s == old(reader).bytes(),
            tracks == pgs_track_numbers@,
            goal == cues_from(
                s,
                reader.at() as int,
                end as int,
                segment_data_start,
                tracks,
                cue_points@,
            ),
            goal matches Err(e) ==> cues_at(s, cues_position as int, segment_data_start, tracks)
                == Err::<Seq<PgsCuePoint>, ErrorView>(e),
        decreases
                (if reader.at() < s.len() {
                    s.len() - reader.at()
                } else {
                    0
                }),
    {
        let ghost pos = reader.at() as int;
        let (child_id, child_size) = match read_element(reader) {
            Ok(e) => e,
            Err(e) => {
                return Err(e);
            },
        };
        assert(pos < s.len());
        proof {
            let e = Element { id: child_id, size: child_size, data: reader.at() as int };
            done = done + element_header_reads(s, pos) + index_step_reads(s, e, segment_data_start, tracks);
        }
        if child_id == ids::CUE_POINT {
            match parse_cue_point(reader, child_size, segment_data_start, pgs_track_numbers) {
                Ok(Some(cue)) => {
                    cue_points.push(cue);
                },
                Ok(None) => {},
                Err(e) => {
                    return Err(e);
                },
            }
        } else {
            match reader.skip(child_size) {
                Ok(()) => {},
                Err(e) => {
                    return Err(e);
                },
            }
        }
    }
    Ok(cue_points)
}

} // verus!
