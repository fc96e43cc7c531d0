//! The PGS blocks of clusters.
use vstd::prelude::*;
use crate::ebml::children::{bytes_at, element_end, end_of, uint_at};
use crate::ebml::ids;
use crate::ebml::vint::{element_at, element_header_reads, header_stop, read_element, Element};
use crate::error::{ErrorView, IoError, PgsError};
use crate::io::reader::{counted, SeekBufReader, Source};
use crate::lists::contains_u64;
use crate::mkv::block::{block_header_at, block_header_reads, read_block_header};

verus! {

/// A block of a PGS track.
#[derive(Debug)]
pub struct PgsBlock {
    /// The track that the block belongs to.
    pub track_number: u64,
    /// The block's timestamp in the segment's timestamp units.
    pub timestamp: i64,
    /// The block's data.
    pub data: Vec<u8>,
}

/// A block as a mathematical value.
#[verifier::ext_equal]
pub struct BlockView {
    pub track_number: u64,
    pub timestamp: i64,
    pub data: Seq<u8>,
}

impl View for PgsBlock {
    type V = BlockView;

    open spec fn view(&self) -> BlockView {
        BlockView {
            track_number: self.track_number,
            timestamp: self.timestamp,
            data: self.data@,
        }
    }
}

/// The views of blocks.
pub open spec fn block_views(blocks: Seq<PgsBlock>) -> Seq<BlockView> {
    Seq::new(blocks.len(), |i: int| blocks[i]@)
}

/// The position behind `n` unwanted bytes at `pos`. They are skipped, or, when
/// reading is to be sequential, drained, which needs them to be there.
pub open spec fn passed(s: Seq<u8>, pos: int, n: u64, sequential: bool) -> Result<int, ErrorView> {
    if sequential {
        if n == 0 || pos + n <= s.len() {
            Ok(pos + n)
        } else {
            Err(ErrorView::Io(IoError::DrainEof))
        }
    } else {
        end_of(pos, n)
    }
}

/// The block of `size` bytes at `pos`, if it belongs to one of the tracks, and
/// the position behind it.
pub open spec fn block_at(
    s: Seq<u8>,
    pos: int,
    size: u64,
    cluster_timestamp: i64,
    tracks: Seq<u64>,
    sequential: bool,
) -> Result<(Option<BlockView>, int), ErrorView> {
    match end_of(pos, size) {
        Err(e) => Err(e),
        Ok(end) => match block_header_at(s, pos) {
            Err(e) => Err(e),
            Ok((header, at)) => if end < at {
                Err(ErrorView::Io(IoError::InvalidPosition))
            } else if !tracks.contains(header.track_number) {
                match passed(s, at, (end - at) as u64, sequential) {
                    Err(e) => Err(e),
                    Ok(next) => Ok((None, next)),
                }
            } else {
                match bytes_at(s, at, (end - at) as u64) {
                    Err(e) => Err(e),
                    Ok(data) => Ok(
                        (
                            Some(
                                BlockView {
                                    track_number: header.track_number,
                                    timestamp: cluster_timestamp.wrapping_add(
                                        header.relative_timestamp as i64,
                                    ),
                                    data,
                                },
                            ),
                            end,
                        ),
                    ),
                }
            },
        },
    }
}

/// The number of bytes that passing over `n` unwanted bytes at `pos` reads: none
/// if they are skipped.
pub open spec fn passed_reads(s: Seq<u8>, pos: int, n: u64, sequential: bool) -> int {
    if !sequential {
        0
    } else if n == 0 || pos + n <= s.len() {
        n as int
    } else if pos < s.len() {
        s.len() - pos
    } else {
        0
    }
}

/// The number of bytes that reading the block of `size` bytes at `pos` reads:
/// its header, and its data if it belongs to one of the tracks.
pub open spec fn block_reads(
    s: Seq<u8>,
    pos: int,
    size: u64,
    tracks: Seq<u64>,
    sequential: bool,
) -> int {
    match end_of(pos, size) {
        Err(_) => 0,
        Ok(end) => match block_header_at(s, pos) {
            Err(_) => block_header_reads(s, pos),
            Ok((header, at)) => if end < at {
                at - pos
            } else if !tracks.contains(header.track_number) {
                at - pos + passed_reads(s, at, (end - at) as u64, sequential)
            } else if end <= s.len() {
                end - pos
            } else {
                at - pos
            },
        },
    }
}

/// `blocks`, with `block` behind them if there is one.
pub open spec fn with_block(blocks: Seq<BlockView>, block: Option<BlockView>) -> Seq<BlockView> {
    match block {
        Some(b) => blocks.push(b),
        None => blocks,
    }
}

/// The blocks of the tracks in a block group from `pos` on, behind `blocks`,
/// and the position where reading stops. A malformed child header ends the
/// group.
pub open spec fn group_from(
    s: Seq<u8>,
    pos: int,
    end: int,
    cluster_timestamp: i64,
    tracks: Seq<u64>,
    sequential: bool,
    blocks: Seq<BlockView>,
) -> Result<(Seq<BlockView>, int), ErrorView>
    decreases
            (if pos < s.len() {
                s.len() - pos
            } else {
                0
            }),
{
    if pos >= end {
        Ok((blocks, pos))
    } else {
        match element_at(s, pos) {
            None => Ok((blocks, header_stop(s, pos))),
            Some(e) => match group_step(s, e, cluster_timestamp, tracks, sequential) {
                Err(error) => Err(error),
                Ok((block, next)) => if next > pos {
                    group_from(
                        s,
                        next,
                        end,
                        cluster_timestamp,
                        tracks,
                        sequential,
                        with_block(blocks, block),
                    )
                } else {
                    Err(ErrorView::Io(IoError::InvalidPosition))
                },
            },
        }
    }
}

/// What one child of a block group gives: a block, if it is one of the tracks,
/// and the position behind it.
pub open spec fn group_step(
    s: Seq<u8>,
    e: Element,
    cluster_timestamp: i64,
    tracks: Seq<u64>,
    sequential: bool,
) -> Result<(Option<BlockView>, int), ErrorView> {
    if e.id == ids::BLOCK {
        block_at(s, e.data, e.size, cluster_timestamp, tracks, sequential)
    } else {
        match passed(s, e.data, e.size, sequential) {
            Err(error) => Err(error),
            Ok(next) => Ok((None, next)),
        }
    }
}

/// The number of bytes of one child of a block group, behind its header, that
/// are read.
pub open spec fn group_step_reads(
    s: Seq<u8>,
    e: Element,
    tracks: Seq<u64>,
    sequential: bool,
) -> int {
    if e.id == ids::BLOCK {
        block_reads(s, e.data, e.size, tracks, sequential)
    } else {
        passed_reads(s, e.data, e.size, sequential)
    }
}

/// The number of bytes that reading a block group from `pos` on reads: the
/// headers of its children, those of its blocks, and the data of blocks of the
/// tracks.
pub open spec fn group_reads(
    s: Seq<u8>,
    pos: int,
    end: int,
    tracks: Seq<u64>,
    sequential: bool,
) -> int
    decreases
            (if pos < s.len() {
                s.len() - pos
            } else {
                0
            }),
{
    if pos >= end {
        0
    } else {
        element_header_reads(s, pos) + match element_at(s, pos) {
            None => 0,
            Some(e) => group_step_reads(s, e, tracks, sequential) + match group_step(
                s,
                e,
                0,
                tracks,
                sequential,
            ) {
                Err(_) => 0,
                Ok((_, next)) => if next > pos {
                    group_reads(s, next, end, tracks, sequential)
                } else {
                    0
                },
            },
        }
    }
}

/// The blocks of the tracks in a cluster from `pos` on, behind `blocks`, and
/// the position where reading stops. A malformed child header ends the
/// cluster. The cluster's timestamp holds for the blocks that follow it.
pub open spec fn scan_from(
    s: Seq<u8>,
    pos: int,
    end: int,
    cluster_timestamp: i64,
    tracks: Seq<u64>,
    sequential: bool,
    blocks: Seq<BlockView>,
) -> Result<(Seq<BlockView>, int), ErrorView>
    decreases
            (if pos < s.len() {
                s.len() - pos
            } else {
                0
            }),
{
    if pos >= end {
        Ok((blocks, pos))
    } else {
        match element_at(s, pos) {
            None => Ok((blocks, header_stop(s, pos))),
            Some(e) => match scan_step(s, e, cluster_timestamp, tracks, sequential, blocks) {
                Err(error) => Err(error),
                Ok((timestamp, more, next)) => if next > pos {
                    scan_from(s, next, end, timestamp, tracks, sequential, more)
                } else {
                    Err(ErrorView::Io(IoError::InvalidPosition))
                },
            },
        }
    }
}

/// What one child of a cluster makes of the cluster's timestamp and blocks, and
/// the position behind it.
pub open spec fn scan_step(
    s: Seq<u8>,
    e: Element,
    cluster_timestamp: i64,
    tracks: Seq<u64>,
    sequential: bool,
    blocks: Seq<BlockView>,
) -> Result<(i64, Seq<BlockView>, int), ErrorView> {
    if e.id == ids::TIMESTAMP {
        match uint_at(s, e.data, e.size) {
            Err(error) => Err(error),
            Ok(t) => Ok((t as i64, blocks, e.data + e.size)),
        }
    } else if e.id == ids::SIMPLE_BLOCK {
        match block_at(s, e.data, e.size, cluster_timestamp, tracks, sequential) {
            Err(error) => Err(error),
            Ok((block, next)) => Ok((cluster_timestamp, with_block(blocks, block), next)),
        }
    } else if e.id == ids::BLOCK_GROUP {
        match end_of(e.data, e.size) {
            Err(error) => Err(error),
            Ok(end) => match group_from(
                s,
                e.data,
                end,
                cluster_timestamp,
                tracks,
                sequential,
                blocks,
            ) {
                Err(error) => Err(error),
                Ok((more, next)) => Ok((cluster_timestamp, more, next)),
            },
        }
    } else {
        match passed(s, e.data, e.size, sequential) {
            Err(error) => Err(error),
            Ok(next) => Ok((cluster_timestamp, blocks, next)),
        }
    }
}

/// The number of bytes of one child of a cluster, behind its header, that are
/// read.
pub open spec fn scan_step_reads(
    s: Seq<u8>,
    e: Element,
    tracks: Seq<u64>,
    sequential: bool,
) -> int {
    if e.id == ids::TIMESTAMP {
        if uint_at(s, e.data, e.size) is Ok {
            e.size as int
        } else {
            0
        }
    } else if e.id == ids::SIMPLE_BLOCK {
        block_reads(s, e.data, e.size, tracks, sequential)
    } else if e.id == ids::BLOCK_GROUP {
        match end_of(e.data, e.size) {
            Err(_) => 0,
            Ok(end) => group_reads(s, e.data, end, tracks, sequential),
        }
    } else {
        passed_reads(s, e.data, e.size, sequential)
    }
}

/// The number of bytes that reading a cluster from `pos` on reads: the headers
/// of its children and of its blocks, its timestamp, and the data of blocks of
/// the tracks. Only when reading is sequential, other data is read too.
pub open spec fn scan_reads(
    s: Seq<u8>,
    pos: int,
    end: int,
    tracks: Seq<u64>,
    sequential: bool,
) -> int
    decreases
            (if pos < s.len() {
                s.len() - pos
            } else {
                0
            }),
{
    if pos >= end {
        0
    } else {
        element_header_reads(s, pos) + match element_at(s, pos) {
            None => 0,
            Some(e) => scan_step_reads(s, e, tracks, sequential) + match scan_step(
                s,
                e,
                0,
                tracks,
                sequential,
                Seq::empty(),
            ) {
                Err(_) => 0,
                Ok((_, _, next)) => if next > pos {
                    scan_reads(s, next, end, tracks, sequential)
                } else {
                    0
                },
            },
        }
    }
}

/// The number of bytes that reading the cluster whose `size` bytes of data start
/// at `start` reads, from `from` on.
pub open spec fn cluster_reads(
    s: Seq<u8>,
    start: int,
    size: u64,
    from: int,
    tracks: Seq<u64>,
    sequential: bool,
) -> int {
    match end_of(start, size) {
        Err(_) => 0,
        Ok(end) => scan_reads(s, from, end, tracks, sequential),
    }
}

/// Where reading goes on behind a child of a block group does not depend on the
/// timestamp.
pub(crate) proof fn lemma_group_step_moves(
    s: Seq<u8>,
    e: Element,
    a: i64,
    b: i64,
    tracks: Seq<u64>,
    sequential: bool,
)
    ensures
        match (group_step(s, e, a, tracks, sequential), group_step(s, e, b, tracks, sequential)) {
            (Ok((_, m)), Ok((_, n))) => m == n,
            (Err(x), Err(y)) => x == y,
            _ => false,
        },
{
}

/// Where reading a block group stops depends neither on the timestamp nor on
/// the blocks before it.
proof fn lemma_group_moves(
    s: Seq<u8>,
    pos: int,
    end: int,
    a: i64,
    b: i64,
    tracks: Seq<u64>,
    sequential: bool,
    p: Seq<BlockView>,
    q: Seq<BlockView>,
)
    ensures
        match (
            group_from(s, pos, end, a, tracks, sequential, p),
            group_from(s, pos, end, b, tracks, sequential, q),
        ) {
            (Ok((_, m)), Ok((_, n))) => m == n,
            (Err(x), Err(y)) => x == y,
            _ => false,
        },
    decreases
            (if pos < s.len() {
                s.len() - pos
            } else {
                0
            }),
{
    if pos < end {
        if let Some(e) = element_at(s, pos) {
            lemma_group_step_moves(s, e, a, b, tracks, sequential);
            if let Ok((x, next)) = group_step(s, e, a, tracks, sequential) {
                let (y, _) = group_step(s, e, b, tracks, sequential)->Ok_0;
                if next > pos {
                    lemma_group_moves(
                        s,
                        next,
                        end,
                        a,
                        b,
                        tracks,
                        sequential,
                        with_block(p, x),
                        with_block(q, y),
                    );
                }
            }
        }
    }
}

/// Where reading goes on behind a child of a cluster depends neither on the
/// timestamp nor on the blocks before it.
pub(crate) proof fn lemma_scan_step_moves(
    s: Seq<u8>,
    e: Element,
    a: i64,
    b: i64,
    tracks: Seq<u64>,
    sequential: bool,
    p: Seq<BlockView>,
    q: Seq<BlockView>,
)
    ensures
        match (
            scan_step(s, e, a, tracks, sequential, p),
            scan_step(s, e, b, tracks, sequential, q),
        ) {
            (Ok((_, _, m)), Ok((_, _, n))) => m == n,
            (Err(x), Err(y)) => x == y,
            _ => false,
        },
{
    if e.id == ids::BLOCK_GROUP {
        if let Ok(end) = end_of(e.data, e.size) {
            lemma_group_moves(s, e.data, end, a, b, tracks, sequential, p, q);
        }
    }
}

/// The blocks of the tracks in the cluster whose `size` bytes of data start at
/// `start`, and the position where reading stops.
pub open spec fn cluster_blocks(
    s: Seq<u8>,
    start: int,
    size: u64,
    from: int,
    tracks: Seq<u64>,
    sequential: bool,
) -> Result<(Seq<BlockView>, int), ErrorView> {
    match end_of(start, size) {
        Err(e) => Err(e),
        Ok(end) => scan_from(s, from, end, 0, tracks, sequential, Seq::empty()),
    }
}

/// Whether a result of reading from `reader` on is what `expected` says, the
/// reader is where it says, and `reads` bytes were read.
pub open spec fn blocks_read<R: Source>(
    before: &SeekBufReader<R>,
    after: &SeekBufReader<R>,
    r: Result<Vec<PgsBlock>, PgsError>,
    expected: Result<(Seq<BlockView>, int), ErrorView>,
    reads: int,
) -> bool {
    &&& after.bytes() == before.bytes()
    &&& after.consumed() == counted(before.consumed(), reads)
    &&& reads >= 0
    &&& match (r, expected) {
        (Ok(blocks), Ok((v, next))) => block_views(blocks@) == v && after.at() == next,
        (Err(e), Err(v)) => e@ == v,
        _ => false,
    }
}

/// Reads the PGS blocks of the tracks in a cluster, skipping other data.
pub fn scan_cluster_for_pgs<R: Source>(
    reader: &mut SeekBufReader<R>,
    cluster_data_start: u64,
    cluster_data_size: u64,
    pgs_track_numbers: &[u64],
) -> (r: Result<Vec<PgsBlock>, PgsError>)
    ensures
        blocks_read(
            old(reader),
            final(reader),
            r,
            cluster_blocks(
                old(reader).bytes(),
                cluster_data_start as int,
                cluster_data_size,
                cluster_data_start as int,
                pgs_track_numbers@,
                false,
            ),
            cluster_reads(
                old(reader).bytes(),
                cluster_data_start as int,
                cluster_data_size,
                cluster_data_start as int,
                pgs_track_numbers@,
                false,
            ),
        ),
{
    scan_cluster_inner(reader, cluster_data_start, cluster_data_size, pgs_track_numbers, false)
}

/// Reads the PGS blocks of the tracks in a cluster from the reader's position
/// on, reading through other data.
pub fn scan_cluster_for_pgs_sequential<R: Source>(
    reader: &mut SeekBufReader<R>,
    cluster_data_start: u64,
    cluster_data_size: u64,
    pgs_track_numbers: &[u64],
) -> (r: Result<Vec<PgsBlock>, PgsError>)
    ensures
        blocks_read(
            old(reader),
            final(reader),
            r,
            cluster_blocks(
                old(reader).bytes(),
                cluster_data_start as int,
                cluster_data_size,
                old(reader).at() as int,
                pgs_track_numbers@,
                true,
            ),
            cluster_reads(
                old(reader).bytes(),
                cluster_data_start as int,
                cluster_data_size,
                old(reader).at() as int,
                pgs_track_numbers@,
                true,
            ),
        ),
        final(reader).consumed() == counted(
            old(reader).consumed(),
            final(reader).at() - old(reader).at(),
        ),
{
    scan_cluster_inner(reader, cluster_data_start, cluster_data_size, pgs_track_numbers, true)
}

fn scan_cluster_inner<R: Source>(
    reader: &mut SeekBufReader<R>,
    cluster_data_start: u64,
    cluster_data_size: u64,
    pgs_track_numbers: &[u64],
    sequential: bool,
) -> (r: Result<Vec<PgsBlock>, PgsError>)
    ensures
        blocks_read(
            old(reader),
            final(reader),
            r,
            cluster_blocks(
                old(reader).bytes(),
                cluster_data_start as int,
                cluster_data_size,
                if sequential {
                    old(reader).at() as int
                } else {
                    cluster_data_start as int
                },
                pgs_track_numbers@,
                sequential,
            ),
            cluster_reads(
                old(reader).bytes(),
                cluster_data_start as int,
                cluster_data_size,
                if sequential {
                    old(reader).at() as int
                } else {
                    cluster_data_start as int
                },
                pgs_track_numbers@,
                sequential,
            ),
        ),
        sequential ==> final(reader).consumed() == counted(
            old(reader).consumed(),
            final(reader).at() - old(reader).at(),
        ),
{
    let ghost s = reader.bytes();
    let ghost tracks = pgs_track_numbers@;
    if !sequential {
        let _ = reader.seek_to(cluster_data_start);
    }
    let cluster_end = match element_end(cluster_data_start, cluster_data_size) {
        Ok(end) => end,
        Err(e) => {
            return Err(e);
        },
    };
    let mut cluster_timestamp: i64 = 0;
    let mut pgs_blocks: Vec<PgsBlock> = Vec::new();
    let ghost goal = scan_from(
        s,
        reader.at() as int,
        cluster_end as int,
        0,
        tracks,
        sequential,
        Seq::empty(),
    );
    let ghost reads = scan_reads(s, reader.at() as int, cluster_end as int, tracks, sequential);
    let ghost mut done: int = 0;
    assert(block_views(pgs_blocks@) =~= Seq::<BlockView>::empty());
    while reader.position() < cluster_end
        invariant_except_break
            reader.bytes() == s,
            done >= 0,
            reader.consumed() == counted(old(reader).consumed(), done),
            sequential ==> done == reader.at() - old(reader).at(),
            reads == cluster_reads(
                s,
                cluster_data_start as int,
                cluster_data_size,
                if sequential {
                    old(reader).at() as int
                } else {
                    cluster_data_start as int
                },
                tracks,
                sequential,
            ),
            reads == done + scan_reads(
                s,
                reader.at() as int,
                cluster_end as int,
                tracks,
                sequential,
            ),
            s == old(reader).bytes(),
            tracks == pgs_track_numbers@,
            goal == cluster_blocks(
                s,
                cluster_data_start as int,
                cluster_data_size,
                if sequential {
                    old(reader).at() as int
                } else {
                    cluster_data_start as int
                },
                tracks,
                sequential,
            ),
            goal == scan_from(
                s,
                reader.at() as int,
                cluster_end as int,
                cluster_timestamp,
                tracks,
                sequential,
                block_views(pgs_blocks@),
            ),
        ensures
            reader.bytes() == s,
            reads >= 0,
            reader.consumed() == counted(old(reader).consumed(), reads),
            sequential ==> reads == reader.at() - old(reader).at(),
            goal == Ok::<(Seq<BlockView>, int), ErrorView>(
                (block_views(pgs_blocks@), reader.at() as int),
            ),
        decreases
                (if reader.at() < s.len() {
                    s.len() - reader.at()
                } else {
                    0
                }),
    {
        let ghost pos = reader.at() as int;
        let (id, size) = match read_element(reader) {
            Ok(e) => e,
            Err(_) => {
                break ;
            },
        };
        assert(pos < s.len());
        proof {
            let e = Element { id, size, data: reader.at() as int };
            lemma_scan_step_moves(
                s,
                e,
                cluster_timestamp,
                0,
                tracks,
                sequential,
                block_views(pgs_blocks@),
                Seq::empty(),
            );
            done = done + element_header_reads(s, pos) + scan_step_reads(s, e, tracks, sequential);
        }
        if id == ids::TIMESTAMP {
            cluster_timestamp = match reader.read_uint_be(size) {
                Ok(t) => t as i64,
                Err(e) => {
                    return Err(e);
                },
            };
        } else if id == ids::SIMPLE_BLOCK {
            match extract_pgs_from_block(
                reader,
                size,
                cluster_timestamp,
                pgs_track_numbers,
                &mut pgs_blocks,
                sequential,
            ) {
                Ok(()) => {},
                Err(e) => {
                    return Err(e);
                },
            }
        } else if id == ids::BLOCK_GROUP {
            match extract_pgs_from_block_group(
                reader,
                size,
                cluster_timestamp,
                pgs_track_numbers,
                &mut pgs_blocks,
                sequential,
            ) {
                Ok(()) => {},
                Err(e) => {
                    return Err(e);
                },
            }
        } else {
            match skip_or_drain(reader, size, sequential) {
                Ok(()) => {},
                Err(e) => {
                    return Err(e);
                },
            }
        }
    }
    Ok(pgs_blocks)
}

/// Passes over `n` bytes, by skipping or draining them.
fn skip_or_drain<R: Source>(reader: &mut SeekBufReader<R>, n: u64, sequential: bool) -> (r: Result<
    (),
    PgsError,
>)
    ensures
        final(reader).bytes() == old(reader).bytes(),
        ({
            let reads = passed_reads(old(reader).bytes(), old(reader).at() as int, n, sequential);
            &&& final(reader).consumed() == counted(old(reader).consumed(), reads)
            &&& reads >= 0
            &&& sequential ==> final(reader).at() == old(reader).at() + reads
        }),
        match (r, passed(old(reader).bytes(), old(reader).at() as int, n, sequential)) {
            (Ok(()), Ok(next)) => final(reader).at() == next,
            (Err(e), Err(v)) => e@ == v,
            _ => false,
        },
{
    if sequential {
        reader.drain(n)
    } else {
        reader.skip(n)
    }
}

/// Reads a block if it belongs to one of the tracks, and passes over it
/// otherwise.
fn extract_pgs_from_block<R: Source>(
    reader: &mut SeekBufReader<R>,
    block_size: u64,
    cluster_timestamp: i64,
    pgs_track_numbers: &[u64],
    pgs_blocks: &mut Vec<PgsBlock>,
    sequential: bool,
) -> (r: Result<(), PgsError>)
    ensures
        final(reader).bytes() == old(reader).bytes(),
        ({
            let reads = block_reads(
                old(reader).bytes(),
                old(reader).at() as int,
                block_size,
                pgs_track_numbers@,
                sequential,
            );
            &&& final(reader).consumed() == counted(old(reader).consumed(), reads)
            &&& reads >= 0
            &&& sequential ==> final(reader).at() == old(reader).at() + reads
        }),
        match (
            r,
            block_at(
                old(reader).bytes(),
                old(reader).at() as int,
                block_size,
                cluster_timestamp,
                pgs_track_numbers@,
                sequential,
            ),
        ) {
            (Ok(()), Ok((block, next))) => block_views(final(pgs_blocks)@) == with_block(
                block_views(old(pgs_blocks)@),
                block,
            ) && final(reader).at() == next && next >= old(reader).at(),
            (Err(e), Err(v)) => e@ == v,
            _ => false,
        },
{
    let block_end = match element_end(reader.position(), block_size) {
        Ok(end) => end,
        Err(e) => {
            return Err(e);
        },
    };
    let header = match read_block_header(reader) {
        Ok(h) => h,
        Err(e) => {
            return Err(e);
        },
    };
    let at: u64 = reader.position();
    if block_end < at {
        return Err(PgsError::Io(IoError::InvalidPosition));
    }
    if !contains_u64(pgs_track_numbers, header.track_number) {
        return skip_or_drain(reader, block_end - at, sequential);
    }
    let data = match reader.read_bytes(block_end - at) {
        Ok(d) => d,
        Err(e) => {
            return Err(e);
        },
    };
    let block = PgsBlock {
        track_number: header.track_number,
        timestamp: cluster_timestamp.wrapping_add(header.relative_timestamp as i64),
        data,
    };
    pgs_blocks.push(block);
    assert(block_views(pgs_blocks@) =~= block_views(old(pgs_blocks)@).push(block@));
    Ok(())
}

/// Reads the blocks of the tracks in a block group.
fn extract_pgs_from_block_group<R: Source>(
    reader: &mut SeekBufReader<R>,
    data_size: u64,
    cluster_timestamp: i64,
    pgs_track_numbers: &[u64],
    pgs_blocks: &mut Vec<PgsBlock>,
    sequential: bool,
) -> (r: Result<(), PgsError>)
    ensures
        final(reader).bytes() == old(reader).bytes(),
        ({
            let reads = match end_of(old(reader).at() as int, data_size) {
                Err(_) => 0,
                Ok(end) => group_reads(
                    old(reader).bytes(),
                    old(reader).at() as int,
                    end,
                    pgs_track_numbers@,
                    sequential,
                ),
            };
            &&& final(reader).consumed() == counted(old(reader).consumed(), reads)
            &&& reads >= 0
            &&& sequential ==> final(reader).at() == old(reader).at() + reads
        }),
        match (
            r,
            match end_of(old(reader).at() as int, data_size) {
                Err(e) => Err(e),
                Ok(end) => group_from(
                    old(reader).bytes(),
                    old(reader).at() as int,
                    end,
                    cluster_timestamp,
                    pgs_track_numbers@,
                    sequential,
                    block_views(old(pgs_blocks)@),
                ),
            },
        ) {
            (Ok(()), Ok((blocks, next))) => {
                &&& block_views(final(pgs_blocks)@) == blocks
                &&& final(reader).at() == next
                &&& next >= old(reader).at()
            },
            (Err(e), Err(v)) => e@ == v,
            _ => false,
        },
{
    let ghost s = reader.bytes();
    let ghost start = reader.at();
    let ghost tracks = pgs_track_numbers@;
    let end = match element_end(reader.position(), data_size) {
        Ok(end) => end,
        Err(e) => {
            return Err(e);
        },
    };
    let ghost goal = group_from(
        s,
        start as int,
        end as int,
        cluster_timestamp,
        tracks,
        sequential,
        block_views(pgs_blocks@),
    );
    let ghost reads = group_reads(s, start as int, end as int, tracks, sequential);
    let ghost mut done: int = 0;
    while reader.position() < end
        invariant_except_break
            reader.bytes() == s,
            done >= 0,
            reader.consumed() == counted(old(reader).consumed(), done),
            sequential ==> done == reader.at() - start,
            reads == group_reads(s, start as int, end as int, tracks, sequential),
            reads == done + group_reads(s, reader.at() as int, end as int, tracks, sequential),
            s == old(reader).bytes(),
            start == old(reader).at(),
            end == start + data_size,
            reader.at() >= start,
            goal == group_from(
                s,
                start as int,
                end as int,
                cluster_timestamp,
                tracks,
                sequential,
                block_views(old(pgs_blocks)@),
            ),
            tracks == pgs_track_numbers@,
            goal == group_from(
                s,
                reader.at() as int,
                end as int,
                cluster_timestamp,
                tracks,
                sequential,
                block_views(pgs_blocks@),
            ),
        ensures
            reader.bytes() == s,
            reads >= 0,
            reader.consumed() == counted(old(reader).consumed(), reads),
            sequential ==> reads == reader.at() - start,
            reader.at() >= start,
            goal == Ok::<(Seq<BlockView>, int), ErrorView>(
                (block_views(pgs_blocks@), reader.at() as int),
            ),
        decreases
                (if reader.at() < s.len() {
                    s.len() - reader.at()
                } else {
                    0
                }),
    {
        let ghost pos = reader.at() as int;
        let (id, size) = match read_element(reader) {
            Ok(e) => e,
            Err(_) => {
                break ;
            },
        };
        assert(pos < s.len());
        proof {
            let e = Element { id, size, data: reader.at() as int };
            lemma_group_step_moves(s, e, cluster_timestamp, 0, tracks, sequential);
            done = done + element_header_reads(s, pos) + group_step_reads(s, e, tracks, sequential);
        }
        if id == ids::BLOCK {
            match extract_pgs_from_block(
                reader,
                size,
                cluster_timestamp,
                pgs_track_numbers,
                pgs_blocks,
                sequential,
            ) {
                Ok(()) => {},
                Err(e) => {
                    return Err(e);
                },
            }
        } else {
            match skip_or_drain(reader, size, sequential) {
                Ok(()) => {},
                Err(e) => {
                    return Err(e);
                },
            }
        }
    }
    Ok(())
}

/// The block of `size` bytes at `pos`, with a known timestamp, if it belongs to
/// one of the tracks.
pub open spec fn lone_block_at(
    s: Seq<u8>,
    pos: int,
    size: u64,
    timestamp: i64,
    tracks: Seq<u64>,
) -> Result<Option<BlockView>, ErrorView> {
    match end_of(pos, size) {
        Err(e) => Err(e),
        Ok(end) => match block_header_at(s, pos) {
            Err(e) => Err(e),
            Ok((header, at)) => if !tracks.contains(header.track_number) {
                Ok(None)
            } else if end < at {
                Err(ErrorView::Io(IoError::InvalidPosition))
            } else {
                match bytes_at(s, at, (end - at) as u64) {
                    Err(e) => Err(e),
                    Ok(data) => Ok(
                        Some(
                            BlockView {
                                track_number: header.track_number,
                                timestamp,
                                data,
                            },
                        ),
                    ),
                }
            },
        },
    }
}

/// The first block in a block group from `pos` on, if there is one and it
/// belongs to one of the tracks.
pub open spec fn first_block_from(
    s: Seq<u8>,
    pos: int,
    end: int,
    timestamp: i64,
    tracks: Seq<u64>,
) -> Result<Option<BlockView>, ErrorView>
    decreases
            (if pos < s.len() {
                s.len() - pos
            } else {
                0
            }),
{
    if pos >= end {
        Ok(None)
    } else {
        match element_at(s, pos) {
            None => Ok(None),
            Some(e) => if e.id == ids::BLOCK {
                lone_block_at(s, e.data, e.size, timestamp, tracks)
            } else {
                match end_of(e.data, e.size) {
                    Err(error) => Err(error),
                    Ok(next) => if next > pos {
                        first_block_from(s, next, end, timestamp, tracks)
                    } else {
                        Ok(None)
                    },
                }
            },
        }
    }
}

/// The number of bytes that reading a block of `size` bytes at `pos` reads: its
/// header, and its data if it belongs to one of the tracks.
pub open spec fn lone_block_reads(s: Seq<u8>, pos: int, size: u64, tracks: Seq<u64>) -> int {
    match end_of(pos, size) {
        Err(_) => 0,
        Ok(end) => match block_header_at(s, pos) {
            Err(_) => block_header_reads(s, pos),
            Ok((header, at)) => if tracks.contains(header.track_number) && at <= end <= s.len() {
                end - pos
            } else {
                at - pos
            },
        },
    }
}

/// The number of bytes that looking for the first block in a block group from
/// `pos` on reads: the headers of the children up to it, and the block.
pub open spec fn first_block_reads(s: Seq<u8>, pos: int, end: int, tracks: Seq<u64>) -> int
    decreases
            (if pos < s.len() {
                s.len() - pos
            } else {
                0
            }),
{
    if pos >= end {
        0
    } else {
        element_header_reads(s, pos) + match element_at(s, pos) {
            None => 0,
            Some(e) => if e.id == ids::BLOCK {
                lone_block_reads(s, e.data, e.size, tracks)
            } else {
                match end_of(e.data, e.size) {
                    Err(_) => 0,
                    Ok(next) => if next > pos {
                        first_block_reads(s, next, end, tracks)
                    } else {
                        0
                    },
                }
            },
        }
    }
}

/// The number of bytes that reading the block or block group at `pos` reads.
pub open spec fn indexed_block_reads(s: Seq<u8>, pos: int, tracks: Seq<u64>) -> int {
    element_header_reads(s, pos) + match element_at(s, pos) {
        None => 0,
        Some(e) => if e.id == ids::SIMPLE_BLOCK || e.id == ids::BLOCK {
            lone_block_reads(s, e.data, e.size, tracks)
        } else if e.id == ids::BLOCK_GROUP {
            match end_of(e.data, e.size) {
                Err(_) => 0,
                Ok(end) => first_block_reads(s, e.data, end, tracks),
            }
        } else {
            0
        },
    }
}

/// The block that the block or block group at `pos` holds, if it belongs to one
/// of the tracks. Its timestamp is the one that the index gives, which is that
/// of the block itself.
pub open spec fn indexed_block(s: Seq<u8>, pos: int, cue_time: u64, tracks: Seq<u64>) -> Result<
    Option<BlockView>,
    ErrorView,
> {
    match element_at(s, pos) {
        None => Ok(None),
        Some(e) => if e.id == ids::SIMPLE_BLOCK || e.id == ids::BLOCK {
            lone_block_at(s, e.data, e.size, cue_time as i64, tracks)
        } else if e.id == ids::BLOCK_GROUP {
            match end_of(e.data, e.size) {
                Err(error) => Err(error),
                Ok(end) => first_block_from(s, e.data, end, cue_time as i64, tracks),
            }
        } else {
            Ok(None)
        },
    }
}

/// Whether an optional block read is what `expected` says.
pub open spec fn block_matches(
    r: Result<Option<PgsBlock>, PgsError>,
    expected: Result<Option<BlockView>, ErrorView>,
) -> bool {
    match (r, expected) {
        (Ok(Some(b)), Ok(Some(v))) => b@ == v,
        (Ok(None), Ok(None)) => true,
        (Err(e), Err(v)) => e@ == v,
        _ => false,
    }
}

/// Reads a block of which the header is next, if it belongs to one of the
/// tracks.
fn read_lone_block<R: Source>(
    reader: &mut SeekBufReader<R>,
    size: u64,
    timestamp: i64,
    pgs_track_numbers: &[u64],
) -> (r: Result<Option<PgsBlock>, PgsError>)
    ensures
        final(reader).bytes() == old(reader).bytes(),
        final(reader).consumed() == counted(
            old(reader).consumed(),
            lone_block_reads(old(reader).bytes(), old(reader).at() as int, size, pgs_track_numbers@),
        ),
        lone_block_reads(old(reader).bytes(), old(reader).at() as int, size, pgs_track_numbers@)
            >= 0,
        block_matches(
            r,
            lone_block_at(
                old(reader).bytes(),
                old(reader).at() as int,
                size,
                timestamp,
                pgs_track_numbers@,
            ),
        ),
{
    let block_end = match element_end(reader.position(), size) {
        Ok(end) => end,
        Err(e) => {
            return Err(e);
        },
    };
    let header = match read_block_header(reader) {
        Ok(h) => h,
        Err(e) => {
            return Err(e);
        },
    };
    if !contains_u64(pgs_track_numbers, header.track_number) {
        return Ok(None);
    }
    let at: u64 = reader.position();
    if block_end < at {
        return Err(PgsError::Io(IoError::InvalidPosition));
    }
    match reader.read_bytes(block_end - at) {
        Ok(data) => Ok(
            Some(
                PgsBlock {
                    track_number: header.track_number,
                    timestamp,
                    data,
                },
            ),
        ),
        Err(e) => Err(e),
    }
}

/// Reads the block or block group at a known position.
///
/// `cue_time` is the timestamp that the index gives for the block. Returns `None` if there is
/// no block there or it belongs to none of the tracks.
pub fn read_block_at_position<R: Source>(
    reader: &mut SeekBufReader<R>,
    block_position: u64,
    cue_time: u64,
    pgs_track_numbers: &[u64],
) -> (r: Result<Option<PgsBlock>, PgsError>)
    ensures
        final(reader).bytes() == old(reader).bytes(),
        final(reader).consumed() == counted(
            old(reader).consumed(),
            indexed_block_reads(old(reader).bytes(), block_position as int, pgs_track_numbers@),
        ),
        indexed_block_reads(old(reader).bytes(), block_position as int, pgs_track_numbers@) >= 0,
        block_matches(
            r,
            indexed_block(
                old(reader).bytes(),
                block_position as int,
                cue_time,
                pgs_track_numbers@,
            ),
        ),
{
    let ghost s = reader.bytes();
    let ghost tracks = pgs_track_numbers@;
    let _ = reader.seek_to(block_position);
    let (id, size) = match read_element(reader) {
        Ok(e) => e,
        Err(_) => {
            return Ok(None);
        },
    };
    if id == ids::SIMPLE_BLOCK || id == ids::BLOCK {
        return read_lone_block(reader, size, cue_time as i64, pgs_track_numbers);
    }
    if id != ids::BLOCK_GROUP {
        return Ok(None);
    }
    let end = match element_end(reader.position(), size) {
        Ok(end) => end,
        Err(e) => {
            return Err(e);
        },
    };
    let ghost goal = indexed_block(s, block_position as int, cue_time, tracks);
    let ghost reads = indexed_block_reads(s, block_position as int, tracks);
    let ghost mut done: int = element_header_reads(s, block_position as int);
    while reader.position() < end
        invariant_except_break
            reader.bytes() == s,
            done >= 0,
            reader.consumed() == counted(old(reader).consumed(), done),
            reads == indexed_block_reads(s, block_position as int, tracks),
            reads == done + first_block_reads(s, reader.at() as int, end as int, tracks),
            s == old(reader).bytes(),
            tracks == pgs_track_numbers@,
            goal == indexed_block(s, block_position as int, cue_time, tracks),
            goal == first_block_from(
                s,
                reader.at() as int,
                end as int,
                cue_time as i64,
                tracks,
            ),
        ensures
            reader.bytes() == s,
            reads >= 0,
            reader.consumed() == counted(old(reader).consumed(), reads),
            goal == Ok::<Option<BlockView>, ErrorView>(None),
        decreases
                (if reader.at() < s.len() {
                    s.len() - reader.at()
                } else {
                    0
                }),
    {
        let ghost pos = reader.at() as int;
        let (child_id, child_size) = match read_element(reader) {
            Ok(e) => e,
            Err(_) => {
                break ;
            },
        };
        assert(pos < s.len());
        proof {
            done = done + element_header_reads(s, pos);
        }
        if child_id == ids::BLOCK {
            return read_lone_block(reader, child_size, cue_time as i64, pgs_track_numbers);
        }
        match reader.skip(child_size) {
            Ok(()) => {},
            Err(e) => {
                return Err(e);
            },
        }
    }
    Ok(None)
}

} // verus!
