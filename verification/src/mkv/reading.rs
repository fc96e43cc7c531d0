//! How much of a file is read for its blocks.
//!
//! What is read grows with the blocks of the wanted tracks and with the number of
//! elements on the way to them. All else is skipped.
use vstd::prelude::*;
use crate::ebml::children::end_of;
use crate::ebml::ids;
use crate::ebml::vint::{element_at, element_header_reads, Element};
use crate::error::ErrorView;
use crate::mkv::block::{block_header_at, block_header_reads};
use crate::mkv::cluster::{
    block_at, block_reads, cluster_blocks, cluster_reads, first_block_from, first_block_reads,
    group_from, group_reads, group_step, indexed_block, indexed_block_reads, lemma_group_step_moves,
    lemma_scan_step_moves, lone_block_at, lone_block_reads, scan_from, scan_reads, scan_step,
    scan_step_reads, with_block, BlockView,
};
use crate::mkv::cues::PgsCuePoint;
use crate::mkv::indexed::{cluster_at, cue_blocks, cue_reads, cues_blocks, cues_known, cues_reads};

verus! {

/// The number of bytes of data in blocks.
pub open spec fn data_total(blocks: Seq<BlockView>) -> nat
    decreases blocks.len(),
{
    if blocks.len() == 0 {
        0
    } else {
        data_total(blocks.drop_last()) + blocks.last().data.len()
    }
}

proof fn lemma_total_with(blocks: Seq<BlockView>, b: Option<BlockView>)
    ensures
        data_total(with_block(blocks, b)) == data_total(blocks) + match b {
            Some(x) => x.data.len(),
            None => 0,
        },
{
    if let Some(x) = b {
        assert(blocks.push(x).drop_last() =~= blocks);
    }
}

proof fn lemma_total_append(a: Seq<BlockView>, b: Seq<BlockView>)
    ensures
        data_total(a + b) == data_total(a) + data_total(b),
    decreases b.len(),
{
    if b.len() == 0 {
        assert(a + b =~= a);
    } else {
        assert((a + b).drop_last() =~= a + b.drop_last());
        lemma_total_append(a, b.drop_last());
    }
}

/// An element's header takes at most twelve bytes.
proof fn lemma_header_reads(s: Seq<u8>, pos: int)
    requires
        0 <= pos,
    ensures
        0 <= element_header_reads(s, pos) <= 12,
{
}

/// A block's header takes at most eleven bytes.
proof fn lemma_block_header_reads(s: Seq<u8>, pos: int)
    requires
        0 <= pos,
    ensures
        0 <= block_header_reads(s, pos) <= 11,
        block_header_at(s, pos) matches Ok((_, at)) ==> at - pos == block_header_reads(s, pos),
{
}

/// Of a block that is not wanted, at most the header is read.
proof fn lemma_block_reads(s: Seq<u8>, pos: int, size: u64, t: i64, tracks: Seq<u64>)
    requires
        0 <= pos,
    ensures
        block_at(s, pos, size, t, tracks, false) matches Ok((b, _)) ==> 0 <= block_reads(
            s,
            pos,
            size,
            tracks,
            false,
        ) <= 11 + match b {
            Some(x) => x.data.len(),
            None => 0,
        },
{
    lemma_block_header_reads(s, pos);
}

/// The number of children of a block group from `pos` on that are looked at.
pub open spec fn group_elements(s: Seq<u8>, pos: int, end: int, tracks: Seq<u64>) -> nat
    decreases
            (if pos < s.len() {
                s.len() - pos
            } else {
                0
            }),
{
    if pos >= end {
        0
    } else {
        1 + match element_at(s, pos) {
            None => 0,
            Some(e) => match group_step(s, e, 0, tracks, false) {
                Err(_) => 0,
                Ok((_, next)) => if next > pos {
                    group_elements(s, next, end, tracks)
                } else {
                    0
                },
            },
        }
    }
}

/// The number of elements of a cluster from `pos` on that are looked at, those in
/// block groups among them.
pub open spec fn scan_elements(s: Seq<u8>, pos: int, end: int, tracks: Seq<u64>) -> nat
    decreases
            (if pos < s.len() {
                s.len() - pos
            } else {
                0
            }),
{
    if pos >= end {
        0
    } else {
        1 + match element_at(s, pos) {
            None => 0,
            Some(e) => inner_elements(s, e, tracks) + match scan_step(
                s,
                e,
                0,
                tracks,
                false,
                Seq::empty(),
            ) {
                Err(_) => 0,
                Ok((_, _, next)) => if next > pos {
                    scan_elements(s, next, end, tracks)
                } else {
                    0
                },
            },
        }
    }
}

/// The number of children of a cluster's child that are looked at.
pub open spec fn inner_elements(s: Seq<u8>, e: Element, tracks: Seq<u64>) -> nat {
    if e.id == ids::BLOCK_GROUP {
        match end_of(e.data, e.size) {
            Err(_) => 0,
            Ok(end) => group_elements(s, e.data, end, tracks),
        }
    } else {
        0
    }
}

proof fn lemma_group_bound(
    s: Seq<u8>,
    pos: int,
    end: int,
    t: i64,
    tracks: Seq<u64>,
    blocks: Seq<BlockView>,
)
    requires
        0 <= pos,
    ensures
        group_from(s, pos, end, t, tracks, false, blocks) matches Ok((found, _)) ==> {
            let reads = group_reads(s, pos, end, tracks, false);
            0 <= reads && reads + data_total(blocks) <= 23 * group_elements(s, pos, end, tracks)
                + data_total(found)
        },
    decreases
            (if pos < s.len() {
                s.len() - pos
            } else {
                0
            }),
{
    if pos < end {
        lemma_header_reads(s, pos);
        if let Some(e) = element_at(s, pos) {
            lemma_group_step_moves(s, e, t, 0, tracks, false);
            if e.id == ids::BLOCK {
                lemma_block_reads(s, e.data, e.size, t, tracks);
            }
            if let Ok((block, next)) = group_step(s, e, t, tracks, false) {
                lemma_total_with(blocks, block);
                if next > pos {
                    lemma_group_bound(s, next, end, t, tracks, with_block(blocks, block));
                }
            }
        }
    }
}

proof fn lemma_scan_step_bound(
    s: Seq<u8>,
    e: Element,
    t: i64,
    tracks: Seq<u64>,
    blocks: Seq<BlockView>,
)
    requires
        0 <= e.data,
    ensures
        scan_step(s, e, t, tracks, false, blocks) matches Ok((_, more, _)) ==> {
            let reads = scan_step_reads(s, e, tracks, false);
            0 <= reads && reads + data_total(blocks) <= 11 + 23 * inner_elements(s, e, tracks)
                + data_total(more)
        },
{
    if e.id == ids::TIMESTAMP {
    } else if e.id == ids::SIMPLE_BLOCK {
        lemma_block_reads(s, e.data, e.size, t, tracks);
        if let Ok((block, _)) = block_at(s, e.data, e.size, t, tracks, false) {
            lemma_total_with(blocks, block);
        }
    } else if e.id == ids::BLOCK_GROUP {
        if let Ok(end) = end_of(e.data, e.size) {
            lemma_group_bound(s, e.data, end, t, tracks, blocks);
        }
    }
}

proof fn lemma_scan_bound(
    s: Seq<u8>,
    pos: int,
    end: int,
    t: i64,
    tracks: Seq<u64>,
    blocks: Seq<BlockView>,
)
    requires
        0 <= pos,
    ensures
        scan_from(s, pos, end, t, tracks, false, blocks) matches Ok((found, _)) ==> {
            let reads = scan_reads(s, pos, end, tracks, false);
            0 <= reads && reads + data_total(blocks) <= 23 * scan_elements(s, pos, end, tracks)
                + data_total(found)
        },
    decreases
            (if pos < s.len() {
                s.len() - pos
            } else {
                0
            }),
{
    if pos < end {
        lemma_header_reads(s, pos);
        if let Some(e) = element_at(s, pos) {
            lemma_scan_step_moves(s, e, t, 0, tracks, false, blocks, Seq::empty());
            lemma_scan_step_bound(s, e, t, tracks, blocks);
            if let Ok((time, more, next)) = scan_step(s, e, t, tracks, false, blocks) {
                if next > pos {
                    lemma_scan_bound(s, next, end, time, tracks, more);
                }
            }
        }
    }
}

/// Skipping through a cluster reads the data of the blocks that it finds, and at
/// most 23 bytes for each element: its header and, in a block, the block's. All
/// else is skipped, however large it is.
pub proof fn skipping_reads_found_blocks_and_headers(
    s: Seq<u8>,
    start: int,
    size: u64,
    from: int,
    tracks: Seq<u64>,
)
    requires
        0 <= from,
    ensures
        cluster_blocks(s, start, size, from, tracks, false) matches Ok((found, _)) ==> cluster_reads(
            s,
            start,
            size,
            from,
            tracks,
            false,
        ) <= 23 * scan_elements(s, from, start + size, tracks) + data_total(found),
{
    if let Ok(end) = end_of(start, size) {
        lemma_scan_bound(s, from, end, 0, tracks, Seq::empty());
    }
}

/// The number of children of a block group from `pos` on that are looked at up to
/// its first block.
pub open spec fn first_block_elements(s: Seq<u8>, pos: int, end: int) -> nat
    decreases
            (if pos < s.len() {
                s.len() - pos
            } else {
                0
            }),
{
    if pos >= end {
        0
    } else {
        1 + match element_at(s, pos) {
            None => 0,
            Some(e) => if e.id == ids::BLOCK {
                0
            } else {
                match end_of(e.data, e.size) {
                    Err(_) => 0,
                    Ok(next) => if next > pos {
                        first_block_elements(s, next, end)
                    } else {
                        0
                    },
                }
            },
        }
    }
}

/// The number of elements that are looked at for the block or block group at
/// `pos`.
pub open spec fn indexed_elements(s: Seq<u8>, pos: int) -> nat {
    1 + match element_at(s, pos) {
        Some(e) => if e.id == ids::BLOCK_GROUP {
            match end_of(e.data, e.size) {
                Err(_) => 0,
                Ok(end) => first_block_elements(s, e.data, end),
            }
        } else {
            0
        },
        None => 0,
    }
}

proof fn lemma_lone_bound(s: Seq<u8>, pos: int, size: u64, t: i64, tracks: Seq<u64>)
    requires
        0 <= pos,
    ensures
        lone_block_at(s, pos, size, t, tracks) matches Ok(b) ==> 0 <= lone_block_reads(
            s,
            pos,
            size,
            tracks,
        ) <= 11 + match b {
            Some(x) => x.data.len(),
            None => 0,
        },
{
    lemma_block_header_reads(s, pos);
}

proof fn lemma_first_bound(s: Seq<u8>, pos: int, end: int, t: i64, tracks: Seq<u64>)
    requires
        0 <= pos,
    ensures
        first_block_from(s, pos, end, t, tracks) matches Ok(b) ==> 0 <= first_block_reads(
            s,
            pos,
            end,
            tracks,
        ) <= 23 * first_block_elements(s, pos, end) + match b {
            Some(x) => x.data.len(),
            None => 0,
        },
    decreases
            (if pos < s.len() {
                s.len() - pos
            } else {
                0
            }),
{
    if pos < end {
        lemma_header_reads(s, pos);
        if let Some(e) = element_at(s, pos) {
            if e.id == ids::BLOCK {
                lemma_lone_bound(s, e.data, e.size, t, tracks);
            } else if let Ok(next) = end_of(e.data, e.size) {
                if next > pos {
                    lemma_first_bound(s, next, end, t, tracks);
                }
            }
        }
    }
}

proof fn lemma_indexed_bound(s: Seq<u8>, pos: int, time: u64, tracks: Seq<u64>)
    requires
        0 <= pos,
    ensures
        indexed_block(s, pos, time, tracks) matches Ok(b) ==> 0 <= indexed_block_reads(
            s,
            pos,
            tracks,
        ) <= 23 * indexed_elements(s, pos) + match b {
            Some(x) => x.data.len(),
            None => 0,
        },
{
    lemma_header_reads(s, pos);
    if let Some(e) = element_at(s, pos) {
        if e.id == ids::SIMPLE_BLOCK || e.id == ids::BLOCK {
            lemma_lone_bound(s, e.data, e.size, time as i64, tracks);
        } else if e.id == ids::BLOCK_GROUP {
            if let Ok(end) = end_of(e.data, e.size) {
                lemma_first_bound(s, e.data, end, time as i64, tracks);
            }
        }
    }
}

/// The number of elements that are looked at for an index entry: the cluster,
/// and what is in it on the way to the blocks.
pub open spec fn cue_elements(
    s: Seq<u8>,
    cue: PgsCuePoint,
    tracks: Seq<u64>,
    visited: Set<u64>,
) -> nat {
    let pos = cue.cluster_position as int;
    match (cue.relative_position, cluster_at(s, pos)) {
        (Some(relative), Ok(Some(cluster))) => 1 + indexed_elements(s, cluster.data + relative),
        (None, Ok(Some(cluster))) => if visited.contains(cue.cluster_position) {
            0
        } else if cluster.size == u64::MAX {
            1
        } else {
            1 + scan_elements(s, cluster.data, cluster.data + cluster.size, tracks)
        },
        _ => 1,
    }
}

/// Following an index entry reads the data of the blocks that it leads to, and at
/// most 23 bytes for each element on the way to them.
pub proof fn entry_reads_its_blocks_and_headers(
    s: Seq<u8>,
    cue: PgsCuePoint,
    tracks: Seq<u64>,
    visited: Set<u64>,
    known: Set<u64>,
)
    ensures
        cue_blocks(s, cue, tracks, visited) matches Ok((blocks, _)) ==> 0 <= cue_reads(
            s,
            cue,
            tracks,
            visited,
            known,
        ) <= 23 * cue_elements(s, cue, tracks, visited) + data_total(blocks),
{
    let pos = cue.cluster_position as int;
    lemma_header_reads(s, pos);
    if let Ok(Some(cluster)) = cluster_at(s, pos) {
        match cue.relative_position {
            Some(relative) => {
                let at = cluster.data + relative;
                lemma_indexed_bound(s, at, cue.time, tracks);
                if let Ok(Some(b)) = indexed_block(s, at, cue.time, tracks) {
                    assert(seq![b].drop_last() =~= Seq::<BlockView>::empty());
                    reveal_with_fuel(data_total, 2);
                }
            },
            None => {
                if let Ok(end) = end_of(cluster.data, cluster.size) {
                    lemma_scan_bound(s, cluster.data, end, 0, tracks, Seq::empty());
                }
            },
        }
    }
}

/// Following an index entry to a block of a wanted track reads the cluster's
/// header, the element's header and the block, and nothing else.
pub proof fn entry_reads_one_block(
    s: Seq<u8>,
    cue: PgsCuePoint,
    tracks: Seq<u64>,
    visited: Set<u64>,
    known: Set<u64>,
    relative: u64,
    cluster: Element,
    e: Element,
    b: BlockView,
)
    requires
        cue.relative_position == Some(relative),
        cluster_at(s, cue.cluster_position as int) == Ok::<Option<Element>, ErrorView>(
            Some(cluster),
        ),
        element_at(s, cluster.data + relative) == Some(e),
        e.id == ids::SIMPLE_BLOCK || e.id == ids::BLOCK,
        !known.contains(cue.cluster_position),
        cue_blocks(s, cue, tracks, visited) == Ok::<(Seq<BlockView>, Set<u64>), ErrorView>(
            (seq![b], visited),
        ),
    ensures
        cue_reads(s, cue, tracks, visited, known) == (cluster.data - cue.cluster_position) + (e.data
            - (cluster.data + relative)) + e.size,
{
    let found = indexed_block(s, cluster.data + relative, cue.time, tracks);
    if found is Ok && found->Ok_0 is None {
        assert(Seq::<BlockView>::empty().len() == seq![b].len());
    }
}

/// The number of elements that are looked at for index entries.
pub open spec fn cues_elements(s: Seq<u8>, cues: Seq<PgsCuePoint>, tracks: Seq<u64>) -> nat
    decreases cues.len(),
{
    if cues.len() == 0 {
        0
    } else {
        let init = cues.drop_last();
        cues_elements(s, init, tracks) + match cues_blocks(s, init, tracks) {
            Err(_) => 0,
            Ok((_, visited)) => cue_elements(s, cues.last(), tracks, visited),
        }
    }
}

/// Extraction along an index reads the data of the blocks that the entries lead
/// to, and at most 23 bytes for each element on the way to them. However large
/// the file is otherwise, no more of it is read.
pub proof fn index_reads_its_blocks_and_headers(
    s: Seq<u8>,
    cues: Seq<PgsCuePoint>,
    tracks: Seq<u64>,
)
    ensures
        cues_blocks(s, cues, tracks) matches Ok((blocks, _)) ==> 0 <= cues_reads(s, cues, tracks)
            <= 23 * cues_elements(s, cues, tracks) + data_total(blocks),
    decreases cues.len(),
{
    if cues.len() > 0 {
        let init = cues.drop_last();
        index_reads_its_blocks_and_headers(s, init, tracks);
        if let Ok((before, visited)) = cues_blocks(s, init, tracks) {
            entry_reads_its_blocks_and_headers(
                s,
                cues.last(),
                tracks,
                visited,
                cues_known(s, init),
            );
            if let Ok((more, _)) = cue_blocks(s, cues.last(), tracks, visited) {
                lemma_total_append(before, more);
            }
        }
    }
}

} // verus!
