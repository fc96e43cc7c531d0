//! What scanning a cluster finds, however it is read.
use vstd::prelude::*;
use crate::ebml::children::end_of;
use crate::ebml::ids;
use crate::ebml::vint::element_at;
use crate::error::ErrorView;
use crate::mkv::block::block_header_at;
use crate::mkv::cluster::{
    block_at, cluster_blocks, group_from, group_step, passed, scan_from, scan_step, with_block,
    BlockView,
};

verus! {

/// Whether all blocks are of the given tracks.
pub open spec fn blocks_within(blocks: Seq<BlockView>, tracks: Seq<u64>) -> bool {
    forall|i: int| 0 <= i < blocks.len() ==> tracks.contains((#[trigger] blocks[i]).track_number)
}

proof fn lemma_group_within(
    s: Seq<u8>,
    pos: int,
    end: int,
    t: i64,
    tracks: Seq<u64>,
    sequential: bool,
    blocks: Seq<BlockView>,
)
    requires
        blocks_within(blocks, tracks),
    ensures
        group_from(s, pos, end, t, tracks, sequential, blocks) matches Ok((v, _)) ==> blocks_within(
            v,
            tracks,
        ),
    decreases
            (if pos < s.len() {
                s.len() - pos
            } else {
                0
            }),
{
    if pos < end {
        if let Some(e) = element_at(s, pos) {
            if let Ok((block, next)) = group_step(s, e, t, tracks, sequential) {
                if next > pos {
                    lemma_group_within(
                        s,
                        next,
                        end,
                        t,
                        tracks,
                        sequential,
                        with_block(blocks, block),
                    );
                }
            }
        }
    }
}

proof fn lemma_scan_within(
    s: Seq<u8>,
    pos: int,
    end: int,
    t: i64,
    tracks: Seq<u64>,
    sequential: bool,
    blocks: Seq<BlockView>,
)
    requires
        blocks_within(blocks, tracks),
    ensures
        scan_from(s, pos, end, t, tracks, sequential, blocks) matches Ok((v, _)) ==> blocks_within(
            v,
            tracks,
        ),
    decreases
            (if pos < s.len() {
                s.len() - pos
            } else {
                0
            }),
{
    if pos < end {
        if let Some(e) = element_at(s, pos) {
            if let Ok(group_end) = end_of(e.data, e.size) {
                lemma_group_within(s, e.data, group_end, t, tracks, sequential, blocks);
            }
            if let Ok((time, more, next)) = scan_step(s, e, t, tracks, sequential, blocks) {
                if next > pos {
                    lemma_scan_within(s, next, end, time, tracks, sequential, more);
                }
            }
        }
    }
}

/// Scanning a cluster finds blocks of the given tracks only.
pub proof fn scan_finds_wanted_tracks_only(
    s: Seq<u8>,
    start: int,
    size: u64,
    from: int,
    tracks: Seq<u64>,
    sequential: bool,
)
    ensures
        cluster_blocks(s, start, size, from, tracks, sequential) matches Ok((v, _))
            ==> blocks_within(v, tracks),
{
    if let Ok(end) = end_of(start, size) {
        lemma_scan_within(s, from, end, 0, tracks, sequential, Seq::empty());
    }
}

/// The blocks of the given tracks, in the same order.
pub open spec fn blocks_of_tracks(blocks: Seq<BlockView>, tracks: Seq<u64>) -> Seq<BlockView>
    decreases blocks.len(),
{
    if blocks.len() == 0 {
        Seq::empty()
    } else {
        let before = blocks_of_tracks(blocks.drop_last(), tracks);
        if tracks.contains(blocks.last().track_number) {
            before.push(blocks.last())
        } else {
            before
        }
    }
}

/// Whether all of some tracks are among others.
pub open spec fn tracks_among(some: Seq<u64>, all: Seq<u64>) -> bool {
    forall|t: u64| #[trigger] some.contains(t) ==> all.contains(t)
}

proof fn lemma_with_block(blocks: Seq<BlockView>, b: Option<BlockView>, tracks: Seq<u64>)
    ensures
        blocks_of_tracks(with_block(blocks, b), tracks) == match b {
            Some(x) => if tracks.contains(x.track_number) {
                blocks_of_tracks(blocks, tracks).push(x)
            } else {
                blocks_of_tracks(blocks, tracks)
            },
            None => blocks_of_tracks(blocks, tracks),
        },
{
    if let Some(x) = b {
        assert(blocks.push(x).drop_last() =~= blocks);
    }
}

/// A block that is read for many tracks is read, or passed over, for fewer.
proof fn lemma_block_of_fewer(
    s: Seq<u8>,
    pos: int,
    size: u64,
    t: i64,
    some: Seq<u64>,
    all: Seq<u64>,
    sequential: bool,
)
    requires
        tracks_among(some, all),
    ensures
        block_at(s, pos, size, t, all, sequential) matches Ok((b, next)) ==> block_at(
            s,
            pos,
            size,
            t,
            some,
            sequential,
        ) == Ok::<(Option<BlockView>, int), ErrorView>(
            (
                match b {
                    Some(x) => if some.contains(x.track_number) {
                        Some(x)
                    } else {
                        None
                    },
                    None => None,
                },
                next,
            ),
        ),
{
    if let Ok((header, _)) = block_header_at(s, pos) {
        assert(some.contains(header.track_number) ==> all.contains(header.track_number));
    }
}

proof fn lemma_group_of_fewer(
    s: Seq<u8>,
    pos: int,
    end: int,
    t: i64,
    some: Seq<u64>,
    all: Seq<u64>,
    sequential: bool,
    blocks: Seq<BlockView>,
)
    requires
        tracks_among(some, all),
    ensures
        group_from(s, pos, end, t, all, sequential, blocks) matches Ok((found, next))
            ==> group_from(
            s,
            pos,
            end,
            t,
            some,
            sequential,
            blocks_of_tracks(blocks, some),
        ) == Ok::<(Seq<BlockView>, int), ErrorView>((blocks_of_tracks(found, some), next)),
    decreases
            (if pos < s.len() {
                s.len() - pos
            } else {
                0
            }),
{
    if pos < end {
        if let Some(e) = element_at(s, pos) {
            if e.id == ids::BLOCK {
                lemma_block_of_fewer(s, e.data, e.size, t, some, all, sequential);
            }
            if let Ok((block, next)) = group_step(s, e, t, all, sequential) {
                lemma_with_block(blocks, block, some);
                if next > pos {
                    lemma_group_of_fewer(
                        s,
                        next,
                        end,
                        t,
                        some,
                        all,
                        sequential,
                        with_block(blocks, block),
                    );
                }
            }
        }
    }
}

proof fn lemma_scan_of_fewer(
    s: Seq<u8>,
    pos: int,
    end: int,
    t: i64,
    some: Seq<u64>,
    all: Seq<u64>,
    sequential: bool,
    blocks: Seq<BlockView>,
)
    requires
        tracks_among(some, all),
    ensures
        scan_from(s, pos, end, t, all, sequential, blocks) matches Ok((found, next)) ==> scan_from(
            s,
            pos,
            end,
            t,
            some,
            sequential,
            blocks_of_tracks(blocks, some),
        ) == Ok::<(Seq<BlockView>, int), ErrorView>((blocks_of_tracks(found, some), next)),
    decreases
            (if pos < s.len() {
                s.len() - pos
            } else {
                0
            }),
{
    if pos < end {
        if let Some(e) = element_at(s, pos) {
            if e.id == ids::SIMPLE_BLOCK {
                lemma_block_of_fewer(s, e.data, e.size, t, some, all, sequential);
                if let Ok((block, _)) = block_at(s, e.data, e.size, t, all, sequential) {
                    lemma_with_block(blocks, block, some);
                }
            } else if e.id == ids::BLOCK_GROUP {
                if let Ok(group_end) = end_of(e.data, e.size) {
                    lemma_group_of_fewer(s, e.data, group_end, t, some, all, sequential, blocks);
                }
            }
            if let Ok((time, more, next)) = scan_step(s, e, t, all, sequential, blocks) {
                if next > pos {
                    lemma_scan_of_fewer(s, next, end, time, some, all, sequential, more);
                }
            }
        }
    }
}

/// Scanning a cluster for fewer tracks finds what scanning it for more tracks
/// finds of them, in the same order, and stops at the same position.
pub proof fn scan_for_fewer_tracks_finds_theirs(
    s: Seq<u8>,
    start: int,
    size: u64,
    from: int,
    some: Seq<u64>,
    all: Seq<u64>,
    sequential: bool,
)
    requires
        tracks_among(some, all),
    ensures
        cluster_blocks(s, start, size, from, all, sequential) matches Ok((found, next))
            ==> cluster_blocks(s, start, size, from, some, sequential) == Ok::<
            (Seq<BlockView>, int),
            ErrorView,
        >((blocks_of_tracks(found, some), next)),
{
    if let Ok(end) = end_of(start, size) {
        lemma_scan_of_fewer(s, from, end, 0, some, all, sequential, Seq::empty());
    }
}

proof fn lemma_passed(s: Seq<u8>, pos: int, n: u64)
    requires
        0 <= pos <= s.len() <= u64::MAX,
    ensures
        passed(s, pos, n, true) matches Ok(next) ==> passed(s, pos, n, false) == Ok::<
            int,
            ErrorView,
        >(next),
{
}

proof fn lemma_block(
    s: Seq<u8>,
    pos: int,
    size: u64,
    t: i64,
    tracks: Seq<u64>,
)
    requires
        0 <= pos <= s.len() <= u64::MAX,
    ensures
        block_at(s, pos, size, t, tracks, true) matches Ok(found) ==> block_at(
            s,
            pos,
            size,
            t,
            tracks,
            false,
        ) == Ok::<(Option<BlockView>, int), ErrorView>(found),
{
    if let Ok(end) = end_of(pos, size) {
        if let Ok((_, at)) = block_header_at(s, pos) {
            if at <= end && at <= s.len() {
                lemma_passed(s, at, (end - at) as u64);
            }
        }
    }
}

proof fn lemma_group_either_way(
    s: Seq<u8>,
    pos: int,
    end: int,
    t: i64,
    tracks: Seq<u64>,
    blocks: Seq<BlockView>,
)
    requires
        s.len() <= u64::MAX,
        0 <= pos,
    ensures
        group_from(s, pos, end, t, tracks, true, blocks) matches Ok(found) ==> group_from(
            s,
            pos,
            end,
            t,
            tracks,
            false,
            blocks,
        ) == Ok::<(Seq<BlockView>, int), ErrorView>(found),
    decreases
            (if pos < s.len() {
                s.len() - pos
            } else {
                0
            }),
{
    if pos < end {
        if let Some(e) = element_at(s, pos) {
            if e.id == ids::BLOCK {
                lemma_block(s, e.data, e.size, t, tracks);
            } else {
                lemma_passed(s, e.data, e.size);
            }
            if let Ok((block, next)) = group_step(s, e, t, tracks, true) {
                if next > pos {
                    lemma_group_either_way(s, next, end, t, tracks, with_block(blocks, block));
                }
            }
        }
    }
}

proof fn lemma_scan_either_way(
    s: Seq<u8>,
    pos: int,
    end: int,
    t: i64,
    tracks: Seq<u64>,
    blocks: Seq<BlockView>,
)
    requires
        s.len() <= u64::MAX,
        0 <= pos,
    ensures
        scan_from(s, pos, end, t, tracks, true, blocks) matches Ok(found) ==> scan_from(
            s,
            pos,
            end,
            t,
            tracks,
            false,
            blocks,
        ) == Ok::<(Seq<BlockView>, int), ErrorView>(found),
    decreases
            (if pos < s.len() {
                s.len() - pos
            } else {
                0
            }),
{
    if pos < end {
        if let Some(e) = element_at(s, pos) {
            if e.id == ids::SIMPLE_BLOCK {
                lemma_block(s, e.data, e.size, t, tracks);
            } else if e.id == ids::BLOCK_GROUP {
                if let Ok(group_end) = end_of(e.data, e.size) {
                    lemma_group_either_way(s, e.data, group_end, t, tracks, blocks);
                }
            } else {
                lemma_passed(s, e.data, e.size);
            }
            if let Ok((time, more, next)) = scan_step(s, e, t, tracks, true, blocks) {
                if next > pos {
                    lemma_scan_either_way(s, next, end, time, tracks, more);
                }
            }
        }
    }
}

/// Where reading a cluster from end to end succeeds, skipping through it finds
/// the same blocks.
pub proof fn skipping_finds_the_same_blocks(
    s: Seq<u8>,
    start: int,
    size: u64,
    from: int,
    tracks: Seq<u64>,
)
    requires
        s.len() <= u64::MAX,
        0 <= from,
    ensures
        cluster_blocks(s, start, size, from, tracks, true) matches Ok(found) ==> cluster_blocks(
            s,
            start,
            size,
            from,
            tracks,
            false,
        ) == Ok::<(Seq<BlockView>, int), ErrorView>(found),
{
    if let Ok(end) = end_of(start, size) {
        lemma_scan_either_way(s, from, end, 0, tracks, Seq::empty());
    }
}

} // verus!
