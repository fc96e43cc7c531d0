//! Clusters as they are written.
use vstd::prelude::*;
use crate::bytes::be16;
use crate::ebml::written::{
    be_bytes, data_start, element_bytes, holds, is_id, lemma_holds_at, lemma_holds_parts,
    size_bytes, size_fits, written_data_is_read, written_element_is_read, written_number_is_read,
    written_size_is_read,
};
use crate::error::ErrorView;
use crate::mkv::block::{block_header_at, BlockHeader};
use crate::mkv::cluster::{
    block_at, cluster_blocks, first_block_from, group_from, indexed_block, scan_from, BlockView,
};
use crate::mkv::cues::PgsCuePoint;
use crate::mkv::indexed::cue_blocks;
use crate::written::tracks::number_fits;

verus! {

/// A block: its track, with the number of bytes that it is written with, its time
/// relative to the cluster, a byte of flags and its data.
pub struct Block {
    pub track: u64,
    pub track_width: nat,
    pub relative: i16,
    pub flags: u8,
    pub data: Seq<u8>,
}

/// The two bytes of a number with a sign.
pub open spec fn signed_bytes(r: i16) -> Seq<u8> {
    let v = if r < 0 {
        r + 0x1_0000
    } else {
        r as int
    };
    seq![(v / 256) as u8, (v % 256) as u8]
}

/// A block as it is written.
pub open spec fn block_bytes(b: Block) -> Seq<u8> {
    size_bytes(b.track as nat, b.track_width) + (signed_bytes(b.relative) + seq![b.flags] + b.data)
}

/// Whether a block can be written, with a size of `w` bytes.
pub open spec fn block_fits(b: Block, w: nat) -> bool {
    size_fits(b.track as nat, b.track_width) && size_fits(block_bytes(b).len(), w)
}

/// An element that is of no interest, with the number of bytes of its size.
pub struct Raw {
    pub id: u64,
    pub width: nat,
    pub data: Seq<u8>,
}

/// Elements that are of no interest, as they are written.
pub open spec fn raws_bytes(raws: Seq<Raw>) -> Seq<u8>
    decreases raws.len(),
{
    if raws.len() == 0 {
        Seq::empty()
    } else {
        element_bytes(raws[0].id, raws[0].width, raws[0].data) + raws_bytes(raws.skip(1))
    }
}

/// Whether an element is of no interest in a cluster and can be written.
pub open spec fn is_raw(r: Raw) -> bool {
    is_id(r.id) && size_fits(r.data.len(), r.width) && r.id != 0xE7 && r.id != 0xA3 && r.id != 0xA0
        && r.id != 0xA1
}

/// Whether elements are of no interest in a cluster and can be written.
pub open spec fn are_raws(raws: Seq<Raw>) -> bool {
    forall|i: int| 0 <= i < raws.len() ==> is_raw(#[trigger] raws[i])
}

/// A child of a cluster: a block, by itself or in a group with other elements,
/// or an element that is of no interest.
pub enum Child {
    Simple { block: Block, width: nat },
    Group { before: Seq<Raw>, block: Block, block_width: nat, after: Seq<Raw>, width: nat },
    Other(Raw),
}

/// The data of a group.
pub open spec fn group_bytes(
    before: Seq<Raw>,
    block: Block,
    block_width: nat,
    after: Seq<Raw>,
) -> Seq<u8> {
    raws_bytes(before) + (element_bytes(0xA1, block_width, block_bytes(block)) + raws_bytes(after))
}

/// A child of a cluster as it is written.
pub open spec fn child_bytes(c: Child) -> Seq<u8> {
    match c {
        Child::Simple { block, width } => element_bytes(0xA3, width, block_bytes(block)),
        Child::Group { before, block, block_width, after, width } => element_bytes(
            0xA0,
            width,
            group_bytes(before, block, block_width, after),
        ),
        Child::Other(r) => element_bytes(r.id, r.width, r.data),
    }
}

/// Whether a child of a cluster can be written.
pub open spec fn is_child(c: Child) -> bool {
    match c {
        Child::Simple { block, width } => block_fits(block, width),
        Child::Group { before, block, block_width, after, width } => {
            &&& are_raws(before)
            &&& are_raws(after)
            &&& block_fits(block, block_width)
            &&& size_fits(group_bytes(before, block, block_width, after).len(), width)
        },
        Child::Other(r) => is_raw(r),
    }
}

/// The children of a cluster as they are written.
pub open spec fn children_bytes(children: Seq<Child>) -> Seq<u8>
    decreases children.len(),
{
    if children.len() == 0 {
        Seq::empty()
    } else {
        child_bytes(children[0]) + children_bytes(children.skip(1))
    }
}

/// The block of a child of a cluster, if it has one.
pub open spec fn block_of(c: Child) -> Option<Block> {
    match c {
        Child::Simple { block, .. } => Some(block),
        Child::Group { block, .. } => Some(block),
        Child::Other(_) => None,
    }
}

/// The blocks of a cluster, in order, however they are wrapped.
pub open spec fn blocks_in(children: Seq<Child>) -> Seq<Block>
    decreases children.len(),
{
    if children.len() == 0 {
        Seq::empty()
    } else {
        match block_of(children[0]) {
            Some(b) => seq![b] + blocks_in(children.skip(1)),
            None => blocks_in(children.skip(1)),
        }
    }
}

/// What is to be found of blocks in a cluster at a time: those of the tracks, each
/// at the cluster's time plus its own, with its data.
pub open spec fn to_be_found(blocks: Seq<Block>, time: u64, tracks: Seq<u64>) -> Seq<BlockView>
    decreases blocks.len(),
{
    if blocks.len() == 0 {
        Seq::empty()
    } else {
        let b = blocks[0];
        let rest = to_be_found(blocks.skip(1), time, tracks);
        if tracks.contains(b.track) {
            seq![
                BlockView {
                    track_number: b.track,
                    timestamp: (time + b.relative) as i64,
                    data: b.data,
                },
            ] + rest
        } else {
            rest
        }
    }
}

/// Whether a cluster's time leaves room for those of its blocks.
pub open spec fn is_time(t: u64) -> bool {
    t < 0x7FFF_FFFF_FFFF_0000
}

/// The data of a cluster: elements of no interest, its time in `n` bytes, and its
/// children.
pub open spec fn cluster_data(
    before: Seq<Raw>,
    time: u64,
    n: nat,
    time_width: nat,
    children: Seq<Child>,
) -> Seq<u8> {
    raws_bytes(before) + (element_bytes(0xE7, time_width, be_bytes(time as nat, n))
        + children_bytes(children))
}

proof fn lemma_signed(r: i16)
    ensures
        be16(signed_bytes(r), 0) as i16 == r,
{
    let v: int = if r < 0 {
        r + 0x1_0000
    } else {
        r as int
    };
    let u = v as u16;
    assert(be16(signed_bytes(r), 0) == u);
    if r >= 0 {
        assert(u as i16 == r);
    } else {
        assert(u as i16 == u - 0x1_0000) by (bit_vector)
            requires
                u >= 0x8000u16,
        ;
    }
}

/// A block's header that is written is read back.
pub proof fn written_block_header_is_read(s: Seq<u8>, pos: int, b: Block)
    requires
        size_fits(b.track as nat, b.track_width),
        holds(s, pos, block_bytes(b)),
    ensures
        block_bytes(b).len() == b.track_width + 3 + b.data.len(),
        block_header_at(s, pos) == Ok::<(BlockHeader, int), ErrorView>(
            (
                BlockHeader { track_number: b.track, relative_timestamp: b.relative },
                pos + b.track_width + 3,
            ),
        ),
        holds(s, pos + b.track_width + 3, b.data),
{
    let head = size_bytes(b.track as nat, b.track_width);
    let middle = signed_bytes(b.relative) + seq![b.flags];
    lemma_holds_parts(s, pos, head, middle + b.data);
    written_size_is_read(s, pos, b.track as nat, b.track_width);
    let at = pos + head.len();
    lemma_holds_parts(s, at, middle, b.data);
    lemma_holds_at(s, at, middle, 0);
    lemma_holds_at(s, at, middle, 1);
    lemma_signed(b.relative);
    assert(be16(s, at) == be16(signed_bytes(b.relative), 0));
}

proof fn lemma_block(
    s: Seq<u8>,
    pos: int,
    b: Block,
    time: u64,
    tracks: Seq<u64>,
    sequential: bool,
)
    requires
        size_fits(b.track as nat, b.track_width),
        holds(s, pos, block_bytes(b)),
        s.len() <= u64::MAX,
        is_time(time),
    ensures
        ({
            let found = to_be_found(seq![b], time, tracks);
            block_at(
                s,
                pos,
                block_bytes(b).len() as u64,
                time as i64,
                tracks,
                sequential,
            ) == Ok::<(Option<BlockView>, int), ErrorView>(
                (
                    if found.len() > 0 {
                        Some(found[0])
                    } else {
                        None
                    },
                    pos + block_bytes(b).len(),
                ),
            ) && found.len() <= 1
        }),
{
    written_block_header_is_read(s, pos, b);
    written_data_is_read(s, pos + b.track_width + 3, b.data);
    reveal_with_fuel(to_be_found, 2);
    assert(seq![b].skip(1) =~= Seq::<Block>::empty());
}

proof fn lemma_found_more(b: Block, rest: Seq<Block>, time: u64, tracks: Seq<u64>)
    ensures
        to_be_found(seq![b] + rest, time, tracks) == to_be_found(seq![b], time, tracks)
            + to_be_found(rest, time, tracks),
{
    reveal_with_fuel(to_be_found, 2);
    assert((seq![b] + rest).skip(1) =~= rest);
    assert(seq![b].skip(1) =~= Seq::<Block>::empty());
    assert(to_be_found(seq![b] + rest, time, tracks) =~= to_be_found(seq![b], time, tracks)
        + to_be_found(rest, time, tracks));
}

/// Elements of no interest in a group are passed over.
proof fn lemma_group_raws(
    s: Seq<u8>,
    pos: int,
    raws: Seq<Raw>,
    end: int,
    t: i64,
    tracks: Seq<u64>,
    sequential: bool,
    blocks: Seq<BlockView>,
)
    requires
        are_raws(raws),
        holds(s, pos, raws_bytes(raws)),
        pos + raws_bytes(raws).len() <= end,
        s.len() <= u64::MAX,
    ensures
        group_from(s, pos, end, t, tracks, sequential, blocks) == group_from(
            s,
            pos + raws_bytes(raws).len(),
            end,
            t,
            tracks,
            sequential,
            blocks,
        ),
    decreases raws.len(),
{
    if raws.len() > 0 {
        let r = raws[0];
        let rest = raws.skip(1);
        let first = element_bytes(r.id, r.width, r.data);
        assert(is_raw(raws[0]));
        lemma_holds_parts(s, pos, first, raws_bytes(rest));
        written_element_is_read(s, pos, r.id, r.width, r.data);
        assert forall|i: int| 0 <= i < rest.len() implies is_raw(#[trigger] rest[i]) by {
            assert(rest[i] == raws[i + 1]);
        }
        lemma_group_raws(s, pos + first.len(), rest, end, t, tracks, sequential, blocks);
    }
}

/// Elements of no interest in a cluster are passed over.
proof fn lemma_scan_raws(
    s: Seq<u8>,
    pos: int,
    raws: Seq<Raw>,
    end: int,
    t: i64,
    tracks: Seq<u64>,
    sequential: bool,
    blocks: Seq<BlockView>,
)
    requires
        are_raws(raws),
        holds(s, pos, raws_bytes(raws)),
        pos + raws_bytes(raws).len() <= end,
        s.len() <= u64::MAX,
    ensures
        scan_from(s, pos, end, t, tracks, sequential, blocks) == scan_from(
            s,
            pos + raws_bytes(raws).len(),
            end,
            t,
            tracks,
            sequential,
            blocks,
        ),
    decreases raws.len(),
{
    if raws.len() > 0 {
        let r = raws[0];
        let rest = raws.skip(1);
        let first = element_bytes(r.id, r.width, r.data);
        assert(is_raw(raws[0]));
        lemma_holds_parts(s, pos, first, raws_bytes(rest));
        written_element_is_read(s, pos, r.id, r.width, r.data);
        assert forall|i: int| 0 <= i < rest.len() implies is_raw(#[trigger] rest[i]) by {
            assert(rest[i] == raws[i + 1]);
        }
        lemma_scan_raws(s, pos + first.len(), rest, end, t, tracks, sequential, blocks);
    }
}

proof fn lemma_group(
    s: Seq<u8>,
    pos: int,
    before: Seq<Raw>,
    b: Block,
    w: nat,
    after: Seq<Raw>,
    time: u64,
    tracks: Seq<u64>,
    sequential: bool,
    blocks: Seq<BlockView>,
)
    requires
        are_raws(before),
        are_raws(after),
        block_fits(b, w),
        holds(s, pos, group_bytes(before, b, w, after)),
        s.len() <= u64::MAX,
        is_time(time),
    ensures
        ({
            let end = pos + group_bytes(before, b, w, after).len();
            group_from(s, pos, end, time as i64, tracks, sequential, blocks) == Ok::<
                (Seq<BlockView>, int),
                ErrorView,
            >((blocks + to_be_found(seq![b], time, tracks), end))
        }),
{
    let t = time as i64;
    let end = pos + group_bytes(before, b, w, after).len();
    let middle = element_bytes(0xA1, w, block_bytes(b));
    lemma_holds_parts(s, pos, raws_bytes(before), middle + raws_bytes(after));
    let at = pos + raws_bytes(before).len();
    lemma_holds_parts(s, at, middle, raws_bytes(after));
    lemma_group_raws(s, pos, before, end, t, tracks, sequential, blocks);
    written_element_is_read(s, at, 0xA1, w, block_bytes(b));
    let data = data_start(at, 0xA1, w);
    lemma_block(s, data, b, time, tracks, sequential);
    let found = to_be_found(seq![b], time, tracks);
    let more = blocks + found;
    let next = at + middle.len();
    assert(if found.len() > 0 {
        more =~= blocks.push(found[0])
    } else {
        more =~= blocks
    });
    assert(group_from(s, at, end, t, tracks, sequential, blocks) == group_from(
        s,
        next,
        end,
        t,
        tracks,
        sequential,
        more,
    ));
    lemma_group_raws(s, next, after, end, t, tracks, sequential, more);
}

proof fn lemma_child(
    s: Seq<u8>,
    pos: int,
    c: Child,
    end: int,
    time: u64,
    tracks: Seq<u64>,
    sequential: bool,
    blocks: Seq<BlockView>,
)
    requires
        is_child(c),
        holds(s, pos, child_bytes(c)),
        pos + child_bytes(c).len() <= end,
        s.len() <= u64::MAX,
        is_time(time),
    ensures
        ({
            let more = match block_of(c) {
                Some(b) => blocks + to_be_found(seq![b], time, tracks),
                None => blocks,
            };
            scan_from(s, pos, end, time as i64, tracks, sequential, blocks) == scan_from(
                s,
                pos + child_bytes(c).len(),
                end,
                time as i64,
                tracks,
                sequential,
                more,
            )
        }),
{
    let t = time as i64;
    match c {
        Child::Simple { block, width } => {
            written_element_is_read(s, pos, 0xA3, width, block_bytes(block));
            lemma_block(s, data_start(pos, 0xA3, width), block, time, tracks, sequential);
            let found = to_be_found(seq![block], time, tracks);
            let more = blocks + found;
            assert(if found.len() > 0 {
                more =~= blocks.push(found[0])
            } else {
                more =~= blocks
            });
        },
        Child::Group { before, block, block_width, after, width } => {
            let bytes = group_bytes(before, block, block_width, after);
            written_element_is_read(s, pos, 0xA0, width, bytes);
            lemma_group(
                s,
                data_start(pos, 0xA0, width),
                before,
                block,
                block_width,
                after,
                time,
                tracks,
                sequential,
                blocks,
            );
        },
        Child::Other(r) => {
            written_element_is_read(s, pos, r.id, r.width, r.data);
        },
    }
}

proof fn lemma_children(
    s: Seq<u8>,
    pos: int,
    children: Seq<Child>,
    time: u64,
    tracks: Seq<u64>,
    sequential: bool,
    blocks: Seq<BlockView>,
)
    requires
        forall|i: int| 0 <= i < children.len() ==> is_child(#[trigger] children[i]),
        holds(s, pos, children_bytes(children)),
        s.len() <= u64::MAX,
        is_time(time),
    ensures
        ({
            let end = pos + children_bytes(children).len();
            scan_from(s, pos, end, time as i64, tracks, sequential, blocks) == Ok::<
                (Seq<BlockView>, int),
                ErrorView,
            >((blocks + to_be_found(blocks_in(children), time, tracks), end))
        }),
    decreases children.len(),
{
    let end = pos + children_bytes(children).len();
    if children.len() == 0 {
        assert(blocks + to_be_found(blocks_in(children), time, tracks) =~= blocks);
    } else {
        let c = children[0];
        let rest = children.skip(1);
        assert(is_child(children[0]));
        lemma_holds_parts(s, pos, child_bytes(c), children_bytes(rest));
        lemma_child(s, pos, c, end, time, tracks, sequential, blocks);
        assert forall|i: int| 0 <= i < rest.len() implies is_child(#[trigger] rest[i]) by {
            assert(rest[i] == children[i + 1]);
        }
        let more = match block_of(c) {
            Some(b) => blocks + to_be_found(seq![b], time, tracks),
            None => blocks,
        };
        lemma_children(s, pos + child_bytes(c).len(), rest, time, tracks, sequential, more);
        if let Some(b) = block_of(c) {
            lemma_found_more(b, blocks_in(rest), time, tracks);
            assert(more + to_be_found(blocks_in(rest), time, tracks) =~= blocks + to_be_found(
                blocks_in(children),
                time,
                tracks,
            ));
        }
    }
}

/// Whether a cluster can be written.
pub open spec fn is_cluster(
    before: Seq<Raw>,
    time: u64,
    n: nat,
    time_width: nat,
    children: Seq<Child>,
) -> bool {
    &&& are_raws(before)
    &&& is_time(time)
    &&& number_fits(time, n)
    &&& size_fits(n, time_width)
    &&& forall|i: int| 0 <= i < children.len() ==> is_child(#[trigger] children[i])
}

/// A cluster that is written is read back, by skipping or from end to end: the
/// blocks of the tracks, by themselves or in groups, each at the cluster's time
/// plus its own, with its data.
pub proof fn written_cluster_is_scanned(
    s: Seq<u8>,
    pos: int,
    before: Seq<Raw>,
    time: u64,
    n: nat,
    time_width: nat,
    children: Seq<Child>,
    tracks: Seq<u64>,
    sequential: bool,
)
    requires
        is_cluster(before, time, n, time_width, children),
        holds(s, pos, cluster_data(before, time, n, time_width, children)),
        s.len() <= u64::MAX,
    ensures
        ({
            let size = cluster_data(before, time, n, time_width, children).len();
            cluster_blocks(s, pos, size as u64, pos, tracks, sequential) == Ok::<
                (Seq<BlockView>, int),
                ErrorView,
            >((to_be_found(blocks_in(children), time, tracks), pos + size))
        }),
{
    let size = cluster_data(before, time, n, time_width, children).len();
    let end = pos + size;
    let digits = be_bytes(time as nat, n);
    let stamp = element_bytes(0xE7, time_width, digits);
    let rest = children_bytes(children);
    crate::ebml::written::bytes_spell_their_number(time as nat, n);
    lemma_holds_parts(s, pos, raws_bytes(before), stamp + rest);
    let at = pos + raws_bytes(before).len();
    lemma_holds_parts(s, at, stamp, rest);
    lemma_scan_raws(s, pos, before, end, 0, tracks, sequential, Seq::empty());
    written_element_is_read(s, at, 0xE7, time_width, digits);
    written_number_is_read(s, data_start(at, 0xE7, time_width), time, n);
    let next = at + stamp.len();
    assert(scan_from(s, at, end, 0, tracks, sequential, Seq::empty()) == scan_from(
        s,
        next,
        end,
        time as i64,
        tracks,
        sequential,
        Seq::empty(),
    ));
    lemma_children(s, next, children, time, tracks, sequential, Seq::empty());
    assert(Seq::<BlockView>::empty() + to_be_found(blocks_in(children), time, tracks)
        =~= to_be_found(blocks_in(children), time, tracks));
}

/// How the blocks of a cluster are wrapped makes no difference to what is found.
pub proof fn wrapping_makes_no_difference(
    s: Seq<u8>,
    pos: int,
    other_s: Seq<u8>,
    other_pos: int,
    time: u64,
    n: nat,
    time_width: nat,
    children: Seq<Child>,
    others: Seq<Child>,
    tracks: Seq<u64>,
    sequential: bool,
)
    requires
        is_cluster(Seq::empty(), time, n, time_width, children),
        is_cluster(Seq::empty(), time, n, time_width, others),
        blocks_in(children) == blocks_in(others),
        holds(s, pos, cluster_data(Seq::empty(), time, n, time_width, children)),
        holds(other_s, other_pos, cluster_data(Seq::empty(), time, n, time_width, others)),
        s.len() <= u64::MAX,
        other_s.len() <= u64::MAX,
    ensures
        ({
            let a = cluster_data(Seq::empty(), time, n, time_width, children).len();
            let b = cluster_data(Seq::empty(), time, n, time_width, others).len();
            match (
                cluster_blocks(s, pos, a as u64, pos, tracks, sequential),
                cluster_blocks(other_s, other_pos, b as u64, other_pos, tracks, sequential),
            ) {
                (Ok((x, _)), Ok((y, _))) => x == y,
                _ => false,
            }
        }),
{
    written_cluster_is_scanned(
        s,
        pos,
        Seq::empty(),
        time,
        n,
        time_width,
        children,
        tracks,
        sequential,
    );
    written_cluster_is_scanned(
        other_s,
        other_pos,
        Seq::empty(),
        time,
        n,
        time_width,
        others,
        tracks,
        sequential,
    );
}

/// Elements of no interest in front of a group's block are passed over.
proof fn lemma_first_raws(
    s: Seq<u8>,
    pos: int,
    raws: Seq<Raw>,
    end: int,
    t: i64,
    tracks: Seq<u64>,
)
    requires
        are_raws(raws),
        holds(s, pos, raws_bytes(raws)),
        pos + raws_bytes(raws).len() <= end,
        s.len() <= u64::MAX,
    ensures
        first_block_from(s, pos, end, t, tracks) == first_block_from(
            s,
            pos + raws_bytes(raws).len(),
            end,
            t,
            tracks,
        ),
    decreases raws.len(),
{
    if raws.len() > 0 {
        let r = raws[0];
        let rest = raws.skip(1);
        let first = element_bytes(r.id, r.width, r.data);
        assert(is_raw(raws[0]));
        lemma_holds_parts(s, pos, first, raws_bytes(rest));
        written_element_is_read(s, pos, r.id, r.width, r.data);
        assert forall|i: int| 0 <= i < rest.len() implies is_raw(#[trigger] rest[i]) by {
            assert(rest[i] == raws[i + 1]);
        }
        lemma_first_raws(s, pos + first.len(), rest, end, t, tracks);
    }
}

/// A block that an index leads to is read back, by itself or in a group, at the
/// time that the index gives.
pub proof fn written_block_is_looked_up(
    s: Seq<u8>,
    pos: int,
    c: Child,
    b: Block,
    cue_time: u64,
    tracks: Seq<u64>,
)
    requires
        is_child(c),
        block_of(c) == Some(b),
        holds(s, pos, child_bytes(c)),
        s.len() <= u64::MAX,
        cue_time <= i64::MAX,
    ensures
        indexed_block(s, pos, cue_time, tracks) == Ok::<Option<BlockView>, ErrorView>(
            if tracks.contains(b.track) {
                Some(
                    BlockView {
                        track_number: b.track,
                        timestamp: cue_time as i64,
                        data: b.data,
                    },
                )
            } else {
                None
            },
        ),
{
    match c {
        Child::Simple { block, width } => {
            written_element_is_read(s, pos, 0xA3, width, block_bytes(block));
            let at = data_start(pos, 0xA3, width);
            written_block_header_is_read(s, at, b);
            written_data_is_read(s, at + b.track_width + 3, b.data);
        },
        Child::Group { before, block, block_width, after, width } => {
            let bytes = group_bytes(before, block, block_width, after);
            written_element_is_read(s, pos, 0xA0, width, bytes);
            let start = data_start(pos, 0xA0, width);
            let middle = element_bytes(0xA1, block_width, block_bytes(b));
            lemma_holds_parts(s, start, raws_bytes(before), middle + raws_bytes(after));
            let at = start + raws_bytes(before).len();
            lemma_holds_parts(s, at, middle, raws_bytes(after));
            lemma_first_raws(s, start, before, start + bytes.len(), cue_time as i64, tracks);
            written_element_is_read(s, at, 0xA1, block_width, block_bytes(b));
            let data = data_start(at, 0xA1, block_width);
            written_block_header_is_read(s, data, b);
            written_data_is_read(s, data + b.track_width + 3, b.data);
        },
        Child::Other(_) => {},
    }
}

/// An index entry that gives a block's time and place leads to what a scan of the
/// cluster finds of it: its track, its time and its data.
pub proof fn index_and_scan_find_the_same(
    s: Seq<u8>,
    pos: int,
    width: nat,
    head: Seq<u8>,
    c: Child,
    b: Block,
    tail: Seq<u8>,
    time: u64,
    cue: PgsCuePoint,
    tracks: Seq<u64>,
    visited: Set<u64>,
)
    requires
        is_child(c),
        block_of(c) == Some(b),
        is_time(time),
        time + b.relative >= 0,
        size_fits((head + (child_bytes(c) + tail)).len(), width),
        holds(s, pos, element_bytes(0x1F43B675, width, head + (child_bytes(c) + tail))),
        s.len() <= u64::MAX,
        cue.cluster_position == pos,
        cue.relative_position == Some(head.len() as u64),
        cue.time == time + b.relative,
    ensures
        cue_blocks(s, cue, tracks, visited) == Ok::<(Seq<BlockView>, Set<u64>), ErrorView>(
            (to_be_found(seq![b], time, tracks), visited),
        ),
{
    let data = head + (child_bytes(c) + tail);
    written_element_is_read(s, pos, 0x1F43B675, width, data);
    let start = data_start(pos, 0x1F43B675, width);
    let id = crate::ebml::written::id_bytes(0x1F43B675);
    let rest = size_bytes(data.len(), width) + data;
    assert(element_bytes(0x1F43B675, width, data) =~= id + rest);
    lemma_holds_parts(s, pos, id, rest);
    crate::ebml::written::written_id_is_read(s, pos, 0x1F43B675);
    lemma_holds_parts(s, start, head, child_bytes(c) + tail);
    lemma_holds_parts(s, start + head.len(), child_bytes(c), tail);
    written_block_is_looked_up(s, start + head.len(), c, b, cue.time, tracks);
    reveal_with_fuel(to_be_found, 2);
    assert(seq![b].skip(1) =~= Seq::<Block>::empty());
    let found = to_be_found(seq![b], time, tracks);
    if tracks.contains(b.track) {
        assert(found =~= seq![
            BlockView { track_number: b.track, timestamp: cue.time as i64, data: b.data },
        ]);
    } else {
        assert(found =~= Seq::<BlockView>::empty());
    }
}

} // verus!
