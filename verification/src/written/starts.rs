//! Where reading a Matroska file starts, and what a pass from there gives.
use vstd::prelude::*;
use crate::collect::drained;
use crate::ebml::written::{
    be_bytes, bytes_spell_their_number, data_start, element_bytes, holds, id_bytes,
    lemma_holds_parts, size_bytes, written_element_is_read, written_id_is_read,
    written_number_is_read,
};
use crate::error::ErrorView;
use crate::extractor::ExtractionView;
use crate::mkv::stream::{
    advanced, with_blocks, mkv_step, blocks_effect, cluster_time_from, first_source, probed_time,
    probed_time_from, scan_start, search, wanted_cues, MkvConfig, MkvProgress,
    SourceView,
};
use crate::mkv::cluster::BlockView;
use crate::mkv::cues::PgsCuePoint;
use crate::mkv::indexed::cue_blocks;
use crate::restriction::matroska::lemma_pending_first;
use crate::track::TrackSetView;
use crate::written::clusters::{
    are_raws, blocks_in, children_bytes, cluster_data, is_cluster, is_raw, raws_bytes, to_be_found,
    written_cluster_is_scanned, Child, Raw,
};
use crate::written::passes::{blocks_give_one_after_the_other,
    found_in, is_item, item_bytes, items_bytes, lemma_size, written_clusters_are_passed, Item,
};

verus! {

proof fn lemma_time(
    s: Seq<u8>,
    pos: int,
    end: int,
    before: Seq<Raw>,
    time: u64,
    n: nat,
    time_width: nat,
    children: Seq<Child>,
)
    requires
        is_cluster(before, time, n, time_width, children),
        holds(s, pos, cluster_data(before, time, n, time_width, children)),
        end == pos + cluster_data(before, time, n, time_width, children).len(),
        s.len() <= u64::MAX,
    ensures
        cluster_time_from(s, pos, end) == Some(time),
    decreases before.len(),
{
    let stamp = be_bytes(time as nat, n);
    let timed = element_bytes(0xE7, time_width, stamp) + children_bytes(children);
    lemma_holds_parts(s, pos, raws_bytes(before), timed);
    if before.len() == 0 {
        lemma_holds_parts(s, pos, element_bytes(0xE7, time_width, stamp), children_bytes(children));
        bytes_spell_their_number(time as nat, n);
        written_element_is_read(s, pos, 0xE7, time_width, stamp);
        written_number_is_read(s, data_start(pos, 0xE7, time_width), time, n);
    } else {
        let r = before[0];
        let rest = before.skip(1);
        let one = element_bytes(r.id, r.width, r.data);
        assert(is_raw(before[0]));
        lemma_holds_parts(s, pos, one, raws_bytes(rest));
        written_element_is_read(s, pos, r.id, r.width, r.data);
        lemma_size(r.data.len(), r.width);
        assert(cluster_data(before, time, n, time_width, children) =~= one + cluster_data(
            rest,
            time,
            n,
            time_width,
            children,
        ));
        lemma_holds_parts(s, pos, one, cluster_data(rest, time, n, time_width, children));
        assert(are_raws(rest)) by {
            assert forall|i: int| 0 <= i < rest.len() implies is_raw(
                #[trigger] rest[i],
            ) by {
                assert(rest[i] == before[i + 1]);
            }
        }
        lemma_time(s, pos + one.len(), end, rest, time, n, time_width, children);
    }
}

/// A probe finds the time of the first cluster behind other elements, if it starts
/// in front of the end of the probe.
pub proof fn written_cluster_has_its_time(
    s: Seq<u8>,
    pos: int,
    end: int,
    others: Seq<Item>,
    cluster: Item,
)
    requires
        forall|i: int|
            0 <= i < others.len() ==> is_item(#[trigger] others[i]) && others[i] is Other,
        is_item(cluster),
        cluster is Cluster,
        holds(s, pos, items_bytes(others) + item_bytes(cluster)),
        pos + items_bytes(others).len() < end,
        s.len() <= u64::MAX,
    ensures
        probed_time_from(s, pos, end) == Some(cluster->Cluster_time),
    decreases others.len(),
{
    lemma_holds_parts(s, pos, items_bytes(others), item_bytes(cluster));
    if others.len() == 0 {
        match cluster {
            Item::Cluster { before, time, n, time_width, children, width } => {
                let data = cluster_data(before, time, n, time_width, children);
                written_element_is_read(s, pos, 0x1F43B675, width, data);
                lemma_size(data.len(), width);
                let start = data_start(pos, 0x1F43B675, width);
                lemma_time(s, start, start + data.len(), before, time, n, time_width, children);
            },
            Item::Other(_) => {},
        }
    } else {
        let rest = others.skip(1);
        let one = item_bytes(others[0]);
        assert(is_item(others[0]) && others[0] is Other);
        lemma_holds_parts(s, pos, one, items_bytes(rest));
        assert(items_bytes(others) + item_bytes(cluster) =~= one + (items_bytes(rest) + item_bytes(
            cluster,
        )));
        lemma_holds_parts(s, pos, one, items_bytes(rest) + item_bytes(cluster));
        assert forall|i: int| 0 <= i < rest.len() implies is_item(#[trigger] rest[i])
            && rest[i] is Other by {
            assert(rest[i] == others[i + 1]);
        }
        match others[0] {
            Item::Other(r) => {
                written_element_is_read(s, pos, r.id, r.width, r.data);
                lemma_size(r.data.len(), r.width);
            },
            Item::Cluster { .. } => {},
        }
        written_cluster_has_its_time(s, pos + one.len(), end, rest, cluster);
    }
}

/// How large a range `n` probes bring down below 2 MiB.
pub open spec fn reach(n: nat) -> int
    decreases n,
{
    if n == 0 {
        2097152
    } else {
        2 * reach((n - 1) as nat)
    }
}

/// A search ends at a position where a probe finds a time that is not behind the one
/// that is looked for, or where it started, and at most 2 MiB in front of the end of
/// its range or of a position where a probe finds no such time.
pub proof fn search_ends_close(
    s: Seq<u8>,
    n: nat,
    lo: int,
    hi: int,
    start: u64,
    segment_end: int,
    first: int,
    last: int,
) -> (late: int)
    requires
        first <= lo <= hi <= last,
        hi - lo <= reach(n),
        lo == first || (probed_time(s, lo, segment_end) matches Some(t) && t <= start),
        hi == last || !(probed_time(s, hi, segment_end) matches Some(t) && t <= start),
    ensures
        ({
            let p = search(s, n, lo, hi, lo, start, segment_end);
            &&& p == first || (probed_time(s, p, segment_end) matches Some(t) && t <= start)
            &&& lo <= p <= late <= p + 2097152
            &&& late == last || !(probed_time(s, late, segment_end) matches Some(t) && t <= start)
        }),
    decreases n,
{
    if n > 0 && hi - lo >= 2097152 {
        let mid = lo + (hi - lo) / 2;
        let early = probed_time(s, mid, segment_end) matches Some(t) && t <= start;
        if early {
            search_ends_close(s, (n - 1) as nat, mid, hi, start, segment_end, first, last)
        } else {
            search_ends_close(s, (n - 1) as nat, lo, mid, start, segment_end, first, last)
        }
    } else {
        hi
    }
}

/// In a segment of up to two tebibytes, reading for a time starts at the first
/// cluster, or 2 MiB in front of a position where the time is not behind the first
/// that is wanted, and within 2 MiB behind which is the estimate, the end of the
/// segment, or a position where a probe finds no such time.
pub proof fn start_is_close_in_front(c: MkvConfig, first: int, start: u64, estimate: u64) -> (r: (
    int,
    int,
))
    requires
        c.start == Some(start),
        c.estimate == Some(estimate),
        first <= estimate,
        first <= c.layout.segment_data_end,
        c.layout.segment_data_end <= first + 0x200_0000_0000,
    ensures
        ({
            let (best, late) = r;
            let end = c.layout.segment_data_end as int;
            &&& best == first || (probed_time(c.bytes, best, end) matches Some(t) && t <= start)
            &&& scan_start(c, first) == if best - 2097152 > first {
                best - 2097152
            } else {
                first
            }
            &&& best <= late <= best + 2097152
            &&& late == estimate || late == end || !(probed_time(c.bytes, late, end) matches Some(t)
                && t <= start)
        }),
{
    let end = c.layout.segment_data_end as int;
    let hi = if estimate < end {
        estimate as int
    } else {
        end
    };
    lemma_reach();
    let late = search_ends_close(c.bytes, 20, first, hi, start, end, first, hi);
    (search(c.bytes, 20, first, hi, first, start, end), late)
}

proof fn lemma_reach()
    ensures
        reach(20) == 0x200_0000_0000,
{
    reveal_with_fuel(reach, 21);
}

/// The index is used exactly if it may be and has an entry of an active track within
/// the wanted time. Otherwise the clusters are read in file order.
pub proof fn index_is_used_if_it_helps(c: MkvConfig, first: u64)
    requires
        c.layout.first_cluster_position == Some(first),
    ensures
        first_source(c) matches Ok(SourceView::Cues { .. }) <==> c.strategy is Auto && (
        c.cues matches Some(cues) && exists|i: int|
            0 <= i < cues.len() && c.active.contains((#[trigger] cues[i]).track_number) && (
            c.start matches Some(t) ==> t <= cues[i].time) && (c.end matches Some(t)
                ==> cues[i].time <= t)),
        first_source(c) matches Ok(SourceView::Cues { cues, index, visited }) ==> index == 0
            && visited == Set::<u64>::empty(),
        !(first_source(c) matches Ok(SourceView::Cues { .. })) ==> first_source(c) == Ok::<
            SourceView,
            ErrorView,
        >(
            SourceView::Scan {
                pos: scan_start(c, first as int),
                end: c.layout.segment_data_end as int,
            },
        ),
{
    if c.cues is Some {
        lemma_wanted(c, c.cues->0);
    }
}

proof fn lemma_wanted(c: MkvConfig, cues: Seq<PgsCuePoint>)
    ensures
        wanted_cues(c, cues).len() > 0 <==> exists|i: int|
            0 <= i < cues.len() && c.active.contains((#[trigger] cues[i]).track_number) && (
            c.start matches Some(t) ==> t <= cues[i].time) && (c.end matches Some(t)
                ==> cues[i].time <= t),
    decreases cues.len(),
{
    if cues.len() > 0 {
        let init = cues.drop_last();
        lemma_wanted(c, init);
        if wanted_cues(c, init).len() > 0 {
            let i = choose|i: int|
                0 <= i < init.len() && c.active.contains((#[trigger] init[i]).track_number) && (
                c.start matches Some(t) ==> t <= init[i].time) && (c.end matches Some(t)
                    ==> init[i].time <= t);
            assert(cues[i] == init[i]);
        }
        if wanted_cues(c, cues).len() > wanted_cues(c, init).len() {
            assert(c.active.contains(cues[cues.len() - 1].track_number));
        }
        if wanted_cues(c, cues).len() == 0 {
            assert forall|i: int| 0 <= i < cues.len() implies !(c.active.contains(
                (#[trigger] cues[i]).track_number,
            ) && (c.start matches Some(t) ==> t <= cues[i].time) && (c.end matches Some(t)
                ==> cues[i].time <= t)) by {
                if i < init.len() {
                    assert(init[i] == cues[i]);
                }
            }
        }
    }
}

/// An extraction in file order, without a wanted time, of a segment of written
/// clusters gives what the blocks of the active tracks in all of them give, in
/// order, and nothing else.
pub proof fn written_segment_is_extracted(
    c: MkvConfig,
    p: MkvProgress,
    items: Seq<Item>,
    first: u64,
)
    requires
        forall|i: int| 0 <= i < items.len() ==> is_item(#[trigger] items[i]),
        c.layout.first_cluster_position == Some(first),
        holds(c.bytes, first as int, items_bytes(items)),
        c.layout.segment_data_end == first + items_bytes(items).len(),
        c.bytes.len() <= u64::MAX,
        c.strategy is Sequential || c.cues is None,
        c.start is None,
        p.source is Uninitialized,
        p.pending.len() == 0,
    ensures
        drained(ExtractionView::Mkv(c, p)) == Ok::<Seq<TrackSetView>, ErrorView>(
            blocks_effect(p.slots, c.compression, c.scale, found_in(items, c.active)).1,
        ),
{
    let q = MkvProgress {
        source: SourceView::Scan { pos: first as int, end: c.layout.segment_data_end as int },
        ..p
    };
    index_is_used_if_it_helps(c, first);
    assert(first_source(c) == Ok::<SourceView, ErrorView>(q.source));
    assert(mkv_step(c, p) == mkv_step(c, q));
    assert(drained(ExtractionView::Mkv(c, p)) == drained(ExtractionView::Mkv(c, q)));
    written_clusters_are_passed(c, q, items, first as int);
    let sets = blocks_effect(p.slots, c.compression, c.scale, found_in(items, c.active)).1;
    assert(q.pending + sets =~= sets);
}

/// An index entry without a place in its cluster leads to all blocks of the tracks
/// in the cluster, unless the cluster has been read before.
pub proof fn entry_without_place_leads_to_its_cluster(
    s: Seq<u8>,
    cluster: Item,
    cue: PgsCuePoint,
    tracks: Seq<u64>,
    visited: Set<u64>,
)
    requires
        is_item(cluster),
        cluster is Cluster,
        holds(s, cue.cluster_position as int, item_bytes(cluster)),
        s.len() <= u64::MAX,
        cue.relative_position is None,
    ensures
        cue_blocks(s, cue, tracks, visited) == Ok::<(Seq<BlockView>, Set<u64>), ErrorView>(
            if visited.contains(cue.cluster_position) {
                (Seq::empty(), visited)
            } else {
                (found_in(seq![cluster], tracks), visited.insert(cue.cluster_position))
            },
        ),
{
    let pos = cue.cluster_position as int;
    match cluster {
        Item::Cluster { before, time, n, time_width, children, width } => {
            let data = cluster_data(before, time, n, time_width, children);
            written_element_is_read(s, pos, 0x1F43B675, width, data);
            lemma_size(data.len(), width);
            let id = id_bytes(0x1F43B675);
            let rest = size_bytes(data.len(), width) + data;
            assert(element_bytes(0x1F43B675, width, data) =~= id + rest);
            lemma_holds_parts(s, pos, id, rest);
            written_id_is_read(s, pos, 0x1F43B675);
            let start = data_start(pos, 0x1F43B675, width);
            written_cluster_is_scanned(
                s,
                start,
                before,
                time,
                n,
                time_width,
                children,
                tracks,
                false,
            );
            assert(seq![cluster].skip(1) =~= Seq::empty());
            reveal_with_fuel(found_in, 2);
            let found = to_be_found(blocks_in(children), time, tracks);
            assert(found + Seq::<BlockView>::empty() =~= found);
        },
        Item::Other(_) => {},
    }
}

/// The blocks that index entries lead to, one after the other.
pub open spec fn led_to(
    s: Seq<u8>,
    cues: Seq<PgsCuePoint>,
    tracks: Seq<u64>,
    visited: Set<u64>,
) -> Result<Seq<BlockView>, ErrorView>
    decreases cues.len(),
{
    if cues.len() == 0 {
        Ok(Seq::empty())
    } else {
        match cue_blocks(s, cues[0], tracks, visited) {
            Err(e) => Err(e),
            Ok((blocks, seen)) => match led_to(s, cues.skip(1), tracks, seen) {
                Err(e) => Err(e),
                Ok(rest) => Ok(blocks + rest),
            },
        }
    }
}

/// A pass along the index gives what is pending, and then what the blocks that each
/// of its entries leads to give, in order, and nothing else.
#[verifier::spinoff_prover]
#[verifier::rlimit(60)]
pub proof fn index_is_followed_to_its_end(
    c: MkvConfig,
    p: MkvProgress,
    cues: Seq<PgsCuePoint>,
    index: int,
    visited: Set<u64>,
)
    requires
        p.source == (SourceView::Cues { cues, index, visited }),
        0 <= index <= cues.len(),
        led_to(c.bytes, cues.skip(index), c.active, visited) is Ok,
    ensures
        drained(ExtractionView::Mkv(c, p)) == Ok::<Seq<TrackSetView>, ErrorView>(
            p.pending + blocks_effect(
                p.slots,
                c.compression,
                c.scale,
                led_to(c.bytes, cues.skip(index), c.active, visited)->Ok_0,
            ).1,
        ),
    decreases cues.len() - index,
{
    let none = Seq::<TrackSetView>::empty();
    let q = MkvProgress { pending: none, ..p };
    let left = cues.skip(index);
    lemma_pending_first(c, p);
    if index < cues.len() {
        assert(left[0] == cues[index]);
        assert(left.skip(1) =~= cues.skip(index + 1));
        let (blocks, seen) = cue_blocks(c.bytes, cues[index], c.active, visited)->Ok_0;
        let source = SourceView::Cues { cues, index: index + 1, visited: seen };
        let next = with_blocks(c, q, blocks, source);
        assert(advanced(c, q) == Ok::<Option<MkvProgress>, ErrorView>(Some(next)));
        index_is_followed_to_its_end(c, next, cues, index + 1, seen);
        let rest = led_to(c.bytes, left.skip(1), c.active, seen)->Ok_0;
        blocks_give_one_after_the_other(p.slots, c.compression, c.scale, blocks, rest);
        let (mid, first) = blocks_effect(p.slots, c.compression, c.scale, blocks);
        let second = blocks_effect(mid, c.compression, c.scale, rest).1;
        assert(next.pending =~= first);
        assert(p.pending + (first + second) =~= p.pending + (next.pending + second));
    } else {
        assert(advanced(c, q) == Ok::<Option<MkvProgress>, ErrorView>(None));
    }
}

} // verus!
