//! Whole passes over the clusters of a Matroska file.
use vstd::prelude::*;
use crate::collect::drained;
use crate::ebml::written::{
    data_start, element_bytes, holds, is_id, lemma_holds_parts, power128, size_fits,
    written_element_is_read,
};
use crate::error::ErrorView;
use crate::extractor::ExtractionView;
use crate::mkv::cluster::BlockView;
use crate::mkv::cues::PgsCuePoint;
use crate::mkv::stream::{
    advanced, block_effect, blocks_effect, next_cluster, wanted_cues, with_blocks, MkvConfig,
    MkvProgress, SlotView, SourceView,
};
use crate::mkv::tracks::CompressionView;
use crate::restriction::matroska::{lemma_pending_first, stepped};
use crate::track::TrackSetView;
use crate::written::clusters::{
    blocks_in, cluster_data, is_cluster, to_be_found, written_cluster_is_scanned, Child, Raw,
};

verus! {

/// A cluster, or an element of a segment that is none.
pub enum Item {
    Cluster {
        before: Seq<Raw>,
        time: u64,
        n: nat,
        time_width: nat,
        children: Seq<Child>,
        width: nat,
    },
    Other(Raw),
}

/// An item as it is written.
pub open spec fn item_bytes(x: Item) -> Seq<u8> {
    match x {
        Item::Cluster { before, time, n, time_width, children, width } => element_bytes(
            0x1F43B675,
            width,
            cluster_data(before, time, n, time_width, children),
        ),
        Item::Other(r) => element_bytes(r.id, r.width, r.data),
    }
}

/// Whether an item can be written.
pub open spec fn is_item(x: Item) -> bool {
    match x {
        Item::Cluster { before, time, n, time_width, children, width } => is_cluster(
            before,
            time,
            n,
            time_width,
            children,
        ) && size_fits(cluster_data(before, time, n, time_width, children).len(), width),
        Item::Other(r) => is_id(r.id) && size_fits(r.data.len(), r.width) && r.id != 0x1F43B675,
    }
}

/// Items as they are written.
pub open spec fn items_bytes(items: Seq<Item>) -> Seq<u8>
    decreases items.len(),
{
    if items.len() == 0 {
        Seq::empty()
    } else {
        item_bytes(items[0]) + items_bytes(items.skip(1))
    }
}

/// What is to be found of the blocks in the clusters among items, in order.
pub open spec fn found_in(items: Seq<Item>, tracks: Seq<u64>) -> Seq<BlockView>
    decreases items.len(),
{
    if items.len() == 0 {
        Seq::empty()
    } else {
        let rest = found_in(items.skip(1), tracks);
        match items[0] {
            Item::Cluster { time, children, .. } => to_be_found(
                blocks_in(children),
                time,
                tracks,
            ) + rest,
            Item::Other(_) => rest,
        }
    }
}

/// What blocks give is what the first of them give, and then what the others do.
pub proof fn blocks_give_one_after_the_other(
    slots: Seq<SlotView>,
    compression: Map<u64, CompressionView>,
    scale: u64,
    a: Seq<BlockView>,
    b: Seq<BlockView>,
)
    ensures
        ({
            let (mid, first) = blocks_effect(slots, compression, scale, a);
            let (after, second) = blocks_effect(mid, compression, scale, b);
            blocks_effect(slots, compression, scale, a + b) == (after, first + second)
        }),
    decreases b.len(),
{
    let (mid, first) = blocks_effect(slots, compression, scale, a);
    if b.len() == 0 {
        assert(a + b =~= a);
        assert(first + Seq::<TrackSetView>::empty() =~= first);
    } else {
        blocks_give_one_after_the_other(slots, compression, scale, a, b.drop_last());
        assert((a + b).drop_last() =~= a + b.drop_last());
        assert((a + b).last() == b.last());
        let (most, second) = blocks_effect(mid, compression, scale, b.drop_last());
        let (after, more) = block_effect(most, compression, scale, b.last());
        assert(first + (second + more) =~= (first + second) + more);
    }
}

pub(crate) proof fn lemma_size(n: nat, w: nat)
    requires
        size_fits(n, w),
    ensures
        n < u64::MAX,
{
    reveal_with_fuel(power128, 9);
}

/// A pass over written clusters in file order gives what is pending, and then
/// what the blocks of the active tracks in them give, in order, and nothing else.
#[verifier::spinoff_prover]
#[verifier::rlimit(60)]
pub proof fn written_clusters_are_passed(c: MkvConfig, p: MkvProgress, items: Seq<Item>, pos: int)
    requires
        forall|i: int| 0 <= i < items.len() ==> is_item(#[trigger] items[i]),
        holds(c.bytes, pos, items_bytes(items)),
        c.bytes.len() <= u64::MAX,
        p.source == (SourceView::Scan { pos, end: pos + items_bytes(items).len() }),
    ensures
        drained(ExtractionView::Mkv(c, p)) == Ok::<Seq<TrackSetView>, ErrorView>(
            p.pending + blocks_effect(
                p.slots,
                c.compression,
                c.scale,
                found_in(items, c.active),
            ).1,
        ),
    decreases items.len(),
{
    let s = c.bytes;
    let end = pos + items_bytes(items).len();
    let none = Seq::<TrackSetView>::empty();
    let q = MkvProgress { pending: none, ..p };
    lemma_pending_first(c, p);
    if items.len() == 0 {
        assert(advanced(c, q) == Ok::<Option<MkvProgress>, ErrorView>(None));
        assert(stepped(c, q) == Ok::<Seq<TrackSetView>, ErrorView>(none));
    } else {
        let x = items[0];
        let rest = items.skip(1);
        let one = item_bytes(x);
        let next = pos + one.len();
        assert(is_item(items[0]));
        lemma_holds_parts(s, pos, one, items_bytes(rest));
        assert forall|i: int| 0 <= i < rest.len() implies is_item(#[trigger] rest[i]) by {
            assert(rest[i] == items[i + 1]);
        }
        match x {
            Item::Other(r) => {
                written_element_is_read(s, pos, r.id, r.width, r.data);
                lemma_size(r.data.len(), r.width);
                assert(next_cluster(s, pos, end) == next_cluster(s, next, end));
                let later = MkvProgress { source: SourceView::Scan { pos: next, end }, ..q };
                assert(stepped(c, q) == stepped(c, later));
                lemma_pending_first(c, later);
                written_clusters_are_passed(c, later, rest, next);
                assert(later == MkvProgress { pending: none, ..later });
                let all = blocks_effect(
                    p.slots,
                    c.compression,
                    c.scale,
                    found_in(items, c.active),
                ).1;
                assert(none + all =~= all);
                if let Ok(v) = stepped(c, later) {
                    assert(none + v =~= v);
                }
            },
            Item::Cluster { before, time, n, time_width, children, width } => {
                let data = cluster_data(before, time, n, time_width, children);
                written_element_is_read(s, pos, 0x1F43B675, width, data);
                lemma_size(data.len(), width);
                let at = data_start(pos, 0x1F43B675, width);
                written_cluster_is_scanned(
                    s,
                    at,
                    before,
                    time,
                    n,
                    time_width,
                    children,
                    c.active,
                    true,
                );
                let found = to_be_found(blocks_in(children), time, c.active);
                let later = with_blocks(c, q, found, SourceView::Scan { pos: next, end });
                assert(advanced(c, q) == Ok::<Option<MkvProgress>, ErrorView>(Some(later)));
                assert(later.source == SourceView::Scan { pos: next, end });
                written_clusters_are_passed(c, later, rest, next);
                blocks_give_one_after_the_other(
                    p.slots,
                    c.compression,
                    c.scale,
                    found,
                    found_in(rest, c.active),
                );
                assert(none + blocks_effect(p.slots, c.compression, c.scale, found).1
                    =~= blocks_effect(p.slots, c.compression, c.scale, found).1);
            },
        }
    }
}

/// The index entries that are followed are those of active tracks within the
/// wanted time, both ends among it, in order.
pub proof fn wanted_entries_are_in_time(c: MkvConfig, cues: Seq<PgsCuePoint>, k: int)
    requires
        0 <= k < cues.len(),
    ensures
        wanted_cues(c, cues).contains(cues[k]) <==> (c.active.contains(cues[k].track_number)
            && match c.start {
            Some(t) => t <= cues[k].time,
            None => true,
        } && match c.end {
            Some(t) => cues[k].time <= t,
            None => true,
        }),
{
    lemma_wanted(c, cues, cues[k]);
    assert(cues.contains(cues[k]));
}

proof fn lemma_wanted(c: MkvConfig, cues: Seq<PgsCuePoint>, x: PgsCuePoint)
    ensures
        wanted_cues(c, cues).contains(x) <==> cues.contains(x) && c.active.contains(x.track_number)
            && match c.start {
            Some(t) => t <= x.time,
            None => true,
        } && match c.end {
            Some(t) => x.time <= t,
            None => true,
        },
    decreases cues.len(),
{
    if cues.len() > 0 {
        let init = cues.drop_last();
        let last = cues.last();
        lemma_wanted(c, init, x);
        let before = wanted_cues(c, init);
        assert(cues.contains(x) == (init.contains(x) || x == last)) by {
            if init.contains(x) {
                let i = choose|i: int| 0 <= i < init.len() && init[i] == x;
                assert(cues[i] == x);
            }
            if cues.contains(x) && x != last {
                let i = choose|i: int| 0 <= i < cues.len() && cues[i] == x;
                assert(init[i] == x);
            }
            assert(cues[cues.len() - 1] == last);
        }
        assert(before.push(last).contains(x) == (before.contains(x) || x == last)) by {
            if before.contains(x) {
                let i = choose|i: int| 0 <= i < before.len() && before[i] == x;
                assert(before.push(last)[i] == x);
            }
            assert(before.push(last)[before.len() as int] == last);
        }
    }
}

} // verus!
