//! Blocks that are read in parallel are put in order and assembled like those of a
//! pass.
use vstd::prelude::*;
use crate::extractor::sets_with_id;
use crate::mkv::assemblers::{
    compression_for, fresh_states, processed, results_of, TrackStateView,
};
use crate::mkv::cluster::BlockView;
use crate::mkv::cues::PgsCuePoint;
use crate::mkv::decode::decoded_data;
use crate::mkv::indexed::{
    chunks_from, joined_chunks, partition_keeps_clusters_together, partitioned, per_worker,
};
use crate::mkv::order::{
    blocks_in_order, blocks_in_order_is_sorted, cues_in_order, cues_in_order_is_sorted,
};
use crate::mkv::stream::{parallel_plan, block_effect, blocks_effect, slot_index, SlotView};
use crate::mkv::tracks::CompressionView;
use crate::pgs::display_set::{fresh_assembler, DisplaySetView};
use crate::track::{track_id_of, TrackSetView};

verus! {

/// Blocks that are put in order are in the order of their times, and at one time in
/// the order of their tracks; none is lost or added.
pub proof fn blocks_are_put_in_order_of_time(blocks: Seq<BlockView>, i: int, j: int)
    requires
        0 <= i < j < blocks_in_order(blocks).len(),
    ensures
        blocks_in_order(blocks)[i].timestamp <= blocks_in_order(blocks)[j].timestamp,
        blocks_in_order(blocks)[i].timestamp == blocks_in_order(blocks)[j].timestamp
            ==> blocks_in_order(blocks)[i].track_number <= blocks_in_order(blocks)[j].track_number,
        blocks_in_order(blocks).to_multiset() == blocks.to_multiset(),
{
    blocks_in_order_is_sorted(blocks);
}

/// Index entries that are put in order are in the order of their clusters, and in
/// one cluster in the order of their places, where no place counts as the first;
/// none is lost or added.
pub proof fn entries_are_put_in_file_order(cues: Seq<PgsCuePoint>, i: int, j: int)
    requires
        0 <= i < j < cues_in_order(cues).len(),
    ensures
        cues_in_order(cues)[i].cluster_position <= cues_in_order(cues)[j].cluster_position,
        cues_in_order(cues)[i].cluster_position == cues_in_order(cues)[j].cluster_position ==> (
        match (
            cues_in_order(cues)[i].relative_position,
            cues_in_order(cues)[j].relative_position,
        ) {
            (Some(a), Some(b)) => a <= b,
            (Some(a), None) => a == 0,
            (None, _) => true,
        }),
        cues_in_order(cues).to_multiset() == cues.to_multiset(),
{
    cues_in_order_is_sorted(cues);
}

/// All parts of the index but the last have at least as many entries as there are
/// for each worker.
pub proof fn parts_are_large_enough(cues: Seq<PgsCuePoint>, workers: nat, i: int)
    requires
        workers > 0,
        0 <= i < partitioned(cues, workers).len() - 1,
    ensures
        partitioned(cues, workers)[i].len() * workers >= cues.len(),
{
    let target = per_worker(cues.len(), workers);
    lemma_part(cues, Seq::empty(), 0, target, workers, i);
    let w = workers as int;
    let n = cues.len() as int;
    vstd::arithmetic::div_mod::lemma_fundamental_div_mod(n + w - 1, w);
    vstd::arithmetic::div_mod::lemma_div_pos_is_pos(n + w - 1, w);
    vstd::arithmetic::div_mod::lemma_mod_bound(n + w - 1, w);
    let t = (n + w - 1) / w;
    assert(w * t >= n);
    let len = partitioned(cues, workers)[i].len() as int;
    assert(len * w >= n) by (nonlinear_arith)
        requires
            len >= t,
            w > 0,
            w * t >= n,
    ;
}

proof fn lemma_part(
    cues: Seq<PgsCuePoint>,
    current: Seq<PgsCuePoint>,
    closed: nat,
    target: nat,
    workers: nat,
    i: int,
)
    requires
        0 <= i < chunks_from(cues, current, closed, target, workers).len() - 1,
    ensures
        chunks_from(cues, current, closed, target, workers)[i].len() >= target,
    decreases cues.len(),
{
    if cues.len() > 0 {
        let n = crate::mkv::indexed::leading_group(cues, cues[0].cluster_position) as int;
        crate::mkv::indexed::lemma_leading_group(cues, cues[0].cluster_position);
        let more = current + cues.take(n);
        let rest = cues.skip(n);
        if more.len() >= target && closed + 1 < workers {
            if i > 0 {
                lemma_part(rest, Seq::empty(), closed + 1, target, workers, i - 1);
            }
        } else {
            lemma_part(rest, more, closed, target, workers, i);
        }
    }
}

/// Different tracks have a fresh state each, in order.
pub proof fn each_track_has_a_state(tracks: Seq<u64>)
    requires
        tracks.no_duplicates(),
    ensures
        fresh_states(tracks) == Seq::new(
            tracks.len(),
            |i: int|
                TrackStateView {
                    number: tracks[i],
                    assembler: fresh_assembler(),
                    display_sets: Seq::empty(),
                },
        ),
    decreases tracks.len(),
{
    if tracks.len() > 0 {
        let init = tracks.drop_last();
        assert forall|i: int, j: int| 0 <= i < init.len() && 0 <= j < init.len() && i
            != j implies init[i] != init[j] by {
            assert(init[i] == tracks[i] && init[j] == tracks[j]);
        }
        each_track_has_a_state(init);
        if init.contains(tracks.last()) {
            let i = choose|i: int| 0 <= i < init.len() && init[i] == tracks.last();
            assert(tracks[i] == tracks[tracks.len() - 1]);
        }
    }
    assert(fresh_states(tracks) =~= Seq::new(
        tracks.len(),
        |i: int|
            TrackStateView {
                number: tracks[i],
                assembler: fresh_assembler(),
                display_sets: Seq::empty(),
            },
    ));
}

/// The results are those of the states with display sets, in order.
pub proof fn results_are_those_with_sets(
    a: Seq<TrackStateView>,
    x: TrackStateView,
    b: Seq<TrackStateView>,
)
    ensures
        results_of(a + seq![x] + b) == results_of(a) + (if x.display_sets.len() > 0 {
            seq![(x.number, x.display_sets)]
        } else {
            Seq::empty()
        }) + results_of(b),
    decreases b.len(),
{
    let all = a + seq![x] + b;
    if b.len() == 0 {
        assert(all.drop_last() =~= a);
    } else {
        assert(all.drop_last() =~= a + seq![x] + b.drop_last());
        assert(all.last() == b.last());
        results_are_those_with_sets(a, x, b.drop_last());
    }
    assert(results_of(all) =~= results_of(a) + (if x.display_sets.len() > 0 {
        seq![(x.number, x.display_sets)]
    } else {
        Seq::empty()
    }) + results_of(b));
}

/// Whether states and slots are of the same tracks, which have different
/// identifiers, and have seen the same segments.
pub open spec fn go_together(states: Seq<TrackStateView>, slots: Seq<SlotView>) -> bool {
    &&& states.len() == slots.len()
    &&& forall|i: int|
        0 <= i < states.len() ==> (#[trigger] states[i]).number == slots[i].number
            && states[i].assembler == slots[i].assembler
    &&& forall|i: int, j: int|
        0 <= i < j < slots.len() ==> track_id_of((#[trigger] slots[i]).number) != track_id_of(
            (#[trigger] slots[j]).number,
        )
}

/// The display sets of display sets with their tracks.
pub open spec fn bare_sets(sets: Seq<TrackSetView>) -> Seq<DisplaySetView> {
    Seq::new(sets.len(), |i: int| sets[i].display_set)
}

proof fn lemma_sets_append(a: Seq<TrackSetView>, b: Seq<TrackSetView>, id: u32)
    ensures
        sets_with_id(a + b, id) == sets_with_id(a, id) + sets_with_id(b, id),
    decreases b.len(),
{
    if b.len() == 0 {
        assert(a + b =~= a);
    } else {
        assert((a + b).drop_last() =~= a + b.drop_last());
        assert((a + b).last() == b.last());
        lemma_sets_append(a, b.drop_last(), id);
    }
    assert(sets_with_id(a + b, id) =~= sets_with_id(a, id) + sets_with_id(b, id));
}

proof fn lemma_sets_of_one(sets: Seq<TrackSetView>, own: u32, id: u32)
    requires
        forall|i: int| 0 <= i < sets.len() ==> (#[trigger] sets[i]).track_id == own,
    ensures
        sets_with_id(sets, id) == if own == id {
            sets
        } else {
            Seq::empty()
        },
    decreases sets.len(),
{
    if sets.len() > 0 {
        assert(sets[sets.len() - 1].track_id == own);
        lemma_sets_of_one(sets.drop_last(), own, id);
        assert(sets.drop_last().push(sets.last()) =~= sets);
    } else {
        assert(sets =~= Seq::empty());
    }
}

proof fn lemma_places_agree(states: Seq<TrackStateView>, slots: Seq<SlotView>, number: u64)
    requires
        go_together(states, slots),
    ensures
        crate::mkv::assemblers::state_index(states, number) == slot_index(slots, number),
        0 <= slot_index(slots, number) <= slots.len(),
        slot_index(slots, number) < slots.len() ==> slots[slot_index(slots, number)].number
            == number,
    decreases slots.len(),
{
    if slots.len() > 0 {
        assert(states[0].number == slots[0].number);
        let fewer = states.skip(1);
        let rest = slots.skip(1);
        assert(go_together(fewer, rest)) by {
            assert forall|i: int| 0 <= i < fewer.len() implies (#[trigger] fewer[i]).number
                == rest[i].number && fewer[i].assembler == rest[i].assembler by {
                assert(fewer[i] == states[i + 1] && rest[i] == slots[i + 1]);
            }
            assert forall|i: int, j: int| 0 <= i < j < rest.len() implies track_id_of(
                (#[trigger] rest[i]).number,
            ) != track_id_of((#[trigger] rest[j]).number) by {
                assert(rest[i] == slots[i + 1] && rest[j] == slots[j + 1]);
            }
        }
        lemma_places_agree(fewer, rest, number);
    }
}

/// Blocks that can all be decoded come to the same display sets of each track,
/// whether they are assembled together or one by one in a pass.
#[verifier::spinoff_prover]
#[verifier::rlimit(60)]
pub proof fn assembling_gives_what_a_pass_gives(
    states: Seq<TrackStateView>,
    slots: Seq<SlotView>,
    compression: Map<u64, CompressionView>,
    scale: u64,
    blocks: Seq<BlockView>,
)
    requires
        go_together(states, slots),
        forall|i: int|
            0 <= i < blocks.len() ==> decoded_data(
                (#[trigger] blocks[i]).data,
                compression_for(compression, blocks[i].track_number),
            ) is Some,
    ensures
        ({
            let all = processed(states, compression, scale, blocks);
            let (after, sets) = blocks_effect(slots, compression, scale, blocks);
            &&& go_together(all, after)
            &&& forall|i: int|
                0 <= i < states.len() ==> (#[trigger] all[i]).number == states[i].number
                    && all[i].display_sets == states[i].display_sets + bare_sets(
                    sets_with_id(sets, track_id_of(states[i].number)),
                )
            &&& all.len() == states.len()
        }),
    decreases blocks.len(),
{
    if blocks.len() == 0 {
        let none = Seq::<TrackSetView>::empty();
        assert forall|i: int| 0 <= i < states.len() implies (#[trigger] states[i]).display_sets
            == states[i].display_sets + bare_sets(
            sets_with_id(none, track_id_of(states[i].number)),
        ) by {
            assert(sets_with_id(none, track_id_of(states[i].number)) =~= none);
            assert(bare_sets(none) =~= Seq::empty());
            assert(states[i].display_sets + Seq::<DisplaySetView>::empty()
                =~= states[i].display_sets);
        }
    } else {
        let init = blocks.drop_last();
        let b = blocks.last();
        assert(decoded_data(
            blocks[blocks.len() - 1].data,
            compression_for(compression, blocks[blocks.len() - 1].track_number),
        ) is Some);
        assert forall|i: int| 0 <= i < init.len() implies decoded_data(
            (#[trigger] init[i]).data,
            compression_for(compression, init[i].track_number),
        ) is Some by {
            assert(init[i] == blocks[i]);
        }
        assembling_gives_what_a_pass_gives(states, slots, compression, scale, init);
        let before = processed(states, compression, scale, init);
        let (mid, sets) = blocks_effect(slots, compression, scale, init);
        let (after, more) = block_effect(mid, compression, scale, b);
        let all = processed(states, compression, scale, blocks);
        lemma_places_agree(before, mid, b.track_number);
        let k = slot_index(mid, b.track_number);
        assert forall|i: int| 0 <= i < states.len() implies (#[trigger] all[i]).number
            == states[i].number && all[i].display_sets == states[i].display_sets + bare_sets(
            sets_with_id(sets + more, track_id_of(states[i].number)),
        ) by {
            let id = track_id_of(states[i].number);
            assert(before[i].number == states[i].number);
            lemma_sets_append(sets, more, id);
            let own = track_id_of(b.track_number);
            lemma_sets_of_one(more, own, id);
            if i == k {
                assert(mid[i].number == b.track_number);
                assert(bare_sets(sets_with_id(sets + more, id)) =~= bare_sets(
                    sets_with_id(sets, id),
                ) + bare_sets(more));
                assert(all[i].display_sets =~= states[i].display_sets + bare_sets(
                    sets_with_id(sets + more, id),
                ));
            } else {
                if k < mid.len() {
                    assert(track_id_of(mid[i].number) != track_id_of(mid[k].number));
                } else {
                    assert(more =~= Seq::empty());
                }
                assert(sets_with_id(sets + more, id) =~= sets_with_id(sets, id));
            }
        }
        assert(go_together(all, after));
    }
}

/// The index is extracted in parallel exactly if nothing has been handed out, it has
/// at least 32 entries and there is more than one worker; by no more than eight.
pub proof fn parallel_extraction_pays_for_long_indexes(
    cues: Option<Seq<PgsCuePoint>>,
    has_yielded: bool,
    available: nat,
)
    ensures
        parallel_plan(cues, has_yielded, available) is Some <==> !has_yielded && available >= 2 && (
        cues matches Some(points) && points.len() >= 32),
        parallel_plan(cues, has_yielded, available) matches Some(parts) ==> parts.len() <= 8
            && parts.len() <= available && joined_chunks(parts).to_multiset()
            == cues->0.to_multiset(),
{
    if parallel_plan(cues, has_yielded, available) is Some {
        let workers = if available < 8 {
            available
        } else {
            8
        };
        let sorted = cues_in_order(cues->0);
        partition_keeps_clusters_together(sorted, workers);
        cues_in_order_is_sorted(cues->0);
    }
}

} // verus!
