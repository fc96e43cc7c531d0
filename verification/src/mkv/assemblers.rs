//! Display sets of several tracks at once.
use vstd::prelude::*;
use crate::mkv::cluster::{block_views, BlockView, PgsBlock};
use crate::mkv::compression_map_view;
use crate::mkv::decode::{
    block_segments, decode_block_data, decoded_data, decoded_or_raw, mkv_timestamp_to_pts,
    process_pgs_block, pts_of, set_views,
};
use crate::mkv::tracks::{CompressionView, ContentCompAlgo};
use crate::pgs::display_set::{
    fresh_assembler, pushed_all, AssemblerView, DisplaySet, DisplaySetAssembler, DisplaySetView,
};
use std::collections::HashMap;

verus! {

/// A track, its assembler and the display sets that it has completed.
pub struct TrackState {
    pub number: u64,
    pub assembler: DisplaySetAssembler,
    pub display_sets: Vec<DisplaySet>,
}

/// A track's state as a mathematical value.
#[verifier::ext_equal]
pub struct TrackStateView {
    pub number: u64,
    pub assembler: AssemblerView,
    pub display_sets: Seq<DisplaySetView>,
}

impl View for TrackState {
    type V = TrackStateView;

    open spec fn view(&self) -> TrackStateView {
        TrackStateView {
            number: self.number,
            assembler: self.assembler@,
            display_sets: set_views(self.display_sets@),
        }
    }
}

/// The views of track states.
pub open spec fn state_views(states: Seq<TrackState>) -> Seq<TrackStateView> {
    Seq::new(states.len(), |i: int| states[i]@)
}

/// The place of a track's state, or the number of states if it has none.
pub open spec fn state_index(states: Seq<TrackStateView>, number: u64) -> int
    decreases states.len(),
{
    if states.len() == 0 || states[0].number == number {
        0
    } else {
        1 + state_index(states.skip(1), number)
    }
}

/// A state for a track that has seen nothing.
pub open spec fn fresh_state(number: u64) -> TrackStateView {
    TrackStateView { number, assembler: fresh_assembler(), display_sets: Seq::empty() }
}

/// A fresh state for each of the tracks, in order of their first occurrence.
pub open spec fn fresh_states(tracks: Seq<u64>) -> Seq<TrackStateView>
    decreases tracks.len(),
{
    if tracks.len() == 0 {
        Seq::empty()
    } else {
        let before = fresh_states(tracks.drop_last());
        if tracks.drop_last().contains(tracks.last()) {
            before
        } else {
            before.push(fresh_state(tracks.last()))
        }
    }
}

/// The compression of a track, if it has one.
pub open spec fn compression_for(map: Map<u64, CompressionView>, track: u64) -> Option<
    CompressionView,
> {
    if map.contains_key(track) {
        Some(map[track])
    } else {
        None
    }
}

/// What decoded data with a timestamp makes of the states. Only the track that
/// it belongs to changes.
pub open spec fn fed(states: Seq<TrackStateView>, track: u64, data: Seq<u8>, pts: u64) -> Seq<
    TrackStateView,
> {
    let i = state_index(states, track);
    if 0 <= i < states.len() {
        let (assembler, sets) = pushed_all(states[i].assembler, block_segments(data, pts));
        states.update(
            i,
            TrackStateView {
                number: states[i].number,
                assembler,
                display_sets: states[i].display_sets + sets,
            },
        )
    } else {
        states
    }
}

/// What blocks make of the states, one after the other.
pub open spec fn processed(
    states: Seq<TrackStateView>,
    compression: Map<u64, CompressionView>,
    scale: u64,
    blocks: Seq<BlockView>,
) -> Seq<TrackStateView>
    decreases blocks.len(),
{
    if blocks.len() == 0 {
        states
    } else {
        let b = blocks.last();
        let data = decoded_or_raw(
            b.data,
            decoded_data(b.data, compression_for(compression, b.track_number)),
        );
        fed(
            processed(states, compression, scale, blocks.drop_last()),
            b.track_number,
            data,
            pts_of(b.timestamp, scale),
        )
    }
}

/// The display sets of the tracks that have any.
pub open spec fn results_of(states: Seq<TrackStateView>) -> Seq<(u64, Seq<DisplaySetView>)>
    decreases states.len(),
{
    if states.len() == 0 {
        Seq::empty()
    } else {
        let before = results_of(states.drop_last());
        let s = states.last();
        if s.display_sets.len() > 0 {
            before.push((s.number, s.display_sets))
        } else {
            before
        }
    }
}

/// The views of results.
pub open spec fn result_views(results: Seq<(u64, Vec<DisplaySet>)>) -> Seq<
    (u64, Seq<DisplaySetView>),
> {
    Seq::new(results.len(), |i: int| (results[i].0, set_views(results[i].1@)))
}

/// Assembles the blocks of several tracks.
pub struct TrackAssemblers<'a> {
    states: Vec<TrackState>,
    compression: &'a HashMap<u64, ContentCompAlgo>,
    timestamp_scale: u64,
}

proof fn lemma_state_index(states: Seq<TrackStateView>, number: u64, i: int)
    requires
        0 <= i <= states.len(),
        forall|j: int| 0 <= j < i ==> (#[trigger] states[j]).number != number,
        i < states.len() ==> states[i].number == number,
    ensures
        state_index(states, number) == i,
    decreases states.len(),
{
    if i > 0 {
        assert(states[0].number != number);
        assert forall|j: int| 0 <= j < i - 1 implies (#[trigger] states.skip(1)[j]).number
            != number by {
            assert(states.skip(1)[j] == states[j + 1]);
        }
        lemma_state_index(states.skip(1), number, i - 1);
    }
}

impl<'a> TrackAssemblers<'a> {
    /// The states of the tracks.
    pub closed spec fn states(&self) -> Seq<TrackStateView> {
        state_views(self.states@)
    }

    /// The compressions of the tracks that have one.
    pub closed spec fn compression(&self) -> Map<u64, CompressionView> {
        compression_map_view(self.compression@)
    }

    /// Nanoseconds per timestamp unit.
    pub closed spec fn scale(&self) -> u64 {
        self.timestamp_scale
    }

    /// Assemblers for the tracks.
    pub fn new(
        track_numbers: &[u64],
        compression: &'a HashMap<u64, ContentCompAlgo>,
        timestamp_scale: u64,
    ) -> (r: Self)
        ensures
            r.states() == fresh_states(track_numbers@),
            r.compression() == compression_map_view(compression@),
            r.scale() == timestamp_scale,
    {
        let mut states: Vec<TrackState> = Vec::new();
        let mut i: usize = 0;
        assert(state_views(states@) =~= fresh_states(track_numbers@.take(0)));
        while i < track_numbers.len()
            invariant
                i <= track_numbers@.len(),
                state_views(states@) == fresh_states(track_numbers@.take(i as int)),
                forall|j: int|
                    0 <= j < i ==> exists|k: int|
                        0 <= k < states@.len() && (#[trigger] states@[k]).number
                            == #[trigger] track_numbers@[j],
                forall|k: int|
                    0 <= k < states@.len() ==> track_numbers@.take(i as int).contains(
                        (#[trigger] states@[k]).number,
                    ),
            decreases track_numbers@.len() - i,
        {
            let number: u64 = track_numbers[i];
            let mut known = false;
            let mut k: usize = 0;
            while k < states.len()
                invariant
                    k <= states@.len(),
                    known <==> exists|j: int|
                        0 <= j < k && (#[trigger] states@[j]).number == number,
                decreases states@.len() - k,
            {
                if states[k].number == number {
                    known = true;
                }
                k += 1;
            }
            let ghost before = states@;
            let ghost seen = track_numbers@.take(i as int);
            let ghost more = track_numbers@.take(i + 1);
            assert(more.drop_last() =~= seen);
            assert(known <==> seen.contains(number)) by {
                if seen.contains(number) {
                    let j = choose|j: int| 0 <= j < seen.len() && seen[j] == number;
                    assert(track_numbers@[j] == number);
                }
            }
            if !known {
                let state = TrackState {
                    number,
                    assembler: DisplaySetAssembler::new(),
                    display_sets: Vec::new(),
                };
                assert(state@.display_sets =~= Seq::<DisplaySetView>::empty());
                states.push(state);
                assert(state_views(states@) =~= state_views(before).push(state@));
            }
            i += 1;
            proof {
                assert forall|j: int| 0 <= j < i implies exists|k: int|
                    0 <= k < states@.len() && (#[trigger] states@[k]).number
                        == #[trigger] track_numbers@[j] by {
                    if j < i - 1 {
                        let k = choose|k: int|
                            0 <= k < before.len() && (#[trigger] before[k]).number
                                == track_numbers@[j];
                        assert(states@[k].number == track_numbers@[j]);
                    } else if known {
                        let k = choose|k: int|
                            0 <= k < before.len() && (#[trigger] before[k]).number == number;
                        assert(states@[k].number == number);
                    } else {
                        assert(states@[states@.len() - 1].number == number);
                    }
                }
                assert forall|k: int| 0 <= k < states@.len() implies more.contains(
                    (#[trigger] states@[k]).number,
                ) by {
                    if k < before.len() {
                        let n = before[k].number;
                        assert(seen.contains(n));
                        let j = choose|j: int| 0 <= j < seen.len() && seen[j] == n;
                        assert(more[j] == n);
                    } else {
                        assert(more[i - 1] == number);
                    }
                }
            }
        }
        assert(track_numbers@.take(i as int) =~= track_numbers@);
        TrackAssemblers { states, compression, timestamp_scale }
    }

    /// Converts a timestamp to 90 kHz ticks.
    pub fn mkv_timestamp_to_pts(&self, mkv_ts: i64) -> (r: u64)
        ensures
            r == pts_of(mkv_ts, self.scale()),
    {
        mkv_timestamp_to_pts(mkv_ts, self.timestamp_scale)
    }

    /// Gives decoded data with a timestamp to the track that it belongs to.
    pub fn feed(&mut self, track: u64, data: &[u8], pts: u64)
        ensures
            final(self).states() == fed(old(self).states(), track, data@, pts),
            final(self).compression() == old(self).compression(),
            final(self).scale() == old(self).scale(),
    {
        let ghost before = self.states();
        let mut i: usize = 0;
        while i < self.states.len() && self.states[i].number != track
            invariant
                *self == *old(self),
                before == self.states(),
                i <= self.states@.len(),
                forall|j: int| 0 <= j < i ==> (#[trigger] self.states@[j]).number != track,
            decreases self.states@.len() - i,
        {
            i += 1;
        }
        proof {
            assert forall|j: int| 0 <= j < i implies (#[trigger] before[j]).number != track by {
                assert(before[j] == self.states@[j]@);
            }
            if i < before.len() {
                assert(before[i as int] == self.states@[i as int]@);
            }
            lemma_state_index(before, track, i as int);
        }
        if i < self.states.len() {
            let state = &mut self.states[i];
            process_pgs_block(data, pts, &mut state.assembler, &mut state.display_sets);
        }
        assert(self.states() =~= fed(before, track, data@, pts));
    }

    /// Decodes blocks and gives each to the track that it belongs to.
    pub fn process_pgs_blocks(&mut self, pgs_blocks: Vec<PgsBlock>)
        ensures
            final(self).states() == processed(
                old(self).states(),
                old(self).compression(),
                old(self).scale(),
                block_views(pgs_blocks@),
            ),
            final(self).compression() == old(self).compression(),
            final(self).scale() == old(self).scale(),
    {
        broadcast use vstd::std_specs::hash::group_hash_axioms;

        let ghost blocks = block_views(pgs_blocks@);
        let mut i: usize = 0;
        while i < pgs_blocks.len()
            invariant
                i <= pgs_blocks@.len(),
                blocks == block_views(pgs_blocks@),
                self.states() == processed(
                    old(self).states(),
                    old(self).compression(),
                    old(self).scale(),
                    blocks.take(i as int),
                ),
                self.compression() == old(self).compression(),
                self.scale() == old(self).scale(),
            decreases pgs_blocks@.len() - i,
        {
            let block = &pgs_blocks[i];
            let comp = self.compression.get(&block.track_number);
            let decoded = decode_block_data(block.data.as_slice(), comp);
            let pts: u64 = self.mkv_timestamp_to_pts(block.timestamp);
            self.feed(block.track_number, decoded.as_slice(), pts);
            i += 1;
            proof {
                let some = blocks.take(i as int);
                assert(some.drop_last() =~= blocks.take(i - 1));
                assert(some.last() == block@);
            }
        }
        assert(blocks.take(i as int) =~= blocks);
    }

    /// The display sets of the tracks that have any.
    pub fn into_results(self) -> (r: Vec<(u64, Vec<DisplaySet>)>)
        ensures
            result_views(r@) == results_of(self.states()),
    {
        let ghost all = self.states();
        let mut results: Vec<(u64, Vec<DisplaySet>)> = Vec::new();
        assert(result_views(results@) =~= results_of(all.take(0)));
        for state in it: self.states
            invariant
                all == state_views(it.seq()),
                result_views(results@) == results_of(all.take(it.index() as int)),
        {
            let ghost i = it.index() as int;
            let ghost before = result_views(results@);
            proof {
                assert(all.take(i + 1).drop_last() =~= all.take(i));
                assert(all.take(i + 1).last() == state@);
            }
            let ghost view = state@;
            if state.display_sets.len() > 0 {
                results.push((state.number, state.display_sets));
                assert(result_views(results@) =~= before.push((view.number, view.display_sets)));
            }
        }
        assert(all.take(all.len() as int) =~= all);
        results
    }
}

} // verus!
