//! The lines of a stream of display sets.
use vstd::prelude::*;
use crate::ndjson::json::rendered;
use crate::ndjson::lines::{display_set_line, display_set_tree};
use crate::track::{TrackDisplaySet, TrackSetView};
use std::collections::HashMap;

verus! {

broadcast use vstd::std_specs::hash::group_hash_axioms;

/// Numbers the display sets of each track and describes them, one per line.
pub struct NdjsonStream {
    counts: HashMap<u32, u64>,
    raw_payloads: bool,
}

/// The number of display sets that a track has had.
pub open spec fn count_of(counts: Map<u32, u64>, id: u32) -> u64 {
    if counts.dom().contains(id) {
        counts[id]
    } else {
        0
    }
}

/// The counts, with one more display set of a track.
pub open spec fn one_more(counts: Map<u32, u64>, id: u32) -> Map<u32, u64> {
    counts.insert(id, (count_of(counts, id) + 1) as u64)
}

impl NdjsonStream {
    /// The number of display sets that each track has had.
    pub closed spec fn counts(&self) -> Map<u32, u64> {
        self.counts@
    }

    /// Whether the lines hold the payloads of the segments.
    pub closed spec fn raw(&self) -> bool {
        self.raw_payloads
    }

    /// A stream that has described no display set.
    pub fn new(raw_payloads: bool) -> (r: Self)
        ensures
            r.counts() == Map::<u32, u64>::empty(),
            r.raw() == raw_payloads,
    {
        NdjsonStream { counts: HashMap::new(), raw_payloads }
    }

    /// The number of display sets that a track has had.
    pub fn described(&self, track_id: u32) -> (r: u64)
        ensures
            r == count_of(self.counts(), track_id),
    {
        match self.counts.get(&track_id) {
            Some(n) => *n,
            None => 0,
        }
    }

    /// The line that describes the next display set. It is numbered from 0
    /// within its track.
    pub fn line(&mut self, set: &TrackDisplaySet) -> (r: String)
        requires
            count_of(old(self).counts(), set.track_id) < u64::MAX,
        ensures
            r@ == rendered(
                display_set_tree(
                    set.track_id,
                    count_of(old(self).counts(), set.track_id),
                    set.display_set@,
                    old(self).raw(),
                ),
            ),
            final(self).counts() == one_more(old(self).counts(), set.track_id),
            final(self).raw() == old(self).raw(),
    {
        let index: u64 = self.described(set.track_id);
        self.counts.insert(set.track_id, index + 1);
        display_set_line(set.track_id, index, &set.display_set, self.raw_payloads)
    }
}

/// The counts after display sets, from none.
pub open spec fn counts_after(sets: Seq<TrackSetView>) -> Map<u32, u64>
    decreases sets.len(),
{
    if sets.len() == 0 {
        Map::empty()
    } else {
        one_more(counts_after(sets.drop_last()), sets.last().track_id)
    }
}

/// A display set's number is the number of display sets of its track before it.
pub proof fn numbers_count_within_track(sets: Seq<TrackSetView>, id: u32)
    requires
        sets.len() <= u64::MAX,
    ensures
        count_of(counts_after(sets), id) == sets.filter(|s: TrackSetView| s.track_id == id).len(),
    decreases sets.len(),
{
    reveal(Seq::filter);
    if sets.len() > 0 {
        numbers_count_within_track(sets.drop_last(), id);
        numbers_count_within_track(sets.drop_last(), sets.last().track_id);
        sets.drop_last().lemma_filter_len(|s: TrackSetView| s.track_id == id);
    }
}

} // verus!
