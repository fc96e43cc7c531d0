//! The display sets of an extraction that lie in a time range.
use vstd::prelude::*;
use crate::collect::{drained, lemma_next_shrinks, undecided, unread, waiting};
use crate::error::{ErrorView, PgsError};
use crate::extractor::{extraction_next, read_after, ExtractionView, Extractor};
use crate::io::reader::Source;
use crate::range::{is_before, is_behind, judged, without, RangeView, TimeRange, Verdict};
use crate::track::{info_views, PgsTrackInfo, TrackDisplaySet, TrackInfoView, TrackSetView};

verus! {

/// The next outcome of an extraction within a time range, and the extraction and
/// the range after it. Display sets outside the range are passed over, until all
/// tracks have passed its end.
pub open spec fn ranged_next(x: ExtractionView, r: RangeView) -> (
    Option<Result<TrackSetView, ErrorView>>,
    ExtractionView,
    RangeView,
)
    decreases undecided(x), unread(x), waiting(x),
    via ranged_next_decreases
{
    match extraction_next(x) {
        (None, after) => (None, after, r),
        (Some(Err(e)), after) => (Some(Err(e)), after, r),
        (Some(Ok(set)), after) => match judged(r, set.track_id, set.display_set.pts) {
            (Verdict::Keep, s) => (Some(Ok(set)), after, s),
            (Verdict::Skip, s) => ranged_next(after, s),
            (Verdict::Stop, s) => (None, after, s),
        },
    }
}

#[via_fn]
proof fn ranged_next_decreases(x: ExtractionView, r: RangeView) {
    lemma_next_shrinks(x);
}

/// The number of bytes read after the next outcome of an extraction within a time
/// range, with `before` of them read already.
pub open spec fn ranged_read_after(x: ExtractionView, r: RangeView, before: u64) -> u64
    decreases undecided(x), unread(x), waiting(x),
    via ranged_read_after_decreases
{
    match extraction_next(x) {
        (Some(Ok(set)), after) => match judged(r, set.track_id, set.display_set.pts) {
            (Verdict::Skip, s) => ranged_read_after(after, s, read_after(x, before)),
            _ => read_after(x, before),
        },
        _ => read_after(x, before),
    }
}

#[via_fn]
proof fn ranged_read_after_decreases(x: ExtractionView, r: RangeView, before: u64) {
    lemma_next_shrinks(x);
}

/// An extraction within a time range.
pub struct RangedExtractor<R: Source> {
    extractor: Extractor<R>,
    range: TimeRange,
    ended: bool,
}

impl<R: Source> RangedExtractor<R> {
    /// Whether the extraction is in order.
    pub closed spec fn wf(&self) -> bool {
        self.extractor.wf() && (!self.ended ==> !self.extractor.is_done())
    }

    /// The extraction.
    pub closed spec fn extraction(&self) -> ExtractionView {
        self.extractor.extraction()
    }

    /// The time range.
    pub closed spec fn range(&self) -> RangeView {
        self.range@
    }

    /// Whether the extraction has ended.
    pub closed spec fn has_ended(&self) -> bool {
        self.ended
    }

    /// What is known about the extracted tracks.
    pub closed spec fn infos(&self) -> Seq<TrackInfoView> {
        self.extractor.infos()
    }

    /// The number of bytes that have been read.
    pub closed spec fn consumed(&self) -> u64 {
        self.extractor.consumed()
    }

    /// The extraction of an extractor within a time range.
    pub fn new(extractor: Extractor<R>, range: TimeRange) -> (r: Self)
        requires
            extractor.wf(),
        ensures
            r.wf(),
            r.extraction() == extractor.extraction(),
            r.range() == range@,
            r.has_ended() == extractor.is_done(),
            r.infos() == extractor.infos(),
            r.consumed() == extractor.consumed(),
    {
        let ended = extractor.has_ended();
        RangedExtractor { extractor, range, ended }
    }

    /// What is known about the extracted tracks.
    pub fn tracks(&self) -> (r: &[PgsTrackInfo])
        ensures
            info_views(r@) == self.infos(),
    {
        self.extractor.tracks()
    }

    /// Goes on to the next display set in the range. Returns `None` at the end
    /// and after an error.
    pub fn next(&mut self) -> (r: Option<Result<TrackDisplaySet, PgsError>>)
        requires
            old(self).wf(),
        ensures
            final(self).wf(),
            final(self).infos() == old(self).infos(),
            old(self).has_ended() ==> r is None && *final(self) == *old(self),
            !old(self).has_ended() ==> final(self).consumed() == ranged_read_after(
                old(self).extraction(),
                old(self).range(),
                old(self).consumed(),
            ),
            !old(self).has_ended() ==> {
                let (outcome, after, range) = ranged_next(old(self).extraction(), old(self).range());
                match (r, outcome) {
                    (Some(Ok(tds)), Some(Ok(v))) => {
                        &&& tds@ == v
                        &&& !final(self).has_ended()
                        &&& final(self).extraction() == after
                        &&& final(self).range() == range
                    },
                    (Some(Err(e)), Some(Err(v))) => e@ == v && final(self).has_ended(),
                    (None, None) => final(self).has_ended(),
                    _ => false,
                }
            },
    {
        if self.ended {
            return None;
        }
        let ghost goal = ranged_next(self.extraction(), self.range());
        let ghost total = ranged_read_after(self.extraction(), self.range(), self.consumed());
        loop
            invariant
                self.wf(),
                !self.ended,
                !old(self).has_ended(),
                self.infos() == old(self).infos(),
                total == ranged_read_after(
                    old(self).extraction(),
                    old(self).range(),
                    old(self).consumed(),
                ),
                total == ranged_read_after(self.extraction(), self.range(), self.consumed()),
                goal == ranged_next(old(self).extraction(), old(self).range()),
                goal == ranged_next(self.extraction(), self.range()),
            decreases
                undecided(self.extraction()),
                unread(self.extraction()),
                waiting(self.extraction()),
        {
            proof {
                lemma_next_shrinks(self.extraction());
            }
            match self.extractor.next() {
                Some(Ok(set)) => match self.range.judge(set.track_id, set.display_set.pts) {
                    Verdict::Keep => {
                        return Some(Ok(set));
                    },
                    Verdict::Skip => {},
                    Verdict::Stop => {
                        self.ended = true;
                        return None;
                    },
                },
                Some(Err(e)) => {
                    self.ended = true;
                    return Some(Err(e));
                },
                None => {
                    self.ended = true;
                    return None;
                },
            }
        }
    }
}

/// All display sets that an extraction within a time range gives, or the error
/// that ends it.
pub open spec fn ranged_all(x: ExtractionView, r: RangeView) -> Result<Seq<TrackSetView>, ErrorView>
    decreases undecided(x), unread(x), waiting(x),
    via ranged_all_decreases
{
    match extraction_next(x) {
        (None, _) => Ok(Seq::empty()),
        (Some(Err(e)), _) => Err(e),
        (Some(Ok(set)), after) => match judged(r, set.track_id, set.display_set.pts) {
            (Verdict::Keep, s) => match ranged_all(after, s) {
                Ok(rest) => Ok(seq![set] + rest),
                Err(e) => Err(e),
            },
            (Verdict::Skip, s) => ranged_all(after, s),
            (Verdict::Stop, _) => Ok(Seq::empty()),
        },
    }
}

#[via_fn]
proof fn ranged_all_decreases(x: ExtractionView, r: RangeView) {
    lemma_next_shrinks(x);
}

/// Whether a display set lies in a range.
pub open spec fn in_range(r: RangeView, set: TrackSetView) -> bool {
    !is_before(r, set.display_set.pts) && !is_behind(r, set.display_set.pts)
}

/// The display sets that lie in a range.
pub open spec fn sets_in_range(sets: Seq<TrackSetView>, r: RangeView) -> Seq<TrackSetView>
    decreases sets.len(),
{
    if sets.len() == 0 {
        Seq::empty()
    } else if in_range(r, sets[0]) {
        seq![sets[0]] + sets_in_range(sets.skip(1), r)
    } else {
        sets_in_range(sets.skip(1), r)
    }
}

/// Whether the timestamps of no track go back.
pub open spec fn tracks_ascend(sets: Seq<TrackSetView>) -> bool {
    forall|i: int, j: int|
        0 <= i < j < sets.len() && (#[trigger] sets[i]).track_id == (
        #[trigger] sets[j]).track_id ==> sets[i].display_set.pts <= sets[j].display_set.pts
}

/// Whether every display set is of a track that has not passed the end of a
/// range, or lies behind it.
pub open spec fn passed_rightly(sets: Seq<TrackSetView>, r: RangeView) -> bool {
    forall|i: int|
        0 <= i < sets.len() ==> r.waiting.contains((#[trigger] sets[i]).track_id) || is_behind(
            r,
            sets[i].display_set.pts,
        )
}

proof fn lemma_without(ids: Seq<u32>, id: u32, other: u32)
    ensures
        without(ids, id).contains(other) <==> ids.contains(other) && other != id,
    decreases ids.len(),
{
    let all = without(ids, id);
    if ids.len() > 0 {
        let last = ids.last();
        let before = without(ids.drop_last(), id);
        lemma_without(ids.drop_last(), id, other);
        assert(ids.contains(other) <==> ids.drop_last().contains(other) || last == other) by {
            if ids.contains(other) {
                let i = choose|i: int| 0 <= i < ids.len() && ids[i] == other;
                if i < ids.len() - 1 {
                    assert(ids.drop_last()[i] == other);
                }
            }
            if ids.drop_last().contains(other) {
                let i = choose|i: int| 0 <= i < ids.len() - 1 && ids.drop_last()[i] == other;
                assert(ids[i] == other);
            }
            assert(ids[ids.len() - 1] == last);
        }
        if last != id {
            assert(all == before.push(last));
            assert(all.contains(other) <==> before.contains(other) || last == other) by {
                if before.contains(other) {
                    let i = choose|i: int| 0 <= i < before.len() && before[i] == other;
                    assert(all[i] == other);
                }
                assert(all[all.len() - 1] == last);
            }
        }
    }
}

proof fn lemma_none_in_range(sets: Seq<TrackSetView>, r: RangeView)
    requires
        passed_rightly(sets, r),
        r.waiting.len() == 0,
    ensures
        sets_in_range(sets, r) == Seq::<TrackSetView>::empty(),
    decreases sets.len(),
{
    if sets.len() > 0 {
        assert(is_behind(r, sets[0].display_set.pts));
        assert forall|i: int| 0 <= i < sets.skip(1).len() implies r.waiting.contains(
            (#[trigger] sets.skip(1)[i]).track_id,
        ) || is_behind(r, sets.skip(1)[i].display_set.pts) by {
            assert(sets.skip(1)[i] == sets[i + 1]);
        }
        lemma_none_in_range(sets.skip(1), r);
    }
}

proof fn lemma_same_range(sets: Seq<TrackSetView>, r: RangeView, s: RangeView)
    requires
        r.start == s.start,
        r.end == s.end,
    ensures
        sets_in_range(sets, r) == sets_in_range(sets, s),
    decreases sets.len(),
{
    if sets.len() > 0 {
        lemma_same_range(sets.skip(1), r, s);
    }
}

/// What one display set leaves to be shown of the others.
proof fn lemma_rest(sets: Seq<TrackSetView>, r: RangeView)
    requires
        sets.len() > 0,
        tracks_ascend(sets),
        passed_rightly(sets, r),
    ensures
        tracks_ascend(sets.skip(1)),
        passed_rightly(sets.skip(1), judged(r, sets[0].track_id, sets[0].display_set.pts).1),
{
    let rest = sets.skip(1);
    let first = sets[0];
    let s = judged(r, first.track_id, first.display_set.pts).1;
    assert forall|i: int, j: int|
        0 <= i < j < rest.len() && (#[trigger] rest[i]).track_id == (
        #[trigger] rest[j]).track_id implies rest[i].display_set.pts
        <= rest[j].display_set.pts by {
        assert(rest[i] == sets[i + 1] && rest[j] == sets[j + 1]);
    }
    assert forall|i: int| 0 <= i < rest.len() implies s.waiting.contains(
        (#[trigger] rest[i]).track_id,
    ) || is_behind(s, rest[i].display_set.pts) by {
        let set = rest[i];
        assert(set == sets[i + 1]);
        if is_behind(r, first.display_set.pts) {
            lemma_without(r.waiting, first.track_id, set.track_id);
            if set.track_id == first.track_id {
                assert(sets[0].display_set.pts <= sets[i + 1].display_set.pts);
            }
        }
    }
}

/// Where the timestamps of no track go back, an extraction within a time range
/// gives exactly the display sets that lie in it.
pub proof fn range_loses_nothing(x: ExtractionView, r: RangeView, sets: Seq<TrackSetView>)
    requires
        drained(x) == Ok::<Seq<TrackSetView>, ErrorView>(sets),
        tracks_ascend(sets),
        passed_rightly(sets, r),
    ensures
        ranged_all(x, r) == Ok::<Seq<TrackSetView>, ErrorView>(sets_in_range(sets, r)),
    decreases undecided(x), unread(x), waiting(x),
{
    lemma_next_shrinks(x);
    if let (Some(Ok(set)), after) = extraction_next(x) {
        let rest = drained(after)->Ok_0;
        assert(sets == seq![set] + rest);
        assert(sets.skip(1) =~= rest);
        assert(sets[0] == set);
        let (verdict, s) = judged(r, set.track_id, set.display_set.pts);
        lemma_rest(sets, r);
        lemma_same_range(rest, r, s);
        if verdict is Stop {
            lemma_none_in_range(rest, s);
        } else {
            range_loses_nothing(after, s, rest);
        }
    }
}

/// An extraction within a time range gives only display sets that lie in it.
pub proof fn given_sets_lie_in_range(x: ExtractionView, r: RangeView)
    ensures
        ranged_all(x, r) matches Ok(sets) ==> forall|i: int|
            0 <= i < sets.len() ==> in_range(r, #[trigger] sets[i]),
    decreases undecided(x), unread(x), waiting(x),
{
    lemma_next_shrinks(x);
    if let (Some(Ok(set)), after) = extraction_next(x) {
        let (verdict, s) = judged(r, set.track_id, set.display_set.pts);
        if !(verdict is Stop) {
            given_sets_lie_in_range(after, s);
            if let Ok(rest) = ranged_all(after, s) {
                if verdict is Keep {
                    let all = seq![set] + rest;
                    assert forall|i: int| 0 <= i < all.len() implies in_range(
                        r,
                        #[trigger] all[i],
                    ) by {
                        if i > 0 {
                            assert(all[i] == rest[i - 1]);
                        }
                    }
                }
            }
        }
    }
}

} // verus!
