//! Which display sets lie in a time range, and when no more are to come.
use vstd::prelude::*;

verus! {

/// What is to be done with a display set.
#[derive(Debug, Clone, Copy, PartialEq, Eq, Structural)]
pub enum Verdict {
    /// It lies in the range.
    Keep,
    /// It lies outside the range.
    Skip,
    /// It lies behind the range, as now do all tracks.
    Stop,
}

/// A time range in 90 kHz ticks, and the tracks that have not passed its end.
pub struct TimeRange {
    start: Option<u64>,
    end: Option<u64>,
    waiting: Vec<u32>,
}

/// A time range as a mathematical value.
#[verifier::ext_equal]
pub struct RangeView {
    pub start: Option<u64>,
    pub end: Option<u64>,
    pub waiting: Seq<u32>,
}

impl View for TimeRange {
    type V = RangeView;

    closed spec fn view(&self) -> RangeView {
        RangeView { start: self.start, end: self.end, waiting: self.waiting@ }
    }
}

/// Whether a timestamp lies in front of a range.
pub open spec fn is_before(r: RangeView, pts: u64) -> bool {
    r.start matches Some(start) && pts < start
}

/// Whether a timestamp lies behind a range.
pub open spec fn is_behind(r: RangeView, pts: u64) -> bool {
    r.end matches Some(end) && pts > end
}

/// The identifiers without one of them.
pub open spec fn without(ids: Seq<u32>, id: u32) -> Seq<u32>
    decreases ids.len(),
{
    if ids.len() == 0 {
        Seq::empty()
    } else if ids.last() == id {
        without(ids.drop_last(), id)
    } else {
        without(ids.drop_last(), id).push(ids.last())
    }
}

/// What is to be done with a display set of a track, and the range after it.
pub open spec fn judged(r: RangeView, id: u32, pts: u64) -> (Verdict, RangeView) {
    if is_behind(r, pts) {
        let waiting = without(r.waiting, id);
        (
            if waiting.len() == 0 {
                Verdict::Stop
            } else {
                Verdict::Skip
            },
            RangeView { waiting, ..r },
        )
    } else if is_before(r, pts) {
        (Verdict::Skip, r)
    } else {
        (Verdict::Keep, r)
    }
}

impl TimeRange {
    /// The range from `start` to `end`, both included, for display sets of the
    /// given tracks.
    pub fn new(start: Option<u64>, end: Option<u64>, track_ids: &[u32]) -> (r: Self)
        ensures
            r@ == (RangeView { start, end, waiting: track_ids@ }),
    {
        let mut waiting: Vec<u32> = Vec::new();
        let mut i: usize = 0;
        while i < track_ids.len()
            invariant
                i <= track_ids@.len(),
                waiting@ == track_ids@.take(i as int),
            decreases track_ids@.len() - i,
        {
            waiting.push(track_ids[i]);
            i += 1;
            assert(waiting@ =~= track_ids@.take(i as int));
        }
        assert(waiting@ =~= track_ids@);
        TimeRange { start, end, waiting }
    }

    /// What is to be done with the next display set, of a track and with a
    /// timestamp.
    pub fn judge(&mut self, track_id: u32, pts: u64) -> (r: Verdict)
        ensures
            (r, final(self)@) == judged(old(self)@, track_id, pts),
    {
        if let Some(end) = self.end {
            if pts > end {
                let mut kept: Vec<u32> = Vec::new();
                let mut i: usize = 0;
                assert(self.waiting@.take(0) =~= Seq::empty());
                while i < self.waiting.len()
                    invariant
                        i <= self.waiting@.len(),
                        self@ == old(self)@,
                        self.waiting@ == old(self)@.waiting,
                        kept@ == without(self.waiting@.take(i as int), track_id),
                    decreases self.waiting@.len() - i,
                {
                    assert(self.waiting@.take(i + 1).drop_last() =~= self.waiting@.take(i as int));
                    if self.waiting[i] != track_id {
                        kept.push(self.waiting[i]);
                    }
                    i += 1;
                }
                assert(self.waiting@.take(i as int) =~= self.waiting@);
                self.waiting = kept;
                return if self.waiting.len() == 0 {
                    Verdict::Stop
                } else {
                    Verdict::Skip
                };
            }
        }
        if let Some(start) = self.start {
            if pts < start {
                return Verdict::Skip;
            }
        }
        Verdict::Keep
    }
}

/// A display set is kept exactly if its timestamp lies in the range.
pub proof fn kept_exactly_in_range(r: RangeView, id: u32, pts: u64)
    ensures
        judged(r, id, pts).0 == Verdict::Keep <==> !is_before(r, pts) && !is_behind(r, pts),
        judged(r, id, pts).1.start == r.start,
        judged(r, id, pts).1.end == r.end,
{
}

} // verus!
