//! Encoded display sets, grouped by track.
use vstd::prelude::*;
use crate::mkv::decode::set_views;
use crate::pgs::display_set::{DisplaySet, DisplaySetView};

verus! {

/// Display sets grouped by track, the tracks in the order in which they first
/// appear.
pub struct EncodedTracks {
    groups: Vec<(u64, Vec<DisplaySet>)>,
}

/// The display sets of tracks.
pub type Groups = Seq<(u64, Seq<DisplaySetView>)>;

/// The position of the first group of a track, from position `i` on.
pub open spec fn group_of(groups: Groups, id: u64, i: int) -> Option<int>
    decreases groups.len() - i,
{
    if !(0 <= i < groups.len()) {
        None
    } else if groups[i].0 == id {
        Some(i)
    } else {
        group_of(groups, id, i + 1)
    }
}

/// The groups, with one more display set of a track.
pub open spec fn with_set(groups: Groups, id: u64, ds: DisplaySetView) -> Groups {
    match group_of(groups, id, 0) {
        Some(i) => groups.update(i, (id, groups[i].1.push(ds))),
        None => groups.push((id, seq![ds])),
    }
}

/// The display sets of a track.
pub open spec fn sets_of(groups: Groups, id: u64) -> Seq<DisplaySetView> {
    match group_of(groups, id, 0) {
        Some(i) => groups[i].1,
        None => Seq::empty(),
    }
}

impl View for EncodedTracks {
    type V = Groups;

    closed spec fn view(&self) -> Groups {
        Seq::new(self.groups@.len(), |i: int| (self.groups@[i].0, set_views(self.groups@[i].1@)))
    }
}

impl EncodedTracks {
    /// No display sets.
    pub fn new() -> (r: Self)
        ensures
            r@ == Groups::empty(),
    {
        let r = EncodedTracks { groups: Vec::new() };
        assert(r@ =~= Groups::empty());
        r
    }

    fn find(&self, id: u64) -> (r: Option<usize>)
        ensures
            match (r, group_of(self@, id, 0)) {
                (Some(i), Some(k)) => i == k && i < self.groups@.len(),
                (None, None) => true,
                _ => false,
            },
    {
        let mut i: usize = 0;
        while i < self.groups.len()
            invariant
                i <= self.groups@.len(),
                group_of(self@, id, 0) == group_of(self@, id, i as int),
            decreases self.groups@.len() - i,
        {
            if self.groups[i].0 == id {
                return Some(i);
            }
            i += 1;
        }
        None
    }

    /// Adds a display set of a track.
    pub fn push(&mut self, track_id: u64, ds: DisplaySet)
        ensures
            final(self)@ == with_set(old(self)@, track_id, ds@),
    {
        match self.find(track_id) {
            Some(i) => {
                self.groups[i].1.push(ds);
                proof {
                    assert(set_views(self.groups@[i as int].1@) =~= old(self)@[i as int].1.push(
                        ds@,
                    ));
                    lemma_group_of(old(self)@, track_id, 0);
                    assert(self@ =~= with_set(old(self)@, track_id, ds@));
                }
            },
            None => {
                let mut sets: Vec<DisplaySet> = Vec::new();
                sets.push(ds);
                assert(set_views(sets@) =~= seq![ds@]);
                self.groups.push((track_id, sets));
                assert(self@ =~= with_set(old(self)@, track_id, ds@));
            },
        }
    }

    /// The number of tracks.
    pub fn len(&self) -> (r: usize)
        ensures
            r == self@.len(),
    {
        self.groups.len()
    }

    /// The track at a position.
    pub fn track_id(&self, i: usize) -> (r: u64)
        requires
            i < self@.len(),
        ensures
            r == self@[i as int].0,
    {
        self.groups[i].0
    }

    /// The display sets of the track at a position.
    pub fn display_sets(&self, i: usize) -> (r: &[DisplaySet])
        requires
            i < self@.len(),
        ensures
            set_views(r@) == self@[i as int].1,
    {
        self.groups[i].1.as_slice()
    }
}

proof fn lemma_group_of(groups: Groups, id: u64, i: int)
    requires
        0 <= i,
    ensures
        group_of(groups, id, i) matches Some(k) ==> i <= k < groups.len() && groups[k].0 == id && (
        forall|j: int| i <= j < k ==> (#[trigger] groups[j]).0 != id),
        group_of(groups, id, i) is None ==> forall|j: int|
            i <= j < groups.len() ==> (#[trigger] groups[j]).0 != id,
    decreases groups.len() - i,
{
    if i < groups.len() && groups[i].0 != id {
        lemma_group_of(groups, id, i + 1);
    }
}

proof fn lemma_group_at(groups: Groups, id: u64, i: int, k: int)
    requires
        0 <= i <= k < groups.len(),
        groups[k].0 == id,
        forall|j: int| i <= j < k ==> (#[trigger] groups[j]).0 != id,
    ensures
        group_of(groups, id, i) == Some(k),
    decreases k - i,
{
    if i < k {
        assert(groups[i].0 != id);
        lemma_group_at(groups, id, i + 1, k);
    }
}

proof fn lemma_group_missing(groups: Groups, id: u64, i: int)
    requires
        0 <= i,
        forall|j: int| i <= j < groups.len() ==> (#[trigger] groups[j]).0 != id,
    ensures
        group_of(groups, id, i) is None,
    decreases groups.len() - i,
{
    if i < groups.len() {
        assert(groups[i].0 != id);
        lemma_group_missing(groups, id, i + 1);
    }
}

/// A display set is added behind those of its track, and those of other tracks
/// stay what they are.
pub proof fn push_keeps_other_tracks(groups: Groups, id: u64, ds: DisplaySetView, other: u64)
    ensures
        sets_of(with_set(groups, id, ds), id) == sets_of(groups, id).push(ds),
        other != id ==> sets_of(with_set(groups, id, ds), other) == sets_of(groups, other),
{
    let after = with_set(groups, id, ds);
    lemma_group_of(groups, id, 0);
    lemma_group_of(groups, other, 0);
    match group_of(groups, id, 0) {
        Some(i) => {
            lemma_group_at(after, id, 0, i);
            if other != id {
                match group_of(groups, other, 0) {
                    Some(k) => {
                        lemma_group_at(after, other, 0, k);
                    },
                    None => {
                        lemma_group_missing(after, other, 0);
                    },
                }
            }
        },
        None => {
            lemma_group_at(after, id, 0, groups.len() as int);
            assert(seq![ds] =~= Seq::empty().push(ds));
            if other != id {
                match group_of(groups, other, 0) {
                    Some(k) => {
                        lemma_group_at(after, other, 0, k);
                    },
                    None => {
                        lemma_group_missing(after, other, 0);
                    },
                }
            }
        },
    }
}

/// The groups of display sets, from none.
pub open spec fn grouped(sets: Seq<(u64, DisplaySetView)>) -> Groups
    decreases sets.len(),
{
    if sets.len() == 0 {
        Seq::empty()
    } else {
        with_set(grouped(sets.drop_last()), sets.last().0, sets.last().1)
    }
}

/// The display sets of one track among others, in order.
pub open spec fn sets_with_id(sets: Seq<(u64, DisplaySetView)>, id: u64) -> Seq<DisplaySetView>
    decreases sets.len(),
{
    if sets.len() == 0 {
        Seq::empty()
    } else if sets.last().0 == id {
        sets_with_id(sets.drop_last(), id).push(sets.last().1)
    } else {
        sets_with_id(sets.drop_last(), id)
    }
}

/// Grouping keeps all display sets of every track, in order.
pub proof fn grouping_keeps_tracks(sets: Seq<(u64, DisplaySetView)>, id: u64)
    ensures
        sets_of(grouped(sets), id) == sets_with_id(sets, id),
    decreases sets.len(),
{
    if sets.len() > 0 {
        grouping_keeps_tracks(sets.drop_last(), id);
        push_keeps_other_tracks(grouped(sets.drop_last()), sets.last().0, sets.last().1, id);
    }
}

/// No track has two groups.
pub proof fn tracks_are_distinct(sets: Seq<(u64, DisplaySetView)>)
    ensures
        forall|i: int, j: int|
            0 <= i < j < grouped(sets).len() ==> (#[trigger] grouped(sets)[i]).0 != (
            #[trigger] grouped(sets)[j]).0,
    decreases sets.len(),
{
    if sets.len() > 0 {
        tracks_are_distinct(sets.drop_last());
        lemma_group_of(grouped(sets.drop_last()), sets.last().0, 0);
    }
}

} // verus!
