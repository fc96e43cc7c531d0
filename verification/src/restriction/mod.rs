//! A filter leaves out other tracks and, where a file is read in file order,
//! nothing else.
use vstd::prelude::*;
use crate::collect::{after_sets, drained};
use crate::error::ErrorView;
use crate::extractor::{fresh_extraction, FileView};
use crate::filtering::extraction_keeps_to_tracks;
use crate::m2ts::stream::M2tsConfig;
use crate::restriction::matroska::filter_loses_nothing_in_file_order;
use crate::restriction::transport::filter_loses_nothing_of_transport_streams;
use crate::track::{MkvStrategy, TrackSetView};

pub mod indexed;
pub mod matroska;
pub mod transport;

verus! {

/// The display sets of the given tracks.
pub open spec fn of_tracks(sets: Seq<TrackSetView>, ids: Seq<u32>) -> Seq<TrackSetView>
    decreases sets.len(),
{
    if sets.len() == 0 {
        Seq::empty()
    } else if ids.contains(sets.last().track_id) {
        of_tracks(sets.drop_last(), ids).push(sets.last())
    } else {
        of_tracks(sets.drop_last(), ids)
    }
}

/// What an extraction gives, restricted to the given tracks.
pub open spec fn restricted(r: Result<Seq<TrackSetView>, ErrorView>, ids: Seq<u32>) -> Result<
    Seq<TrackSetView>,
    ErrorView,
> {
    match r {
        Ok(sets) => Ok(of_tracks(sets, ids)),
        Err(e) => Err(e),
    }
}

pub(crate) proof fn lemma_of_tracks_append(
    a: Seq<TrackSetView>,
    b: Seq<TrackSetView>,
    ids: Seq<u32>,
)
    ensures
        of_tracks(a + b, ids) == of_tracks(a, ids) + of_tracks(b, ids),
    decreases b.len(),
{
    if b.len() == 0 {
        assert(a + b =~= a);
        assert(of_tracks(a, ids) + of_tracks(b, ids) =~= of_tracks(a, ids));
    } else {
        lemma_of_tracks_append(a, b.drop_last(), ids);
        assert((a + b).drop_last() =~= a + b.drop_last());
        assert(of_tracks(a + b, ids) =~= of_tracks(a, ids) + of_tracks(b, ids));
    }
}

/// Display sets of one track are all kept or all left out.
pub(crate) proof fn lemma_one_track(sets: Seq<TrackSetView>, id: u32, ids: Seq<u32>)
    requires
        forall|i: int| 0 <= i < sets.len() ==> (#[trigger] sets[i]).track_id == id,
    ensures
        ids.contains(id) ==> of_tracks(sets, ids) == sets,
        !ids.contains(id) ==> of_tracks(sets, ids) == Seq::<TrackSetView>::empty(),
    decreases sets.len(),
{
    if sets.len() > 0 {
        assert(sets[sets.len() - 1].track_id == id);
        assert forall|i: int| 0 <= i < sets.drop_last().len() implies (
        #[trigger] sets.drop_last()[i]).track_id == id by {
            assert(sets.drop_last()[i] == sets[i]);
        }
        lemma_one_track(sets.drop_last(), id, ids);
        assert(sets.drop_last().push(sets.last()) =~= sets);
    } else {
        assert(of_tracks(sets, ids) =~= sets);
    }
}

/// Putting display sets in front twice is putting them in front joined.
pub(crate) proof fn lemma_after_twice(
    a: Seq<TrackSetView>,
    b: Seq<TrackSetView>,
    rest: Result<Seq<TrackSetView>, ErrorView>,
)
    ensures
        after_sets(a, after_sets(b, rest)) == after_sets(a + b, rest),
{
    if let Ok(r) = rest {
        assert(a + (b + r) =~= (a + b) + r);
    }
}

pub(crate) proof fn lemma_after_none(rest: Result<Seq<TrackSetView>, ErrorView>)
    ensures
        after_sets(Seq::empty(), rest) == rest,
{
    if let Ok(r) = rest {
        assert(Seq::<TrackSetView>::empty() + r =~= r);
    }
}

/// Whether two extractions are alike: both fail, or one gives the display sets
/// of the given tracks among those that the other gives.
pub open spec fn sets_alike(
    all: Result<Seq<TrackSetView>, ErrorView>,
    some: Result<Seq<TrackSetView>, ErrorView>,
    ids: Seq<u32>,
) -> bool {
    match (all, some) {
        (Ok(v), Ok(w)) => w == of_tracks(v, ids),
        (Err(_), Err(_)) => true,
        _ => false,
    }
}

/// Filtering an extraction leaves out the display sets of other tracks and
/// nothing else. It fails where the extraction of all tracks fails.
///
/// A Matroska file is read in file order, as it is without an index. A raw PGS
/// file, whose one track has the identifier 0, is read if the filter names it.
pub proof fn filter_leaves_out_other_tracks_only(
    s: Seq<u8>,
    file: FileView,
    ids: Seq<u32>,
    strategy: MkvStrategy,
)
    requires
        file matches FileView::Mkv(m) ==> strategy is Sequential || m.cue_points is None,
        file is Sup ==> ids.contains(0),
    ensures
        sets_alike(
            drained(fresh_extraction(s, file, None, strategy)),
            drained(fresh_extraction(s, file, Some(ids), strategy)),
            ids,
        ),
{
    match file {
        FileView::Mkv(m) => {
            filter_loses_nothing_in_file_order(s, m, ids, strategy);
        },
        FileView::M2ts(m, start, container) => {
            filter_loses_nothing_of_transport_streams(
                M2tsConfig { bytes: s, format: m.format, container, end: m.file_size as int },
                start as int,
                m.pgs_pids,
                m.tracks,
                ids,
            );
        },
        FileView::Sup => {
            let x = fresh_extraction(s, file, None, strategy);
            let zero = seq![0u32];
            assert(zero[0] == 0);
            assert(zero.contains(0));
            extraction_keeps_to_tracks(x, zero);
            if let Ok(sets) = drained(x) {
                assert forall|i: int| 0 <= i < sets.len() implies (#[trigger] sets[i]).track_id
                    == 0 by {
                    assert(zero.contains(sets[i].track_id));
                }
                lemma_one_track(sets, 0, ids);
            }
        },
    }
}

} // verus!
