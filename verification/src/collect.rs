//! All display sets of a file.
use vstd::prelude::*;
use crate::error::{ErrorView, PgsError};
use crate::extractor::{
    extraction_next, file_infos, file_of, fresh_extraction, open_reads, read_after, sets_with_id,
    ExtractionView, Extractor,
};
use crate::io::reader::{counted, Source};
use crate::m2ts::clpi::language_map_view;
use crate::m2ts::stream::{
    finished, lemma_scanned, m2ts_next, scanned, M2tsConfig, M2tsProgress,
};
use crate::mkv::decode::set_views;
use crate::mkv::stream::{
    advanced, first_source, lemma_advanced, mkv_next, source_measure, MkvConfig, MkvProgress,
};
use crate::pgs::display_set::{DisplaySet, DisplaySetView};
use crate::sup::write::lemma_next_advances;
use crate::track::{
    info_views, track_set_views, track_sets_views, ExtractionStats, MkvStrategy, PgsTrackInfo,
    TrackDisplaySet, TrackDisplaySets, TrackInfoView, TrackSetView, TrackSetsView,
};
use std::collections::HashMap;

verus! {

/// Whether an extraction has not yet decided where blocks come from.
pub open spec fn undecided(x: ExtractionView) -> int {
    match x {
        ExtractionView::Mkv(_, p) => if p.source is Uninitialized {
            1
        } else {
            0
        },
        _ => 0,
    }
}

/// How much of the file an extraction has still to read.
pub open spec fn unread(x: ExtractionView) -> int {
    match x {
        ExtractionView::Mkv(c, p) => source_measure(c, p.source),
        ExtractionView::M2ts(c, p) => m2ts_unread(c, p),
        ExtractionView::Sup { bytes, pos, .. } => if pos < bytes.len() {
            bytes.len() - pos
        } else {
            0
        },
    }
}

/// How much of a transport stream an extraction has still to read.
pub open spec fn m2ts_unread(c: M2tsConfig, p: M2tsProgress) -> int {
    if p.flushed {
        0
    } else if p.pos < c.end {
        c.end - p.pos + 1
    } else {
        1
    }
}

/// How many display sets wait to be handed out.
pub open spec fn waiting(x: ExtractionView) -> nat {
    match x {
        ExtractionView::Mkv(_, p) => p.pending.len(),
        ExtractionView::M2ts(_, p) => p.pending.len(),
        ExtractionView::Sup { .. } => 0,
    }
}

/// All display sets that an extraction still gives, or the error that ends it.
pub open spec fn drained(x: ExtractionView) -> Result<Seq<TrackSetView>, ErrorView>
    decreases undecided(x), unread(x), waiting(x),
    via drained_decreases
{
    match extraction_next(x) {
        (None, _) => Ok(Seq::empty()),
        (Some(Err(e)), _) => Err(e),
        (Some(Ok(set)), after) => match drained(after) {
            Ok(rest) => Ok(seq![set] + rest),
            Err(e) => Err(e),
        },
    }
}

#[via_fn]
proof fn drained_decreases(x: ExtractionView) {
    lemma_next_shrinks(x);
}

proof fn lemma_mkv_shrinks(c: MkvConfig, p: MkvProgress)
    requires
        !(p.source is Uninitialized),
    ensures
        mkv_next(c, p).0 matches Some(Ok(_)) ==> {
            let after = mkv_next(c, p).1;
            &&& !(after.source is Uninitialized)
            &&& 0 <= source_measure(c, after.source) <= source_measure(c, p.source)
            &&& source_measure(c, after.source) == source_measure(c, p.source) ==> after.pending.len()
                < p.pending.len()
        },
    decreases source_measure(c, p.source),
{
    if p.pending.len() == 0 {
        match advanced(c, p) {
            Ok(Some(next)) => {
                lemma_advanced(c, p);
                lemma_mkv_shrinks(c, next);
            },
            _ => {},
        }
    }
}

proof fn lemma_m2ts_shrinks(c: M2tsConfig, p: M2tsProgress)
    ensures
        m2ts_next(c, p).0 matches Some(Ok(_)) ==> {
            let after = m2ts_next(c, p).1;
            &&& 0 <= m2ts_unread(c, after) <= m2ts_unread(c, p)
            &&& m2ts_unread(c, after) == m2ts_unread(c, p) ==> after.pending.len()
                < p.pending.len()
        },
    decreases m2ts_unread(c, p),
{
    if p.pending.len() == 0 && !p.flushed {
        if p.pos < 0 || p.pos >= c.end {
            lemma_m2ts_shrinks(c, finished(c, p));
        } else {
            lemma_scanned(c, p);
            match scanned(c, p) {
                Ok(next) => {
                    lemma_m2ts_shrinks(c, next);
                },
                Err(_) => {},
            }
        }
    }
}

pub(crate) proof fn lemma_next_shrinks(x: ExtractionView)
    ensures
        extraction_next(x).0 matches Some(Ok(_)) ==> {
            let after = extraction_next(x).1;
            &&& 0 <= undecided(after) <= undecided(x)
            &&& undecided(after) == undecided(x) ==> 0 <= unread(after) <= unread(x)
            &&& undecided(after) == undecided(x) && unread(after) == unread(x) ==> waiting(after)
                < waiting(x)
            &&& 0 <= unread(after)
        },
{
    match x {
        ExtractionView::Mkv(c, p) => {
            if p.source is Uninitialized {
                match first_source(c) {
                    Ok(source) => {
                        lemma_mkv_shrinks(c, MkvProgress { source, ..p });
                    },
                    Err(_) => {},
                }
            } else {
                lemma_mkv_shrinks(c, p);
            }
        },
        ExtractionView::M2ts(c, p) => {
            lemma_m2ts_shrinks(c, p);
        },
        ExtractionView::Sup { bytes, pos, assembler } => {
            lemma_next_advances(bytes, pos, assembler);
        },
    }
}

/// The number of bytes read when an extraction has given all display sets that
/// it still gives, or has failed, with `before` of them read already.
pub open spec fn read_when_drained(x: ExtractionView, before: u64) -> u64
    decreases undecided(x), unread(x), waiting(x),
    via read_when_drained_decreases
{
    match extraction_next(x) {
        (Some(Ok(_)), after) => read_when_drained(after, read_after(x, before)),
        _ => read_after(x, before),
    }
}

#[via_fn]
proof fn read_when_drained_decreases(x: ExtractionView, before: u64) {
    lemma_next_shrinks(x);
}

/// What comes of putting display sets in front of what is left.
pub open spec fn after_sets(
    sets: Seq<TrackSetView>,
    rest: Result<Seq<TrackSetView>, ErrorView>,
) -> Result<
    Seq<TrackSetView>,
    ErrorView,
> {
    match rest {
        Ok(r) => Ok(sets + r),
        Err(e) => Err(e),
    }
}

/// What an extractor still gives: nothing if it has ended.
pub open spec fn remaining<R: Source>(x: &Extractor<R>) -> Result<Seq<TrackSetView>, ErrorView> {
    if x.is_done() {
        Ok(Seq::empty())
    } else {
        drained(x.extraction())
    }
}

/// Takes all display sets that an extractor still gives.
pub fn drain_all<R: Source>(extractor: &mut Extractor<R>) -> (r: Result<
    Vec<TrackDisplaySet>,
    PgsError,
>)
    requires
        old(extractor).wf(),
    ensures
        final(extractor).wf(),
        final(extractor).is_done(),
        final(extractor).bytes() == old(extractor).bytes(),
        final(extractor).file() == old(extractor).file(),
        final(extractor).infos() == old(extractor).infos(),
        final(extractor).statistics().file_size == old(extractor).statistics().file_size,
        final(extractor).statistics().bytes_read == if old(extractor).is_done() {
            old(extractor).statistics().bytes_read
        } else {
            read_when_drained(old(extractor).extraction(), old(extractor).consumed())
        },
        match (r, remaining(old(extractor))) {
            (Ok(sets), Ok(v)) => {
                &&& track_set_views(sets@) == v
                &&& final(extractor).kept() == if old(extractor).keeps_history() {
                    old(extractor).kept() + v
                } else {
                    old(extractor).kept()
                }
            },
            (Err(e), Err(v)) => e@ == v,
            _ => false,
        },
{
    let ghost goal = remaining(extractor);
    let ghost total = read_when_drained(extractor.extraction(), extractor.consumed());
    let ghost kept = extractor.kept();
    let mut sets: Vec<TrackDisplaySet> = Vec::new();
    proof {
        assert(track_set_views(sets@) =~= Seq::<TrackSetView>::empty());
        if goal is Ok {
            assert(track_set_views(sets@) + goal->Ok_0 =~= goal->Ok_0);
        }
        assert(kept + track_set_views(sets@) =~= kept);
    }
    loop
        invariant
            extractor.wf(),
            extractor.bytes() == old(extractor).bytes(),
            extractor.file() == old(extractor).file(),
            extractor.infos() == old(extractor).infos(),
            extractor.keeps_history() == old(extractor).keeps_history(),
            extractor.statistics().file_size == old(extractor).statistics().file_size,
            kept == old(extractor).kept(),
            extractor.kept() == if extractor.keeps_history() {
                kept + track_set_views(sets@)
            } else {
                kept
            },
            total == read_when_drained(old(extractor).extraction(), old(extractor).consumed()),
            old(extractor).is_done() ==> *extractor == *old(extractor),
            !old(extractor).is_done() ==> !extractor.is_done() && total == read_when_drained(
                extractor.extraction(),
                extractor.consumed(),
            ),
            goal == remaining(old(extractor)),
            goal == after_sets(track_set_views(sets@), remaining(extractor)),
        decreases
            (if extractor.is_done() {
                0int
            } else {
                1
            }),
            undecided(extractor.extraction()),
            unread(extractor.extraction()),
            waiting(extractor.extraction()),
    {
        let ghost had = track_set_views(sets@);
        proof {
            lemma_next_shrinks(extractor.extraction());
        }
        match extractor.next() {
            Some(Ok(tds)) => {
                let ghost view = tds@;
                sets.push(tds);
                proof {
                    assert(track_set_views(sets@) =~= had.push(view));
                    let rest = remaining(extractor);
                    if rest is Ok {
                        assert(had + (seq![view] + rest->Ok_0) =~= track_set_views(sets@)
                            + rest->Ok_0);
                    }
                    assert(kept + track_set_views(sets@) =~= (kept + had).push(view));
                }
            },
            Some(Err(e)) => {
                return Err(e);
            },
            None => {
                assert(had + Seq::<TrackSetView>::empty() =~= had);
                return Ok(sets);
            },
        }
    }
}

/// The display sets of a track, without their track.
pub open spec fn track_sets(sets: Seq<TrackSetView>, id: u32) -> Seq<DisplaySetView> {
    let own = sets_with_id(sets, id);
    Seq::new(own.len(), |i: int| own[i].display_set)
}

/// The identifiers of the tracks that display sets belong to, in order of their
/// first occurrence.
pub open spec fn ids_in_order(sets: Seq<TrackSetView>) -> Seq<u32>
    decreases sets.len(),
{
    if sets.len() == 0 {
        Seq::empty()
    } else {
        let before = ids_in_order(sets.drop_last());
        if before.contains(sets.last().track_id) {
            before
        } else {
            before.push(sets.last().track_id)
        }
    }
}

/// The information on the track with an identifier. Of several the last one
/// counts.
pub open spec fn info_with(infos: Seq<TrackInfoView>, id: u32) -> Option<TrackInfoView>
    decreases infos.len(),
{
    if infos.len() == 0 {
        None
    } else if infos.last().track_id == id {
        Some(infos.last())
    } else {
        info_with(infos.drop_last(), id)
    }
}

/// The display sets of the tracks with the given identifiers that are known.
pub open spec fn groups_of(
    ids: Seq<u32>,
    sets: Seq<TrackSetView>,
    infos: Seq<TrackInfoView>,
) -> Seq<TrackSetsView>
    decreases ids.len(),
{
    if ids.len() == 0 {
        Seq::empty()
    } else {
        let before = groups_of(ids.drop_last(), sets, infos);
        match info_with(infos, ids.last()) {
            Some(track) => before.push(
                TrackSetsView { track, display_sets: track_sets(sets, ids.last()) },
            ),
            None => before,
        }
    }
}

/// Display sets grouped by track, in order of each track's first display set.
/// Those of unknown tracks are left out.
pub open spec fn grouped(sets: Seq<TrackSetView>, infos: Seq<TrackInfoView>) -> Seq<TrackSetsView> {
    groups_of(ids_in_order(sets), sets, infos)
}

/// The view of groups that are being formed.
spec fn forming(groups: Seq<(u32, Vec<DisplaySet>)>) -> Seq<(u32, Seq<DisplaySetView>)> {
    Seq::new(groups.len(), |i: int| (groups[i].0, set_views(groups[i].1@)))
}

/// The groups of display sets before their tracks are looked up.
spec fn formed(sets: Seq<TrackSetView>) -> Seq<(u32, Seq<DisplaySetView>)> {
    Seq::new(
        ids_in_order(sets).len(),
        |i: int| (ids_in_order(sets)[i], track_sets(sets, ids_in_order(sets)[i])),
    )
}

proof fn lemma_formed_push(sets: Seq<TrackSetView>, x: TrackSetView, i: int)
    requires
        0 <= i <= ids_in_order(sets).len(),
        forall|j: int| 0 <= j < ids_in_order(sets).len() && j != i ==> ids_in_order(sets)[j]
            != x.track_id,
        i < ids_in_order(sets).len() ==> ids_in_order(sets)[i] == x.track_id,
    ensures
        formed(sets.push(x)) == if i < ids_in_order(sets).len() {
            formed(sets).update(i, (x.track_id, track_sets(sets, x.track_id).push(x.display_set)))
        } else {
            formed(sets).push((x.track_id, seq![x.display_set]))
        },
{
    let more = sets.push(x);
    let ids = ids_in_order(sets);
    assert(more.drop_last() =~= sets);
    assert(more.last() == x);
    assert forall|id: u32| id != x.track_id implies #[trigger] track_sets(more, id) =~= track_sets(
        sets,
        id,
    ) by {}
    assert(track_sets(more, x.track_id) =~= track_sets(sets, x.track_id).push(x.display_set));
    if i < ids.len() {
        assert(ids.contains(x.track_id));
        assert(formed(more) =~= formed(sets).update(
            i,
            (x.track_id, track_sets(sets, x.track_id).push(x.display_set)),
        ));
    } else {
        assert(!ids.contains(x.track_id));
        lemma_no_sets(sets, x.track_id);
        assert(track_sets(more, x.track_id) =~= seq![x.display_set]);
        assert(formed(more) =~= formed(sets).push((x.track_id, seq![x.display_set])));
    }
}

proof fn lemma_no_sets(sets: Seq<TrackSetView>, id: u32)
    requires
        !ids_in_order(sets).contains(id),
    ensures
        sets_with_id(sets, id).len() == 0,
    decreases sets.len(),
{
    if sets.len() > 0 {
        let before = ids_in_order(sets.drop_last());
        let all = ids_in_order(sets);
        if before.contains(id) {
            let k = choose|k: int| 0 <= k < before.len() && before[k] == id;
            assert(all[k] == id);
        }
        if sets.last().track_id == id {
            assert(before.contains(id) || all[all.len() - 1] == id);
        }
        lemma_no_sets(sets.drop_last(), id);
    }
}

proof fn lemma_ids_distinct(sets: Seq<TrackSetView>)
    ensures
        forall|i: int, j: int|
            0 <= i < j < ids_in_order(sets).len() ==> ids_in_order(sets)[i] != ids_in_order(
                sets,
            )[j],
    decreases sets.len(),
{
    if sets.len() > 0 {
        lemma_ids_distinct(sets.drop_last());
        let before = ids_in_order(sets.drop_last());
        let all = ids_in_order(sets);
        assert forall|i: int, j: int| 0 <= i < j < all.len() implies all[i] != all[j] by {
            if j == before.len() {
                assert(before[i] == all[i]);
                assert(before.contains(before[i]));
            }
        }
    }
}

/// The place of the last information on a track.
fn find_info(infos: &[PgsTrackInfo], id: u32) -> (r: Option<usize>)
    ensures
        match (r, info_with(info_views(infos@), id)) {
            (Some(i), Some(t)) => i < infos@.len() && infos@[i as int]@ == t,
            (None, None) => true,
            _ => false,
        },
{
    let ghost views = info_views(infos@);
    let mut i: usize = infos.len();
    assert(views.take(i as int) =~= views);
    while i > 0
        invariant
            i <= infos@.len(),
            views == info_views(infos@),
            info_with(views, id) == info_with(views.take(i as int), id),
        decreases i,
    {
        i -= 1;
        assert(views.take(i + 1).drop_last() =~= views.take(i as int));
        assert(views.take(i + 1).last() == infos@[i as int]@);
        if infos[i].track_id == id {
            return Some(i);
        }
    }
    None
}

/// Groups display sets by track, in order of each track's first display set.
pub fn group_by_track(results: Vec<TrackDisplaySet>, infos: &[PgsTrackInfo]) -> (r: Vec<
    TrackDisplaySets,
>)
    ensures
        track_sets_views(r@) == grouped(track_set_views(results@), info_views(infos@)),
{
    let ghost all = track_set_views(results@);
    let ghost tracks = info_views(infos@);
    let mut groups: Vec<(u32, Vec<DisplaySet>)> = Vec::new();
    assert(forming(groups@) =~= formed(all.take(0)));
    for tds in it: results
        invariant
            all == track_set_views(it.seq()),
            forming(groups@) == formed(all.take(it.index() as int)),
    {
        let ghost n = it.index() as int;
        let ghost some = all.take(n);
        let ghost view = tds@;
        let mut i: usize = 0;
        while i < groups.len() && groups[i].0 != tds.track_id
            invariant
                i <= groups@.len(),
                forall|j: int| 0 <= j < i ==> (#[trigger] groups@[j]).0 != tds.track_id,
            decreases groups@.len() - i,
        {
            i += 1;
        }
        proof {
            let ids = ids_in_order(some);
            lemma_ids_distinct(some);
            assert(forming(groups@).len() == formed(some).len());
            assert(groups@.len() == ids.len());
            assert forall|j: int| 0 <= j < ids.len() && j != i implies ids[j] != tds.track_id by {
                assert(forming(groups@)[j].0 == ids[j]);
                assert(forming(groups@)[j].0 == groups@[j].0);
                if i < ids.len() {
                    assert(forming(groups@)[i as int].0 == groups@[i as int].0);
                }
            }
            if i < ids.len() {
                assert(forming(groups@)[i as int].0 == ids[i as int]);
            }
            lemma_formed_push(some, view, i as int);
            assert(all.take(n + 1) =~= some.push(view));
        }
        let ghost before = forming(groups@);
        if i < groups.len() {
            let ghost had = set_views(groups@[i as int].1@);
            let group = &mut groups[i];
            group.1.push(tds.display_set);
            proof {
                assert(before[i as int] == formed(some)[i as int]);
                assert(set_views(groups@[i as int].1@) =~= had.push(view.display_set));
                assert(forming(groups@) =~= before.update(
                    i as int,
                    (view.track_id, had.push(view.display_set)),
                ));
            }
        } else {
            let mut sets: Vec<DisplaySet> = Vec::new();
            sets.push(tds.display_set);
            assert(set_views(sets@) =~= seq![view.display_set]);
            groups.push((tds.track_id, sets));
            assert(forming(groups@) =~= before.push((view.track_id, seq![view.display_set])));
        }
    }
    assert(all.take(all.len() as int) =~= all);
    let ghost ids = ids_in_order(all);
    let ghost pairs = forming(groups@);
    let mut out: Vec<TrackDisplaySets> = Vec::new();
    assert(track_sets_views(out@) =~= groups_of(ids.take(0), all, tracks));
    for group in it: groups
        invariant
            pairs == forming(it.seq()),
            pairs == formed(all),
            ids == ids_in_order(all),
            tracks == info_views(infos@),
            track_sets_views(out@) == groups_of(ids.take(it.index() as int), all, tracks),
    {
        let ghost n = it.index() as int;
        let ghost before = track_sets_views(out@);
        let ghost view = set_views(group.1@);
        proof {
            assert(pairs[n] == (group.0, view));
            assert(formed(all).len() == ids.len() && n < pairs.len());
            assert(formed(all)[n] == (ids[n], track_sets(all, ids[n])));
            assert(ids.take(n + 1).drop_last() =~= ids.take(n));
            assert(ids.take(n + 1).last() == group.0);
        }
        if let Some(k) = find_info(infos, group.0) {
            let track = infos[k].clone();
            let ghost info = track@;
            out.push(TrackDisplaySets { track, display_sets: group.1 });
            assert(track_sets_views(out@) =~= before.push(
                TrackSetsView { track: info, display_sets: view },
            ));
        }
    }
    assert(ids.take(ids.len() as int) =~= ids);
    out
}

/// All display sets that an extractor still gives, by track.
pub open spec fn collected(
    rest: Result<Seq<TrackSetView>, ErrorView>,
    infos: Seq<TrackInfoView>,
) -> Result<Seq<TrackSetsView>, ErrorView> {
    match rest {
        Ok(sets) => Ok(grouped(sets, infos)),
        Err(e) => Err(e),
    }
}

/// Takes all display sets that an extractor still gives, grouped by track.
pub fn drain_by_track<R: Source>(extractor: &mut Extractor<R>) -> (r: Result<
    Vec<TrackDisplaySets>,
    PgsError,
>)
    requires
        old(extractor).wf(),
    ensures
        final(extractor).wf(),
        final(extractor).is_done(),
        final(extractor).statistics().file_size == old(extractor).statistics().file_size,
        final(extractor).statistics().bytes_read == if old(extractor).is_done() {
            old(extractor).statistics().bytes_read
        } else {
            read_when_drained(old(extractor).extraction(), old(extractor).consumed())
        },
        match (r, collected(remaining(old(extractor)), old(extractor).infos())) {
            (Ok(sets), Ok(v)) => track_sets_views(sets@) == v,
            (Err(e), Err(v)) => e@ == v,
            _ => false,
        },
{
    match drain_all(extractor) {
        Ok(sets) => Ok(group_by_track(sets, extractor.tracks())),
        Err(e) => Err(e),
    }
}

impl<R: Source> Extractor<R> {
    /// All display sets that this extractor still gives, grouped by track.
    pub fn collect_by_track(self) -> (r: Result<Vec<TrackDisplaySets>, PgsError>)
        requires
            self.wf(),
        ensures
            match (r, collected(remaining(&self), self.infos())) {
                (Ok(sets), Ok(v)) => track_sets_views(sets@) == v,
                (Err(e), Err(v)) => e@ == v,
                _ => false,
            },
    {
        let mut extractor = self;
        drain_by_track(&mut extractor)
    }
}

/// All display sets of a file, by track.
pub open spec fn all_sets_of(s: Seq<u8>, languages: Map<u16, Seq<char>>) -> Result<
    Seq<TrackSetsView>,
    ErrorView,
> {
    match file_of(s, languages) {
        Err(e) => Err(e),
        Ok(file) => collected(
            drained(fresh_extraction(s, file, None, MkvStrategy::Auto)),
            file_infos(file, None),
        ),
    }
}

/// What is read of a file for all its display sets, or for those of the tracks
/// that a filter leaves.
pub open spec fn stats_of(
    s: Seq<u8>,
    languages: Map<u16, Seq<char>>,
    filter: Option<Seq<u32>>,
) -> ExtractionStats {
    let opened = counted(0, open_reads(s, languages));
    ExtractionStats {
        file_size: s.len() as u64,
        bytes_read: match file_of(s, languages) {
            Ok(file) => if file is Sup && filter is Some && !filter->0.contains(0) {
                0
            } else {
                read_when_drained(fresh_extraction(s, file, filter, MkvStrategy::Auto), opened)
            },
            Err(_) => opened,
        },
    }
}

/// Extracts all display sets of a file, grouped by track, and says what was
/// read.
pub fn extract_all_display_sets_with_stats<R: Source>(
    source: R,
    clip_languages: &HashMap<u16, String>,
) -> (r: Result<(Vec<TrackDisplaySets>, ExtractionStats), PgsError>)
    ensures
        match (r, all_sets_of(source.bytes(), language_map_view(clip_languages@))) {
            (Ok((sets, stats)), Ok(v)) => {
                &&& track_sets_views(sets@) == v
                &&& stats.file_size == source.bytes().len()
                &&& stats == stats_of(source.bytes(), language_map_view(clip_languages@), None)
            },
            (Err(e), Err(v)) => e@ == v,
            _ => false,
        },
{
    let mut extractor = match Extractor::open(source, clip_languages) {
        Ok(x) => x,
        Err(e) => {
            return Err(e);
        },
    };
    match drain_by_track(&mut extractor) {
        Ok(sets) => Ok((sets, *extractor.stats())),
        Err(e) => Err(e),
    }
}

/// Extracts all display sets of a file, grouped by track.
pub fn extract_all_display_sets<R: Source>(source: R, clip_languages: &HashMap<u16, String>) -> (r:
    Result<Vec<TrackDisplaySets>, PgsError>)
    ensures
        match (r, all_sets_of(source.bytes(), language_map_view(clip_languages@))) {
            (Ok(sets), Ok(v)) => track_sets_views(sets@) == v,
            (Err(e), Err(v)) => e@ == v,
            _ => false,
        },
{
    match extract_all_display_sets_with_stats(source, clip_languages) {
        Ok((sets, _)) => Ok(sets),
        Err(e) => Err(e),
    }
}

/// The display sets of one track of a file: of the track with an identifier, or
/// of the first one without it.
pub open spec fn track_sets_of(
    s: Seq<u8>,
    languages: Map<u16, Seq<char>>,
    track_id: Option<u32>,
) -> Result<Seq<DisplaySetView>, ErrorView> {
    match file_of(s, languages) {
        Err(e) => Err(e),
        Ok(file) => {
            let filter = match track_id {
                Some(id) => Some(seq![id]),
                None => None,
            };
            let infos = file_infos(file, filter);
            let empty = file is Sup && track_id is Some && track_id != Some(0u32);
            let rest = if empty {
                Ok(Seq::empty())
            } else {
                drained(fresh_extraction(s, file, filter, MkvStrategy::Auto))
            };
            match rest {
                Err(e) => Err(e),
                Ok(sets) => Ok(
                    match track_id {
                        Some(id) => track_sets(sets, id),
                        None => if infos.len() > 0 {
                            track_sets(sets, infos[0].track_id)
                        } else {
                            Seq::new(sets.len(), |i: int| sets[i].display_set)
                        },
                    },
                ),
            }
        },
    }
}

/// The display sets among several that belong to a track, or all of them.
fn pick_track(sets: Vec<TrackDisplaySet>, target: Option<u32>) -> (r: Vec<DisplaySet>)
    ensures
        set_views(r@) == match target {
            Some(id) => track_sets(track_set_views(sets@), id),
            None => Seq::new(sets@.len(), |i: int| track_set_views(sets@)[i].display_set),
        },
{
    let ghost all = track_set_views(sets@);
    let mut out: Vec<DisplaySet> = Vec::new();
    let ghost n = sets@.len();
    proof {
        if let Some(id) = target {
            assert(set_views(out@) =~= track_sets(all.take(0), id));
        }
    }
    for tds in it: sets
        invariant
            all == track_set_views(it.seq()),
            target matches Some(id) ==> set_views(out@) == track_sets(
                all.take(it.index() as int),
                id,
            ),
            target is None ==> set_views(out@) == Seq::new(
                it.index() as nat,
                |i: int| all[i].display_set,
            ),
    {
        let ghost k = it.index() as int;
        let ghost had = set_views(out@);
        let ghost view = tds@;
        proof {
            assert(all.take(k + 1).drop_last() =~= all.take(k));
            assert(all.take(k + 1).last() == view);
        }
        let wanted = match target {
            Some(id) => tds.track_id == id,
            None => true,
        };
        if wanted {
            out.push(tds.display_set);
            assert(set_views(out@) =~= had.push(view.display_set));
        }
        proof {
            match target {
                Some(id) => {
                    assert(set_views(out@) =~= track_sets(all.take(k + 1), id));
                },
                None => {
                    assert(set_views(out@) =~= Seq::new(
                        (k + 1) as nat,
                        |i: int| all[i].display_set,
                    ));
                },
            }
        }
    }
    assert(all.take(all.len() as int) =~= all);
    proof {
        if target is None {
            assert(set_views(out@) =~= Seq::new(n, |i: int| all[i].display_set));
        }
    }
    out
}

/// Extracts the display sets of one track of a file and says what was read.
///
/// Without an identifier, the first track is taken.
pub fn extract_display_sets_with_stats<R: Source>(
    source: R,
    clip_languages: &HashMap<u16, String>,
    track_id: Option<u32>,
) -> (r: Result<(Vec<DisplaySet>, ExtractionStats), PgsError>)
    ensures
        match (r, track_sets_of(source.bytes(), language_map_view(clip_languages@), track_id)) {
            (Ok((sets, stats)), Ok(v)) => {
                &&& set_views(sets@) == v
                &&& stats.file_size == source.bytes().len()
                &&& stats == stats_of(
                    source.bytes(),
                    language_map_view(clip_languages@),
                    match track_id {
                        Some(id) => Some(seq![id]),
                        None => None,
                    },
                )
            },
            (Err(e), Err(v)) => e@ == v,
            _ => false,
        },
{
    let opened = match Extractor::open(source, clip_languages) {
        Ok(x) => x,
        Err(e) => {
            return Err(e);
        },
    };
    let mut extractor = match track_id {
        Some(id) => {
            let ids = [id];
            assert(ids@ =~= seq![id]);
            assert(ids@.contains(0) <==> id == 0) by {
                if ids@.contains(0) {
                    assert(ids@[0] == 0);
                }
                if id == 0 {
                    assert(ids@[0] == 0);
                }
            }
            opened.with_track_filter(&ids)
        },
        None => opened,
    };
    let target: Option<u32> = match track_id {
        Some(id) => Some(id),
        None => {
            let tracks = extractor.tracks();
            if tracks.len() > 0 {
                assert(extractor.infos()[0] == tracks@[0]@);
                Some(tracks[0].track_id)
            } else {
                None
            }
        },
    };
    match drain_all(&mut extractor) {
        Ok(sets) => {
            let picked = pick_track(sets, target);
            Ok((picked, *extractor.stats()))
        },
        Err(e) => Err(e),
    }
}

/// Extracts the display sets of one track of a file.
///
/// Without an identifier, the first track is taken.
pub fn extract_display_sets<R: Source>(
    source: R,
    clip_languages: &HashMap<u16, String>,
    track_id: Option<u32>,
) -> (r: Result<Vec<DisplaySet>, PgsError>)
    ensures
        match (r, track_sets_of(source.bytes(), language_map_view(clip_languages@), track_id)) {
            (Ok(sets), Ok(v)) => set_views(sets@) == v,
            (Err(e), Err(v)) => e@ == v,
            _ => false,
        },
{
    match extract_display_sets_with_stats(source, clip_languages, track_id) {
        Ok((sets, _)) => Ok(sets),
        Err(e) => Err(e),
    }
}

} // verus!
