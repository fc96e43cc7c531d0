//! What whole files come to.
use vstd::prelude::*;
use crate::collect::{all_sets_of, drained, grouped, ids_in_order, track_sets, track_sets_of};
use crate::ebml::written::holds;
use crate::error::ErrorView;
use crate::extractor::{
    file_infos, file_of, fresh_extraction, sets_with_id, ExtractionView, FileView,
};
use crate::listing::track_totals;
use crate::m2ts::M2tsMetadataView;
use crate::m2ts::stream::{active_pids, flush_effect, fresh_pid_slots, M2tsConfig, M2tsProgress};
use crate::mkv::cues::PgsCuePoint;
use crate::mkv::MetadataView;
use crate::mkv::stream::{
    active_of, blocks_effect, fresh_mkv_config, fresh_mkv_progress, fresh_slots, track_with,
    with_infos,
};
use crate::mkv::tracks::TrackView;
use crate::pgs::display_set::{fresh_assembler, pushed_all, AssemblerView, DisplaySetView};
use crate::pgs::segment::{segment_bytes, segment_fits, SegmentView};
use crate::sup::stream::sup_next;
use crate::sup::write::{
    all_read, lemma_segments_prepend, segments_bytes, sup_all, written_segments_are_read_back,
};
use crate::track::{
    mkv_info, ContainerFormat, MkvStrategy, TrackInfoView, TrackSetView, TrackSetsView,
};
use crate::written::choices::{
    each_track_has_its_group, raw_files_are_told_by_their_start, tracks_come_in_order,
};
use crate::written::passes::{found_in, is_item, items_bytes, Item};
use crate::written::sets::{is_set, joined, segments_make_their_sets, set_of};
use crate::written::starts::written_segment_is_extracted;
use crate::written::transport::{
    is_packet, packets_bytes, packets_effect, written_packets_are_passed, Packet,
};

verus! {

/// Display sets as those of the one track of a raw file.
pub open spec fn raw_sets(sets: Seq<DisplaySetView>) -> Seq<TrackSetView> {
    Seq::new(
        sets.len(),
        |i: int|
            TrackSetView {
                track_id: 0,
                language: None,
                container: ContainerFormat::Sup,
                display_set: sets[i],
            },
    )
}

proof fn lemma_raw_drained(s: Seq<u8>, pos: int, a: AssemblerView, sets: Seq<DisplaySetView>)
    requires
        sup_all(s, pos, a) == all_read(sets),
    ensures
        drained(ExtractionView::Sup { bytes: s, pos, assembler: a }) == Ok::<
            Seq<TrackSetView>,
            ErrorView,
        >(raw_sets(sets)),
    decreases sets.len(),
{
    let (outcome, next, after) = sup_next(s, pos, a);
    let all = sup_all(s, pos, a);
    lemma_raw_step(s, pos, a);
    assert(all.len() == sets.len());
    if sets.len() > 0 {
        assert(all[0] == Ok::<DisplaySetView, ErrorView>(sets[0]));
    }
    match outcome {
        Some(Ok(ds)) => {
            let rest = sets.skip(1);
            let more = sup_all(s, next, after);
            assert(all == seq![Ok::<DisplaySetView, ErrorView>(ds)] + more);
            assert(all[0] == Ok::<DisplaySetView, ErrorView>(ds));
            assert(more =~= all.skip(1));
            assert(all_read(sets).skip(1) =~= all_read(rest));
            lemma_raw_drained(s, next, after, rest);
            assert(seq![raw_sets(sets)[0]] + raw_sets(rest) =~= raw_sets(sets));
        },
        Some(Err(e)) => {
            assert(all[0] == Err::<DisplaySetView, ErrorView>(e));
        },
        None => {
            assert(raw_sets(sets) =~= Seq::empty());
        },
    }
}

proof fn lemma_raw_step(s: Seq<u8>, pos: int, a: AssemblerView)
    ensures
        ({
            let (outcome, next, after) = sup_next(s, pos, a);
            let now = drained(ExtractionView::Sup { bytes: s, pos, assembler: a });
            let later = drained(ExtractionView::Sup { bytes: s, pos: next, assembler: after });
            match outcome {
                Some(Ok(ds)) => {
                    &&& sup_all(s, pos, a) == seq![Ok::<DisplaySetView, ErrorView>(ds)] + sup_all(
                        s,
                        next,
                        after,
                    )
                    &&& later matches Ok(rest) ==> now == Ok::<Seq<TrackSetView>, ErrorView>(
                        seq![
                            TrackSetView {
                                track_id: 0,
                                language: None,
                                container: ContainerFormat::Sup,
                                display_set: ds,
                            },
                        ] + rest,
                    )
                },
                Some(Err(e)) => sup_all(s, pos, a) == seq![Err::<DisplaySetView, ErrorView>(e)],
                None => sup_all(s, pos, a).len() == 0 && now == Ok::<Seq<TrackSetView>, ErrorView>(
                    Seq::empty(),
                ),
            }
        }),
{
}

/// The display sets that segments make.
pub open spec fn sets_of(sets: Seq<Seq<SegmentView>>) -> Seq<DisplaySetView> {
    Seq::new(sets.len(), |i: int| set_of(sets[i]))
}

proof fn lemma_joined(sets: Seq<Seq<SegmentView>>)
    requires
        sets.len() > 0,
        forall|i: int| 0 <= i < sets.len() ==> is_set(#[trigger] sets[i]),
    ensures
        joined(sets).len() > 0,
{
    assert(is_set(sets[sets.len() - 1]));
}

proof fn lemma_raw_track(sets: Seq<DisplaySetView>, id: u32)
    ensures
        sets_with_id(raw_sets(sets), id) == if id == 0 {
            raw_sets(sets)
        } else {
            Seq::empty()
        },
    decreases sets.len(),
{
    let all = raw_sets(sets);
    if sets.len() > 0 {
        assert(all.drop_last() =~= raw_sets(sets.drop_last()));
        lemma_raw_track(sets.drop_last(), id);
        assert(all.drop_last().push(all.last()) =~= all);
    } else {
        assert(all =~= Seq::empty());
    }
}

/// A raw file of display sets gives them all, in order, as those of its one track,
/// without an identifier as with the identifier 0, and none with any other, unless
/// its first time looks like a sync byte.
pub proof fn raw_file_gives_its_sets(
    sets: Seq<Seq<SegmentView>>,
    languages: Map<u16, Seq<char>>,
    id: u32,
)
    requires
        sets.len() > 0,
        forall|i: int| 0 <= i < sets.len() ==> is_set(#[trigger] sets[i]),
        forall|i: int| 0 <= i < joined(sets).len() ==> segment_fits(#[trigger] joined(sets)[i]),
        joined(sets)[0].pts / 256 % 256 != 0x47,
    ensures
        all_sets_of(segments_bytes(joined(sets)), languages) == Ok::<
            Seq<TrackSetsView>,
            ErrorView,
        >(
            seq![
                TrackSetsView {
                    track: raw_info(),
                    display_sets: sets_of(sets),
                },
            ],
        ),
        track_sets_of(segments_bytes(joined(sets)), languages, None) == Ok::<
            Seq<DisplaySetView>,
            ErrorView,
        >(sets_of(sets)),
        track_sets_of(segments_bytes(joined(sets)), languages, Some(id)) == Ok::<
            Seq<DisplaySetView>,
            ErrorView,
        >(
            if id == 0 {
                sets_of(sets)
            } else {
                Seq::empty()
            },
        ),
{
    let s = segments_bytes(joined(sets));
    lemma_raw_start(sets);
    lemma_raw_read(sets);
    lemma_joined(sets);
    lemma_raw_results(s, sets_of(sets), languages, id);
}

proof fn lemma_raw_start(sets: Seq<Seq<SegmentView>>)
    requires
        sets.len() > 0,
        forall|i: int| 0 <= i < sets.len() ==> is_set(#[trigger] sets[i]),
        forall|i: int| 0 <= i < joined(sets).len() ==> segment_fits(#[trigger] joined(sets)[i]),
        joined(sets)[0].pts / 256 % 256 != 0x47,
    ensures
        segments_bytes(joined(sets)).len() >= 5,
        segments_bytes(joined(sets))[0] == 0x50,
        segments_bytes(joined(sets))[1] == 0x47,
        segments_bytes(joined(sets))[4] != 0x47,
{
    lemma_joined(sets);
    let segments = joined(sets);
    let first = segments[0];
    lemma_segments_prepend(segments);
    assert(segment_fits(segments[0]));
    let b = segment_bytes(first);
    assert(b.len() >= 13 && b[0] == 0x50 && b[1] == 0x47);
    assert(b[4] == first.pts / 256 % 256);
}

proof fn lemma_raw_read(sets: Seq<Seq<SegmentView>>)
    requires
        forall|i: int| 0 <= i < sets.len() ==> is_set(#[trigger] sets[i]),
        forall|i: int| 0 <= i < joined(sets).len() ==> segment_fits(#[trigger] joined(sets)[i]),
    ensures
        drained(
            ExtractionView::Sup {
                bytes: segments_bytes(joined(sets)),
                pos: 0,
                assembler: fresh_assembler(),
            },
        ) == Ok::<Seq<TrackSetView>, ErrorView>(raw_sets(sets_of(sets))),
{
    written_segments_are_read_back(joined(sets));
    segments_make_their_sets(fresh_assembler(), sets);
    assert(pushed_all(fresh_assembler(), joined(sets)).1 =~= sets_of(sets));
    lemma_raw_drained(segments_bytes(joined(sets)), 0, fresh_assembler(), sets_of(sets));
}

proof fn lemma_raw_results(
    s: Seq<u8>,
    made: Seq<DisplaySetView>,
    languages: Map<u16, Seq<char>>,
    id: u32,
)
    requires
        s.len() >= 5,
        s[0] == 0x50,
        s[1] == 0x47,
        s[4] != 0x47,
        made.len() > 0,
        drained(ExtractionView::Sup { bytes: s, pos: 0, assembler: fresh_assembler() }) == Ok::<
            Seq<TrackSetView>,
            ErrorView,
        >(raw_sets(made)),
    ensures
        all_sets_of(s, languages) == Ok::<Seq<TrackSetsView>, ErrorView>(
            seq![TrackSetsView { track: raw_info(), display_sets: made }],
        ),
        track_sets_of(s, languages, None) == Ok::<Seq<DisplaySetView>, ErrorView>(made),
        track_sets_of(s, languages, Some(id)) == Ok::<Seq<DisplaySetView>, ErrorView>(
            if id == 0 {
                made
            } else {
                Seq::empty()
            },
        ),
{
    raw_files_are_told_by_their_start(s, languages, None);
    assert(file_of(s, languages) == Ok::<FileView, ErrorView>(FileView::Sup));
    lemma_raw_groups(made, id);
    let x = fresh_extraction(s, FileView::Sup, None, MkvStrategy::Auto);
    let y = fresh_extraction(s, FileView::Sup, Some(seq![id]), MkvStrategy::Auto);
    assert(drained(x) == Ok::<Seq<TrackSetView>, ErrorView>(raw_sets(made)));
    assert(drained(y) == drained(x));
    assert(file_infos(FileView::Sup, None) =~= seq![raw_info()]);
}

/// What is known about the one track of a raw file.
pub open spec fn raw_info() -> TrackInfoView {
    TrackInfoView {
        track_id: 0,
        language: None,
        container: ContainerFormat::Sup,
        name: None,
        flag_default: None,
        flag_forced: None,
        display_set_count: None,
        has_cues: None,
    }
}

proof fn lemma_raw_groups(made: Seq<DisplaySetView>, id: u32)
    requires
        made.len() > 0,
    ensures
        grouped(raw_sets(made), seq![raw_info()]) == seq![
            TrackSetsView { track: raw_info(), display_sets: made },
        ],
        track_sets(raw_sets(made), 0) == made,
        track_sets(Seq::empty(), id) == Seq::<DisplaySetView>::empty(),
{
    let all = raw_sets(made);
    let info = raw_info();
    let infos = seq![info];
    lemma_raw_track(made, 0);
    assert(track_sets(all, 0) =~= made);
    assert(sets_with_id(Seq::empty(), id) =~= Seq::empty());
    assert(track_sets(Seq::empty(), id) =~= Seq::empty());
    tracks_come_in_order(all);
    let ids = ids_in_order(all);
    assert(all[0].track_id == 0);
    assert(ids.contains(0));
    assert forall|k: int| 0 <= k < ids.len() implies ids[k] == 0 by {
        assert(ids.contains(ids[k]));
    }
    assert(ids.len() == 1) by {
        if ids.len() > 1 {
            assert(ids[0] == ids[1]);
        }
    }
    assert forall|i: int| 0 <= i < all.len() implies exists|j: int|
        0 <= j < infos.len() && (#[trigger] infos[j]).track_id == (#[trigger] all[i]).track_id by {
        assert(infos[0].track_id == all[i].track_id);
    }
    each_track_has_its_group(all, infos, 0);
    let groups = grouped(all, infos);
    assert(groups[0].track == info);
    assert(groups =~= seq![TrackSetsView { track: info, display_sets: made }]);
}

/// The display sets of a track, and their segments, are counted one by one.
pub proof fn totals_are_counted_one_by_one(
    a: Seq<TrackSetView>,
    x: TrackSetView,
    b: Seq<TrackSetView>,
    id: u32,
)
    ensures
        ({
            let (n, m) = track_totals(a, id);
            let (k, l) = track_totals(b, id);
            track_totals(a + seq![x] + b, id) == if x.track_id == id {
                (n + 1 + k, m + x.display_set.segments.len() + l)
            } else {
                (n + k, m + l)
            }
        }),
    decreases b.len(),
{
    let all = a + seq![x] + b;
    if b.len() == 0 {
        assert(all.drop_last() =~= a);
    } else {
        assert(all.drop_last() =~= a + seq![x] + b.drop_last());
        assert(all.last() == b.last());
        totals_are_counted_one_by_one(a, x, b.drop_last(), id);
    }
}

/// Results are joined with what is known about their tracks one by one, in order;
/// those without a track are left out.
pub proof fn results_are_joined_one_by_one(
    a: Seq<(u64, Seq<DisplaySetView>)>,
    number: u64,
    sets: Seq<DisplaySetView>,
    b: Seq<(u64, Seq<DisplaySetView>)>,
    tracks: Seq<TrackView>,
    counts: Map<u64, u64>,
    cues: Option<Seq<PgsCuePoint>>,
)
    ensures
        with_infos(a + seq![(number, sets)] + b, tracks, counts, cues) == with_infos(
            a,
            tracks,
            counts,
            cues,
        ) + (match track_with(tracks, number) {
            Some(t) => seq![TrackSetsView { track: mkv_info(t, counts, cues), display_sets: sets }],
            None => Seq::empty(),
        }) + with_infos(b, tracks, counts, cues),
    decreases b.len(),
{
    let all = a + seq![(number, sets)] + b;
    let one = match track_with(tracks, number) {
        Some(t) => seq![TrackSetsView { track: mkv_info(t, counts, cues), display_sets: sets }],
        None => Seq::empty(),
    };
    if b.len() == 0 {
        assert(all.drop_last() =~= a);
    } else {
        assert(all.drop_last() =~= a + seq![(number, sets)] + b.drop_last());
        assert(all.last() == b.last());
        results_are_joined_one_by_one(a, number, sets, b.drop_last(), tracks, counts, cues);
    }
    assert(with_infos(all, tracks, counts, cues) =~= with_infos(a, tracks, counts, cues) + one
        + with_infos(b, tracks, counts, cues));
}

/// A Matroska file of written clusters, read in file order, gives what the blocks of
/// the tracks that a filter leaves give, with the compressions and the timestamp
/// scale of the file.
pub proof fn matroska_file_gives_its_blocks(
    s: Seq<u8>,
    m: MetadataView,
    filter: Option<Seq<u32>>,
    items: Seq<Item>,
    first: u64,
)
    requires
        forall|i: int| 0 <= i < items.len() ==> is_item(#[trigger] items[i]),
        m.layout.first_cluster_position == Some(first),
        holds(s, first as int, items_bytes(items)),
        m.layout.segment_data_end == first + items_bytes(items).len(),
        s.len() <= u64::MAX,
    ensures
        drained(
            fresh_extraction(s, FileView::Mkv(m), filter, MkvStrategy::Sequential),
        ) == Ok::<Seq<TrackSetView>, ErrorView>(
            blocks_effect(
                fresh_slots(active_of(m.pgs_track_numbers, filter), m.pgs_tracks),
                m.compression_map,
                m.timestamp_scale,
                found_in(items, active_of(m.pgs_track_numbers, filter)),
            ).1,
        ),
{
    let c = fresh_mkv_config(s, m, filter, MkvStrategy::Sequential);
    let p = fresh_mkv_progress(m, filter);
    written_segment_is_extracted(c, p, items, first);
}

/// A transport stream of written packets gives what its packets complete of the
/// tracks that a filter leaves, one after the other, and at the end what is left of
/// each of them.
pub proof fn transport_stream_gives_its_packets(
    s: Seq<u8>,
    m: M2tsMetadataView,
    start: u64,
    container: ContainerFormat,
    filter: Option<Seq<u32>>,
    strategy: MkvStrategy,
    ks: Seq<Packet>,
)
    requires
        forall|i: int| 0 <= i < ks.len() ==> is_packet(#[trigger] ks[i]),
        holds(s, start as int, packets_bytes(ks, m.format)),
        start + packets_bytes(ks, m.format).len() == m.file_size,
    ensures
        ({
            let slots = fresh_pid_slots(active_pids(m.pgs_pids, filter), m.tracks);
            let (after, sets) = packets_effect(slots, container, ks);
            drained(
                fresh_extraction(s, FileView::M2ts(m, start, container), filter, strategy),
            ) == Ok::<Seq<TrackSetView>, ErrorView>(
                sets + flush_effect(after, container, after.len()).1,
            )
        }),
{
    let slots = fresh_pid_slots(active_pids(m.pgs_pids, filter), m.tracks);
    let c = M2tsConfig { bytes: s, format: m.format, container, end: m.file_size as int };
    let p = M2tsProgress { pos: start as int, slots, pending: Seq::empty(), flushed: false };
    written_packets_are_passed(c, p, ks);
    let sets = packets_effect(slots, container, ks).1;
    assert(p.pending + sets =~= sets);
}

} // verus!
