//! Which tracks and display sets are chosen, and how they are grouped.
use vstd::prelude::*;
use crate::collect::{grouped, groups_of, ids_in_order, info_with, track_sets};
use crate::error::ErrorView;
use crate::extractor::{container_of, file_infos, file_of, sets_with_id, FileView};
use crate::m2ts::stream::{active_pids, fresh_pid_slots, m2ts_infos, pid_language};
use crate::m2ts::ts_packet::PacketFormat;
use crate::m2ts::M2tsTrackView;
use crate::mkv::cues::PgsCuePoint;
use crate::mkv::stream::{active_of, fresh_slots, language_of, mkv_infos, track_with};
use crate::mkv::tracks::TrackView;
use crate::pgs::display_set::fresh_assembler;
use crate::range::{judged, without, RangeView, Verdict};
use crate::track::{mkv_info, track_id_of, ContainerFormat, TrackInfoView, TrackSetView};
use crate::ebml::written::holds;
use crate::written::transport::{
    is_packet, packets_bytes, written_packets_tell_their_format, Packet,
};

verus! {

/// Whether a filter leaves a track.
pub open spec fn leaves(filter: Option<Seq<u32>>, id: int) -> bool {
    filter matches Some(ids) ==> exists|i: int| 0 <= i < ids.len() && #[trigger] ids[i] == id
}

/// A filter chooses numbers one by one, by their low four bytes, and keeps their
/// order.
pub proof fn numbers_are_chosen_one_by_one(
    a: Seq<u64>,
    n: u64,
    b: Seq<u64>,
    filter: Option<Seq<u32>>,
)
    ensures
        active_of(a + seq![n] + b, filter) == active_of(a, filter) + (if leaves(
            filter,
            n as int % 0x1_0000_0000,
        ) {
            seq![n]
        } else {
            Seq::empty()
        }) + active_of(b, filter),
    decreases b.len(),
{
    let all = a + seq![n] + b;
    if b.len() == 0 {
        assert(all.drop_last() =~= a);
        if filter is Some {
            let ids = filter->0;
            assert(ids.contains(track_id_of(n)) <==> leaves(filter, n as int % 0x1_0000_0000));
        }
        assert(active_of(a, filter).push(n) =~= active_of(a, filter) + seq![n]);
        assert(active_of(b, filter) =~= Seq::empty());
    } else {
        assert(all.drop_last() =~= a + seq![n] + b.drop_last());
        assert(all.last() == b.last());
        numbers_are_chosen_one_by_one(a, n, b.drop_last(), filter);
    }
    assert(active_of(all, filter) =~= active_of(a, filter) + (if leaves(
        filter,
        n as int % 0x1_0000_0000,
    ) {
        seq![n]
    } else {
        Seq::empty()
    }) + active_of(b, filter));
}

/// A filter chooses packet identifiers one by one, and keeps their order.
pub proof fn packet_identifiers_are_chosen_one_by_one(
    a: Seq<u16>,
    pid: u16,
    b: Seq<u16>,
    filter: Option<Seq<u32>>,
)
    ensures
        active_pids(a + seq![pid] + b, filter) == active_pids(a, filter) + (if leaves(
            filter,
            pid as int,
        ) {
            seq![pid]
        } else {
            Seq::empty()
        }) + active_pids(b, filter),
    decreases b.len(),
{
    let all = a + seq![pid] + b;
    if b.len() == 0 {
        assert(all.drop_last() =~= a);
        if filter is Some {
            let ids = filter->0;
            assert(ids.contains(pid as u32) <==> leaves(filter, pid as int));
        }
    } else {
        assert(all.drop_last() =~= a + seq![pid] + b.drop_last());
        assert(all.last() == b.last());
        packet_identifiers_are_chosen_one_by_one(a, pid, b.drop_last(), filter);
    }
    assert(active_pids(all, filter) =~= active_pids(a, filter) + (if leaves(filter, pid as int) {
        seq![pid]
    } else {
        Seq::empty()
    }) + active_pids(b, filter));
}

/// A filter chooses Matroska tracks one by one, and keeps their order.
pub proof fn tracks_are_chosen_one_by_one(
    a: Seq<TrackView>,
    t: TrackView,
    b: Seq<TrackView>,
    counts: Map<u64, u64>,
    cues: Option<Seq<PgsCuePoint>>,
    filter: Option<Seq<u32>>,
)
    ensures
        mkv_infos(a + seq![t] + b, counts, cues, filter) == mkv_infos(a, counts, cues, filter) + (
        if leaves(filter, t.track_number as int % 0x1_0000_0000) {
            seq![mkv_info(t, counts, cues)]
        } else {
            Seq::empty()
        }) + mkv_infos(b, counts, cues, filter),
    decreases b.len(),
{
    let all = a + seq![t] + b;
    let n = t.track_number;
    if b.len() == 0 {
        assert(all.drop_last() =~= a);
        if filter is Some {
            let ids = filter->0;
            assert(ids.contains(track_id_of(n)) <==> leaves(filter, n as int % 0x1_0000_0000));
        }
    } else {
        assert(all.drop_last() =~= a + seq![t] + b.drop_last());
        assert(all.last() == b.last());
        tracks_are_chosen_one_by_one(a, t, b.drop_last(), counts, cues, filter);
    }
    assert(mkv_infos(all, counts, cues, filter) =~= mkv_infos(a, counts, cues, filter) + (if leaves(
        filter,
        n as int % 0x1_0000_0000,
    ) {
        seq![mkv_info(t, counts, cues)]
    } else {
        Seq::empty()
    }) + mkv_infos(b, counts, cues, filter));
}

/// A filter chooses tracks of a transport stream one by one, and keeps their order.
/// Of such a track its identifier, its language and its container are known.
pub proof fn streams_are_chosen_one_by_one(
    a: Seq<M2tsTrackView>,
    t: M2tsTrackView,
    b: Seq<M2tsTrackView>,
    container: ContainerFormat,
    filter: Option<Seq<u32>>,
)
    ensures
        m2ts_infos(a + seq![t] + b, container, filter) == m2ts_infos(a, container, filter) + (
        if leaves(filter, t.pid as int) {
            seq![
                TrackInfoView {
                    track_id: t.pid as u32,
                    language: t.language,
                    container,
                    name: None,
                    flag_default: None,
                    flag_forced: None,
                    display_set_count: None,
                    has_cues: None,
                },
            ]
        } else {
            Seq::empty()
        }) + m2ts_infos(b, container, filter),
    decreases b.len(),
{
    let all = a + seq![t] + b;
    let one = TrackInfoView {
        track_id: t.pid as u32,
        language: t.language,
        container,
        name: None,
        flag_default: None,
        flag_forced: None,
        display_set_count: None,
        has_cues: None,
    };
    if b.len() == 0 {
        assert(all.drop_last() =~= a);
        if filter is Some {
            let ids = filter->0;
            assert(ids.contains(t.pid as u32) <==> leaves(filter, t.pid as int));
        }
    } else {
        assert(all.drop_last() =~= a + seq![t] + b.drop_last());
        assert(all.last() == b.last());
        streams_are_chosen_one_by_one(a, t, b.drop_last(), container, filter);
    }
    assert(m2ts_infos(all, container, filter) =~= m2ts_infos(a, container, filter) + (if leaves(
        filter,
        t.pid as int,
    ) {
        seq![one]
    } else {
        Seq::empty()
    }) + m2ts_infos(b, container, filter));
}

/// Tracks with different numbers have a fresh slot each, in order, with the number
/// and the language of the track.
pub proof fn each_track_has_a_slot(tracks: Seq<TrackView>, numbers: Seq<u64>, k: int, j: int)
    requires
        numbers.no_duplicates(),
        0 <= k < numbers.len(),
        0 <= j < tracks.len(),
        forall|i: int, l: int|
            0 <= i < l < tracks.len() ==> tracks[i].track_number != tracks[l].track_number,
        tracks[j].track_number == numbers[k],
    ensures
        fresh_slots(numbers, tracks).len() == numbers.len(),
        fresh_slots(numbers, tracks)[k].number == numbers[k],
        fresh_slots(numbers, tracks)[k].language == tracks[j].language,
        fresh_slots(numbers, tracks)[k].assembler == fresh_assembler(),
    decreases numbers.len(),
{
    lemma_slots(tracks, numbers);
    lemma_track_with(tracks, j);
}

proof fn lemma_slots(tracks: Seq<TrackView>, numbers: Seq<u64>)
    requires
        numbers.no_duplicates(),
    ensures
        fresh_slots(numbers, tracks).len() == numbers.len(),
        forall|k: int|
            0 <= k < numbers.len() ==> (#[trigger] fresh_slots(numbers, tracks)[k]).number
                == numbers[k] && fresh_slots(numbers, tracks)[k].language == language_of(
                tracks,
                numbers[k],
            ) && fresh_slots(numbers, tracks)[k].assembler == fresh_assembler(),
    decreases numbers.len(),
{
    if numbers.len() > 0 {
        let init = numbers.drop_last();
        assert forall|i: int, j: int| 0 <= i < init.len() && 0 <= j < init.len() && i
            != j implies init[i] != init[j] by {
            assert(init[i] == numbers[i] && init[j] == numbers[j]);
        }
        lemma_slots(tracks, init);
        if init.contains(numbers.last()) {
            let i = choose|i: int| 0 <= i < init.len() && init[i] == numbers.last();
            assert(numbers[i] == numbers[numbers.len() - 1]);
        }
    }
}

proof fn lemma_track_with(tracks: Seq<TrackView>, j: int)
    requires
        0 <= j < tracks.len(),
        forall|i: int, l: int|
            0 <= i < l < tracks.len() ==> tracks[i].track_number != tracks[l].track_number,
    ensures
        track_with(tracks, tracks[j].track_number) == Some(tracks[j]),
    decreases tracks.len(),
{
    if j < tracks.len() - 1 {
        assert(tracks[j].track_number != tracks[tracks.len() - 1].track_number);
        assert(tracks.drop_last()[j] == tracks[j]);
        lemma_track_with(tracks.drop_last(), j);
    }
}

/// Streams with different packet identifiers have a fresh slot each, in order,
/// with the identifier and the language of the stream.
pub proof fn each_stream_has_a_slot(tracks: Seq<M2tsTrackView>, pids: Seq<u16>, k: int, j: int)
    requires
        pids.no_duplicates(),
        0 <= k < pids.len(),
        0 <= j < tracks.len(),
        forall|i: int, l: int| 0 <= i < l < tracks.len() ==> tracks[i].pid != tracks[l].pid,
        tracks[j].pid == pids[k],
    ensures
        fresh_pid_slots(pids, tracks).len() == pids.len(),
        fresh_pid_slots(pids, tracks)[k].pid == pids[k],
        fresh_pid_slots(pids, tracks)[k].language == tracks[j].language,
        fresh_pid_slots(pids, tracks)[k].pes is None,
        fresh_pid_slots(pids, tracks)[k].assembler == fresh_assembler(),
{
    lemma_pid_slots(tracks, pids);
    lemma_pid_language(tracks, j);
}

proof fn lemma_pid_slots(tracks: Seq<M2tsTrackView>, pids: Seq<u16>)
    requires
        pids.no_duplicates(),
    ensures
        fresh_pid_slots(pids, tracks).len() == pids.len(),
        forall|k: int|
            0 <= k < pids.len() ==> (#[trigger] fresh_pid_slots(pids, tracks)[k]).pid == pids[k]
                && fresh_pid_slots(pids, tracks)[k].language == pid_language(tracks, pids[k])
                && fresh_pid_slots(pids, tracks)[k].pes is None && fresh_pid_slots(
                pids,
                tracks,
            )[k].assembler == fresh_assembler(),
    decreases pids.len(),
{
    if pids.len() > 0 {
        let init = pids.drop_last();
        assert forall|i: int, j: int| 0 <= i < init.len() && 0 <= j < init.len() && i
            != j implies init[i] != init[j] by {
            assert(init[i] == pids[i] && init[j] == pids[j]);
        }
        lemma_pid_slots(tracks, init);
        if init.contains(pids.last()) {
            let i = choose|i: int| 0 <= i < init.len() && init[i] == pids.last();
            assert(pids[i] == pids[pids.len() - 1]);
        }
    }
}

proof fn lemma_pid_language(tracks: Seq<M2tsTrackView>, j: int)
    requires
        0 <= j < tracks.len(),
        forall|i: int, l: int| 0 <= i < l < tracks.len() ==> tracks[i].pid != tracks[l].pid,
    ensures
        pid_language(tracks, tracks[j].pid) == tracks[j].language,
    decreases tracks.len(),
{
    if j < tracks.len() - 1 {
        assert(tracks[j].pid != tracks[tracks.len() - 1].pid);
        assert(tracks.drop_last()[j] == tracks[j]);
        lemma_pid_language(tracks.drop_last(), j);
    }
}

/// The display sets of a track are chosen one by one, and keep their order.
pub proof fn sets_are_chosen_one_by_one(
    a: Seq<TrackSetView>,
    x: TrackSetView,
    b: Seq<TrackSetView>,
    id: u32,
)
    ensures
        sets_with_id(a + seq![x] + b, id) == sets_with_id(a, id) + (if x.track_id == id {
            seq![x]
        } else {
            Seq::empty()
        }) + sets_with_id(b, id),
    decreases b.len(),
{
    let all = a + seq![x] + b;
    if b.len() == 0 {
        assert(all.drop_last() =~= a);
    } else {
        assert(all.drop_last() =~= a + seq![x] + b.drop_last());
        assert(all.last() == b.last());
        sets_are_chosen_one_by_one(a, x, b.drop_last(), id);
    }
    assert(sets_with_id(all, id) =~= sets_with_id(a, id) + (if x.track_id == id {
        seq![x]
    } else {
        Seq::empty()
    }) + sets_with_id(b, id));
}

/// Whether the first display set of one track is in front of that of another.
pub open spec fn comes_first(sets: Seq<TrackSetView>, a: u32, b: u32) -> bool {
    exists|i: int|
        0 <= i < sets.len() && (#[trigger] sets[i]).track_id == a && forall|j: int|
            0 <= j <= i ==> (#[trigger] sets[j]).track_id != b
}

/// The tracks of display sets are each there once, and in the order of their first
/// display sets.
pub proof fn tracks_come_in_order(sets: Seq<TrackSetView>)
    ensures
        ids_in_order(sets).no_duplicates(),
        forall|id: u32|
            #[trigger] ids_in_order(sets).contains(id) <==> exists|i: int|
                0 <= i < sets.len() && (#[trigger] sets[i]).track_id == id,
        forall|k: int, l: int|
            0 <= k < l < ids_in_order(sets).len() ==> comes_first(
                sets,
                #[trigger] ids_in_order(sets)[k],
                #[trigger] ids_in_order(sets)[l],
            ),
    decreases sets.len(),
{
    let ids = ids_in_order(sets);
    if sets.len() > 0 {
        let init = sets.drop_last();
        let before = ids_in_order(init);
        let id = sets.last().track_id;
        tracks_come_in_order(init);
        assert forall|x: u32| #[trigger] ids.contains(x) <==> exists|i: int|
            0 <= i < sets.len() && (#[trigger] sets[i]).track_id == x by {
            if ids.contains(x) {
                let k = choose|k: int| 0 <= k < ids.len() && ids[k] == x;
                if k < before.len() {
                    assert(before[k] == x);
                    assert(before.contains(x));
                    let i = choose|i: int|
                        0 <= i < init.len() && (#[trigger] init[i]).track_id == x;
                    assert(sets[i].track_id == x);
                } else {
                    assert(sets[sets.len() - 1].track_id == x);
                }
            }
            if exists|i: int| 0 <= i < sets.len() && (#[trigger] sets[i]).track_id == x {
                let i = choose|i: int| 0 <= i < sets.len() && (#[trigger] sets[i]).track_id == x;
                if i < init.len() {
                    assert(init[i].track_id == x);
                    assert(before.contains(x));
                    let k = choose|k: int| 0 <= k < before.len() && before[k] == x;
                    assert(ids[k] == x);
                } else if !before.contains(id) {
                    assert(ids[before.len() as int] == x);
                }
            }
        }
        assert forall|k: int, l: int| 0 <= k < l < ids.len() implies comes_first(
            sets,
            #[trigger] ids[k],
            #[trigger] ids[l],
        ) by {
            if l < before.len() {
                assert(before[k] == ids[k] && before[l] == ids[l]);
                assert(comes_first(init, before[k], before[l]));
                let i = choose|i: int|
                    0 <= i < init.len() && (#[trigger] init[i]).track_id == ids[k] && forall|j: int|
                        0 <= j <= i ==> (#[trigger] init[j]).track_id != ids[l];
                assert(sets[i].track_id == ids[k]);
                assert forall|j: int| 0 <= j <= i implies (#[trigger] sets[j]).track_id
                    != ids[l] by {
                    assert(init[j].track_id != ids[l]);
                }
            } else {
                assert(ids[l] == id && !before.contains(id));
                assert(before[k] == ids[k]);
                assert(before.contains(ids[k]));
                let i = choose|i: int|
                    0 <= i < init.len() && (#[trigger] init[i]).track_id == ids[k];
                assert(sets[i].track_id == ids[k]);
                assert forall|j: int| 0 <= j <= i implies (#[trigger] sets[j]).track_id
                    != ids[l] by {
                    assert(init[j] == sets[j]);
                }
            }
        }
    }
}

proof fn lemma_info(infos: Seq<TrackInfoView>, j: int)
    requires
        0 <= j < infos.len(),
        forall|i: int, l: int| 0 <= i < l < infos.len() ==> infos[i].track_id != infos[l].track_id,
    ensures
        info_with(infos, infos[j].track_id) == Some(infos[j]),
    decreases infos.len(),
{
    if j < infos.len() - 1 {
        assert(infos[j].track_id != infos[infos.len() - 1].track_id);
        assert(infos.drop_last()[j] == infos[j]);
        lemma_info(infos.drop_last(), j);
    }
}

proof fn lemma_groups(ids: Seq<u32>, sets: Seq<TrackSetView>, infos: Seq<TrackInfoView>, k: int)
    requires
        forall|i: int| 0 <= i < ids.len() ==> info_with(infos, #[trigger] ids[i]) is Some,
        0 <= k < ids.len(),
    ensures
        groups_of(ids, sets, infos).len() == ids.len(),
        groups_of(ids, sets, infos)[k].track == info_with(infos, ids[k])->0,
        groups_of(ids, sets, infos)[k].display_sets == track_sets(sets, ids[k]),
    decreases ids.len(),
{
    let init = ids.drop_last();
    assert(info_with(infos, ids[ids.len() - 1]) is Some);
    assert forall|i: int| 0 <= i < init.len() implies info_with(
        infos,
        #[trigger] init[i],
    ) is Some by {
        assert(init[i] == ids[i]);
    }
    if k < init.len() {
        lemma_groups(init, sets, infos, k);
    } else if init.len() > 0 {
        lemma_groups(init, sets, infos, 0);
    } else {
        assert(groups_of(init, sets, infos) =~= Seq::empty());
    }
}

/// Where the tracks of all display sets are known, and have different identifiers,
/// there is one group for each track that has display sets: that of its display
/// sets, in order, with what is known about the track.
pub proof fn each_track_has_its_group(sets: Seq<TrackSetView>, infos: Seq<TrackInfoView>, k: int)
    requires
        forall|i: int, l: int| 0 <= i < l < infos.len() ==> infos[i].track_id != infos[l].track_id,
        forall|i: int|
            0 <= i < sets.len() ==> exists|j: int|
                0 <= j < infos.len() && (#[trigger] infos[j]).track_id == (
                #[trigger] sets[i]).track_id,
        0 <= k < ids_in_order(sets).len(),
    ensures
        grouped(sets, infos).len() == ids_in_order(sets).len(),
        grouped(sets, infos)[k].track.track_id == ids_in_order(sets)[k],
        infos.contains(grouped(sets, infos)[k].track),
        grouped(sets, infos)[k].display_sets == track_sets(sets, ids_in_order(sets)[k]),
{
    let ids = ids_in_order(sets);
    tracks_come_in_order(sets);
    assert forall|i: int| 0 <= i < ids.len() implies info_with(infos, #[trigger] ids[i]) is Some
        && infos.contains(info_with(infos, ids[i])->0) && info_with(infos, ids[i])->0.track_id
        == ids[i] by {
        assert(ids.contains(ids[i]));
        let m = choose|m: int| 0 <= m < sets.len() && (#[trigger] sets[m]).track_id == ids[i];
        let j = choose|j: int|
            0 <= j < infos.len() && (#[trigger] infos[j]).track_id == sets[m].track_id;
        lemma_info(infos, j);
    }
    lemma_groups(ids, sets, infos, k);
}

/// A display set is kept exactly if it does not come before the start or behind
/// the end of the range.
pub proof fn range_includes_its_ends(r: RangeView, id: u32, pts: u64)
    ensures
        judged(r, id, pts).0 == Verdict::Keep <==> (r.start matches Some(start) ==> start <= pts)
            && (r.end matches Some(end) ==> pts <= end),
        judged(r, id, pts).0 == Verdict::Stop <==> (r.end matches Some(end) && end < pts
            && forall|i: int| 0 <= i < r.waiting.len() ==> #[trigger] r.waiting[i] == id),
        judged(r, id, pts).1.start == r.start,
        judged(r, id, pts).1.end == r.end,
        forall|x: u32|
            #[trigger] judged(r, id, pts).1.waiting.contains(x) <==> r.waiting.contains(x) && !(x
                == id && (r.end matches Some(end) && end < pts)),
{
    lemma_without(r.waiting, id);
    let w = without(r.waiting, id);
    if w.len() == 0 {
        assert forall|i: int| 0 <= i < r.waiting.len() implies #[trigger] r.waiting[i] == id by {
            if r.waiting[i] != id {
                assert(r.waiting.contains(r.waiting[i]));
                assert(w.contains(r.waiting[i]));
            }
        }
    } else {
        assert(w.contains(w[0]));
        assert(r.waiting.contains(w[0]) && w[0] != id);
    }
}

proof fn lemma_without(ids: Seq<u32>, id: u32)
    ensures
        forall|x: u32| #[trigger] without(ids, id).contains(x) <==> ids.contains(x) && x != id,
    decreases ids.len(),
{
    let w = without(ids, id);
    if ids.len() > 0 {
        let init = ids.drop_last();
        let before = without(init, id);
        lemma_without(init, id);
        assert forall|x: u32| #[trigger] w.contains(x) <==> ids.contains(x) && x != id by {
            if w.contains(x) {
                let k = choose|k: int| 0 <= k < w.len() && w[k] == x;
                if k < before.len() {
                    assert(before[k] == x);
                    assert(before.contains(x));
                    let i = choose|i: int| 0 <= i < init.len() && init[i] == x;
                    assert(ids[i] == x);
                } else {
                    assert(ids[ids.len() - 1] == x);
                }
            }
            if ids.contains(x) && x != id {
                let i = choose|i: int| 0 <= i < ids.len() && ids[i] == x;
                if i < init.len() {
                    assert(init[i] == x);
                    assert(before.contains(x));
                    let k = choose|k: int| 0 <= k < before.len() && before[k] == x;
                    assert(w[k] == x);
                } else {
                    assert(w[w.len() - 1] == x);
                }
            }
        }
    }
}

/// A file that starts with the bytes of a Matroska file is one.
pub proof fn matroska_is_told_by_its_start(s: Seq<u8>)
    requires
        s.len() >= 5,
    ensures
        container_of(s) == Ok::<ContainerFormat, ErrorView>(ContainerFormat::Matroska)
            <==> s.take(4) == seq![0x1Au8, 0x45u8, 0xDFu8, 0xA3u8],
{
    let magic = seq![0x1Au8, 0x45u8, 0xDFu8, 0xA3u8];
    let t = s.take(4);
    assert(t[0] == s[0] && t[1] == s[1] && t[2] == s[2] && t[3] == s[3]);
    if s[0] == 0x1A && s[1] == 0x45 && s[2] == 0xDF && s[3] == 0xA3 {
        assert(t =~= magic);
    } else {
        assert(t[0] != magic[0] || t[1] != magic[1] || t[2] != magic[2] || t[3] != magic[3]);
    }
}

/// A file that starts with "PG" is a raw PGS file, unless packets are in it. It has
/// one track, with the identifier 0.
pub proof fn raw_files_are_told_by_their_start(
    s: Seq<u8>,
    languages: Map<u16, Seq<char>>,
    filter: Option<Seq<u32>>,
)
    requires
        s.len() >= 5,
        s[0] == 0x50,
        s[1] == 0x47,
        s[4] != 0x47,
    ensures
        container_of(s) == Ok::<ContainerFormat, ErrorView>(ContainerFormat::Sup),
        file_of(s, languages) == Ok::<FileView, ErrorView>(FileView::Sup),
        file_infos(FileView::Sup, filter) == if leaves(filter, 0) {
            seq![
                TrackInfoView {
                    track_id: 0,
                    language: None,
                    container: ContainerFormat::Sup,
                    name: None,
                    flag_default: None,
                    flag_forced: None,
                    display_set_count: None,
                    has_cues: None,
                },
            ]
        } else {
            Seq::empty()
        },
{
    if filter is Some {
        let ids = filter->0;
        assert(ids.contains(0) <==> leaves(filter, 0));
    }
}

/// A file of packets is a transport stream, with timecodes or without.
pub proof fn transport_streams_are_told_by_their_packets(
    s: Seq<u8>,
    ks: Seq<Packet>,
    format: PacketFormat,
)
    requires
        ks.len() >= 7,
        forall|i: int| 0 <= i < ks.len() ==> is_packet(#[trigger] ks[i]),
        holds(s, 0, packets_bytes(ks, format)),
        format is RawTs ==> s[4] != 0x47,
        s.take(4) != seq![0x1Au8, 0x45u8, 0xDFu8, 0xA3u8],
    ensures
        container_of(s) == Ok::<ContainerFormat, ErrorView>(
            match format {
                PacketFormat::M2ts => ContainerFormat::M2ts,
                PacketFormat::RawTs => ContainerFormat::TransportStream,
            },
        ),
{
    written_packets_tell_their_format(s, ks, format);
    matroska_is_told_by_its_start(s);
    assert(format is RawTs ==> s[0] == 0x47);
    assert(format is M2ts ==> s[4] == 0x47);
}

/// Of several tracks with one identifier, what is known about the last one counts.
pub proof fn last_info_counts(a: Seq<TrackInfoView>, x: TrackInfoView, b: Seq<TrackInfoView>)
    requires
        forall|i: int| 0 <= i < b.len() ==> (#[trigger] b[i]).track_id != x.track_id,
    ensures
        info_with(a + seq![x] + b, x.track_id) == Some(x),
    decreases b.len(),
{
    let all = a + seq![x] + b;
    if b.len() == 0 {
        assert(all.last() == x);
    } else {
        assert(all.drop_last() =~= a + seq![x] + b.drop_last());
        assert(all.last() == b[b.len() - 1]);
        last_info_counts(a, x, b.drop_last());
    }
}

/// Of several Matroska tracks with one number, the last one counts, with its
/// language.
pub proof fn last_track_counts(a: Seq<TrackView>, x: TrackView, b: Seq<TrackView>)
    requires
        forall|i: int| 0 <= i < b.len() ==> (#[trigger] b[i]).track_number != x.track_number,
    ensures
        track_with(a + seq![x] + b, x.track_number) == Some(x),
        language_of(a + seq![x] + b, x.track_number) == x.language,
    decreases b.len(),
{
    let all = a + seq![x] + b;
    if b.len() == 0 {
        assert(all.last() == x);
    } else {
        assert(all.drop_last() =~= a + seq![x] + b.drop_last());
        assert(all.last() == b[b.len() - 1]);
        last_track_counts(a, x, b.drop_last());
    }
}

/// Of several streams with one packet identifier, the language of the last one
/// counts.
pub proof fn last_stream_counts(a: Seq<M2tsTrackView>, x: M2tsTrackView, b: Seq<M2tsTrackView>)
    requires
        forall|i: int| 0 <= i < b.len() ==> (#[trigger] b[i]).pid != x.pid,
    ensures
        pid_language(a + seq![x] + b, x.pid) == x.language,
    decreases b.len(),
{
    let all = a + seq![x] + b;
    if b.len() == 0 {
        assert(all.last() == x);
    } else {
        assert(all.drop_last() =~= a + seq![x] + b.drop_last());
        assert(all.last() == b[b.len() - 1]);
        last_stream_counts(a, x, b.drop_last());
    }
}

/// The display sets of a track keep the order in which they came.
pub proof fn sets_of_a_track_keep_their_order(a: Seq<TrackSetView>, b: Seq<TrackSetView>, id: u32)
    ensures
        sets_with_id(a + b, id) == sets_with_id(a, id) + sets_with_id(b, id),
        track_sets(a + b, id) == track_sets(a, id) + track_sets(b, id),
    decreases b.len(),
{
    if b.len() == 0 {
        assert(a + b =~= a);
    } else {
        assert((a + b).drop_last() =~= a + b.drop_last());
        assert((a + b).last() == b.last());
        sets_of_a_track_keep_their_order(a, b.drop_last(), id);
    }
    assert(sets_with_id(a + b, id) =~= sets_with_id(a, id) + sets_with_id(b, id));
    assert(track_sets(a + b, id) =~= track_sets(a, id) + track_sets(b, id));
}

} // verus!
