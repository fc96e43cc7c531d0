//! PGS tracks in transport streams.
pub mod clpi;
pub mod pat;
pub mod pes;
pub mod pmt;
pub mod probe;
pub mod seeking;
pub mod stream;
pub mod ts_packet;

use crate::error::{ErrorView, PgsError};
use crate::io::reader::{counted, SeekBufReader, Source};
use crate::lang::{language_normalized, normalize_language};
use crate::m2ts::clpi::language_map_view;
use crate::m2ts::pat::{find_pat, pat_in, pat_reads, PatEntry};
use crate::m2ts::pmt::{
    find_pgs_streams, find_pmt, pgs_streams, pmt_in, pmt_reads, stream_ref_views, PmtStream,
    PmtStreamView,
};
use crate::m2ts::ts_packet::{
    detect_packet_format, detected_format, detection_reads, PacketFormat,
};
use crate::mkv::tracks::text_view;
use crate::track::{copy_text, ContainerFormat, PgsTrackInfo, TrackInfoView};
use std::collections::HashMap;
use vstd::prelude::*;

verus! {

/// A PGS track.
#[derive(Debug)]
pub struct M2tsPgsTrack {
    pub pid: u16,
    pub language: Option<String>,
}

/// A track as a mathematical value.
#[verifier::ext_equal]
pub struct M2tsTrackView {
    pub pid: u16,
    pub language: Option<Seq<char>>,
}

impl View for M2tsPgsTrack {
    type V = M2tsTrackView;

    open spec fn view(&self) -> M2tsTrackView {
        M2tsTrackView { pid: self.pid, language: text_view(self.language) }
    }
}

impl Clone for M2tsPgsTrack {
    fn clone(&self) -> (r: Self)
        ensures
            r@ == self@,
    {
        M2tsPgsTrack { pid: self.pid, language: copy_text(&self.language) }
    }
}

/// The views of tracks.
pub open spec fn m2ts_track_views(tracks: Seq<M2tsPgsTrack>) -> Seq<M2tsTrackView> {
    Seq::new(tracks.len(), |i: int| tracks[i]@)
}

/// What extraction needs to know about a file.
pub struct M2tsMetadata {
    /// The packet format.
    pub format: PacketFormat,
    /// The PGS tracks.
    pub tracks: Vec<M2tsPgsTrack>,
    /// The packet identifiers of the PGS tracks.
    pub pgs_pids: Vec<u16>,
    /// The size of the file.
    pub file_size: u64,
}

/// Metadata as a mathematical value.
#[verifier::ext_equal]
pub struct M2tsMetadataView {
    pub format: PacketFormat,
    pub tracks: Seq<M2tsTrackView>,
    pub pgs_pids: Seq<u16>,
    pub file_size: u64,
}

impl View for M2tsMetadata {
    type V = M2tsMetadataView;

    open spec fn view(&self) -> M2tsMetadataView {
        M2tsMetadataView {
            format: self.format,
            tracks: m2ts_track_views(self.tracks@),
            pgs_pids: self.pgs_pids@,
            file_size: self.file_size,
        }
    }
}

/// The track of a stream. Its language has its shortest form; where the map
/// table names none, the clip information may.
pub open spec fn track_of_stream(
    stream: PmtStreamView,
    languages: Map<u16, Seq<char>>,
) -> M2tsTrackView {
    M2tsTrackView {
        pid: stream.elementary_pid,
        language: match stream.language {
            Some(l) => Some(language_normalized(l)),
            None => if languages.contains_key(stream.elementary_pid) {
                Some(languages[stream.elementary_pid])
            } else {
                None
            },
        },
    }
}

/// The tracks of streams.
pub open spec fn tracks_of_streams(
    streams: Seq<PmtStreamView>,
    languages: Map<u16, Seq<char>>,
) -> Seq<M2tsTrackView> {
    Seq::new(streams.len(), |i: int| track_of_stream(streams[i], languages))
}

/// The PGS tracks of programs, in order, and the position behind the map table
/// of the last one, or 0 if there are none.
pub open spec fn tracks_of_programs(
    s: Seq<u8>,
    format: PacketFormat,
    programs: Seq<PatEntry>,
    languages: Map<u16, Seq<char>>,
) -> Result<(Seq<M2tsTrackView>, int), ErrorView>
    decreases programs.len(),
{
    if programs.len() == 0 {
        Ok((Seq::empty(), 0))
    } else {
        match tracks_of_programs(s, format, programs.drop_last(), languages) {
            Err(e) => Err(e),
            Ok((before, _)) => match pmt_in(s, format, programs.last().pmt_pid) {
                Err(e) => Err(e),
                Ok((streams, next)) => Ok(
                    (before + tracks_of_streams(pgs_streams(streams), languages), next),
                ),
            },
        }
    }
}

/// The PGS tracks of a file, and the position behind the last map table.
pub open spec fn tracks_in(
    s: Seq<u8>,
    format: PacketFormat,
    languages: Map<u16, Seq<char>>,
) -> Result<(Seq<M2tsTrackView>, int), ErrorView> {
    match pat_in(s, format) {
        Err(e) => Err(e),
        Ok(programs) => tracks_of_programs(s, format, programs, languages),
    }
}

/// The number of bytes that finding the PGS tracks of programs reads, up to the
/// first that fails.
pub open spec fn programs_reads(
    s: Seq<u8>,
    format: PacketFormat,
    programs: Seq<PatEntry>,
    languages: Map<u16, Seq<char>>,
) -> int
    decreases programs.len(),
{
    if programs.len() == 0 {
        0
    } else {
        let init = programs.drop_last();
        programs_reads(s, format, init, languages) + match tracks_of_programs(
            s,
            format,
            init,
            languages,
        ) {
            Err(_) => 0,
            Ok(_) => pmt_reads(s, format, programs.last().pmt_pid),
        }
    }
}

/// The number of bytes that finding the PGS tracks of a file reads: the packets
/// up to its tables.
pub open spec fn discovery_reads(
    s: Seq<u8>,
    format: PacketFormat,
    languages: Map<u16, Seq<char>>,
) -> int {
    pat_reads(s, format) + match pat_in(s, format) {
        Err(_) => 0,
        Ok(programs) => programs_reads(s, format, programs, languages),
    }
}

/// The number of bytes that listing the PGS tracks of a file reads.
pub open spec fn listing_reads(s: Seq<u8>, languages: Map<u16, Seq<char>>) -> int {
    detection_reads(s) + match detected_format(s) {
        Err(_) => 0,
        Ok(format) => discovery_reads(s, format, languages),
    }
}

/// The packet identifiers of tracks.
pub open spec fn pids_of(tracks: Seq<M2tsTrackView>) -> Seq<u16> {
    Seq::new(tracks.len(), |i: int| tracks[i].pid)
}

/// The format and the PGS tracks of a file, and the position behind the last map
/// table.
pub open spec fn listed(s: Seq<u8>, languages: Map<u16, Seq<char>>) -> Result<
    (PacketFormat, Seq<M2tsTrackView>, int),
    ErrorView,
> {
    match detected_format(s) {
        Err(e) => Err(e),
        Ok(format) => match tracks_in(s, format, languages) {
            Err(e) => Err(e),
            Ok((tracks, next)) => Ok((format, tracks, next)),
        },
    }
}

/// What extraction needs to know about a file, and the position behind the last
/// map table. A file without PGS tracks is an error.
pub open spec fn m2ts_metadata_of(s: Seq<u8>, languages: Map<u16, Seq<char>>) -> Result<
    (M2tsMetadataView, int),
    ErrorView,
> {
    match listed(s, languages) {
        Err(e) => Err(e),
        Ok((format, tracks, next)) => if tracks.len() == 0 {
            Err(ErrorView::NoPgsTracks)
        } else {
            Ok(
                (
                    M2tsMetadataView {
                        format,
                        tracks,
                        pgs_pids: pids_of(tracks),
                        file_size: s.len() as u64,
                    },
                    next,
                ),
            )
        },
    }
}

/// The track of a stream.
fn make_track(stream: &PmtStream, languages: &HashMap<u16, String>) -> (r: M2tsPgsTrack)
    ensures
        r@ == track_of_stream(stream@, language_map_view(languages@)),
{
    broadcast use vstd::std_specs::hash::group_hash_axioms;

    let language = match &stream.language {
        Some(l) => Some(normalize_language(l.as_str())),
        None => match languages.get(&stream.elementary_pid) {
            Some(l) => Some(l.clone()),
            None => None,
        },
    };
    M2tsPgsTrack { pid: stream.elementary_pid, language }
}

proof fn lemma_program_error(
    s: Seq<u8>,
    format: PacketFormat,
    programs: Seq<PatEntry>,
    languages: Map<u16, Seq<char>>,
    n: int,
)
    requires
        0 <= n <= programs.len(),
        tracks_of_programs(s, format, programs.take(n), languages) is Err,
    ensures
        tracks_of_programs(s, format, programs, languages) == tracks_of_programs(
            s,
            format,
            programs.take(n),
            languages,
        ),
        programs_reads(s, format, programs, languages) == programs_reads(
            s,
            format,
            programs.take(n),
            languages,
        ),
    decreases programs.len(),
{
    if n == programs.len() {
        assert(programs.take(n) =~= programs);
    } else {
        assert(programs.drop_last().take(n) =~= programs.take(n));
        lemma_program_error(s, format, programs.drop_last(), languages, n);
    }
}

/// Finds the PGS tracks of a file by its association and map tables.
///
/// `languages` gives the languages that clip information names, for tracks
/// whose map table names none.
pub fn discover_pgs_tracks<R: Source>(
    reader: &mut SeekBufReader<R>,
    format: PacketFormat,
    languages: &HashMap<u16, String>,
) -> (r: Result<Vec<M2tsPgsTrack>, PgsError>)
    ensures
        final(reader).bytes() == old(reader).bytes(),
        ({
            let reads = discovery_reads(
                old(reader).bytes(),
                format,
                language_map_view(languages@),
            );
            &&& final(reader).consumed() == counted(old(reader).consumed(), reads)
            &&& reads >= 0
        }),
        match (r, tracks_in(old(reader).bytes(), format, language_map_view(languages@))) {
            (Ok(tracks), Ok((v, next))) => m2ts_track_views(tracks@) == v && (tracks@.len() > 0
                ==> final(reader).at() == next),
            (Err(e), Err(v)) => e@ == v,
            _ => false,
        },
{
    let ghost s = reader.bytes();
    let ghost names = language_map_view(languages@);
    let programs = match find_pat(reader, format) {
        Ok(p) => p,
        Err(e) => {
            return Err(e);
        },
    };
    let mut tracks: Vec<M2tsPgsTrack> = Vec::new();
    let mut i: usize = 0;
    assert(m2ts_track_views(tracks@) =~= Seq::<M2tsTrackView>::empty());
    while i < programs.len()
        invariant
            i <= programs@.len(),
            reader.bytes() == s,
            ({
                let done = pat_reads(s, format) + programs_reads(
                    s,
                    format,
                    programs@.take(i as int),
                    names,
                );
                &&& reader.consumed() == counted(old(reader).consumed(), done)
                &&& done >= 0
            }),
            s == old(reader).bytes(),
            names == language_map_view(languages@),
            pat_in(s, format) == Ok::<Seq<PatEntry>, ErrorView>(programs@),
            tracks_of_programs(s, format, programs@.take(i as int), names) matches Ok((v, next))
                && v == m2ts_track_views(tracks@) && (i > 0 ==> reader.at() == next),
        decreases programs@.len() - i,
    {
        let ghost some = programs@.take(i + 1);
        assert(some.drop_last() =~= programs@.take(i as int));
        let streams = match find_pmt(reader, format, programs[i].pmt_pid) {
            Ok(streams) => streams,
            Err(e) => {
                proof {
                    lemma_program_error(s, format, programs@, names, i + 1);
                }
                return Err(e);
            },
        };
        let found = find_pgs_streams(streams.as_slice());
        let ghost before = m2ts_track_views(tracks@);
        let ghost wanted = stream_ref_views(found@);
        let ghost made = tracks_of_streams(wanted, names);
        let mut k: usize = 0;
        assert(before + made.take(0) =~= before);
        while k < found.len()
            invariant
                k <= found@.len(),
                names == language_map_view(languages@),
                wanted == stream_ref_views(found@),
                made == tracks_of_streams(wanted, names),
                m2ts_track_views(tracks@) == before + made.take(k as int),
            decreases found@.len() - k,
        {
            let track = make_track(found[k], languages);
            let ghost had = m2ts_track_views(tracks@);
            proof {
                assert(track@ == made[k as int]);
            }
            tracks.push(track);
            k += 1;
            assert(m2ts_track_views(tracks@) =~= had.push(track@));
            assert(before + made.take(k as int) =~= had.push(track@));
        }
        assert(made.take(k as int) =~= made);
        i += 1;
    }
    assert(programs@.take(i as int) =~= programs@);
    Ok(tracks)
}

/// The PGS tracks of a file.
pub fn list_pgs_tracks_m2ts<R: Source>(
    reader: &mut SeekBufReader<R>,
    languages: &HashMap<u16, String>,
) -> (r: Result<Vec<M2tsPgsTrack>, PgsError>)
    ensures
        final(reader).bytes() == old(reader).bytes(),
        ({
            let reads = listing_reads(old(reader).bytes(), language_map_view(languages@));
            &&& final(reader).consumed() == counted(old(reader).consumed(), reads)
            &&& reads >= 0
        }),
        match (r, listed(old(reader).bytes(), language_map_view(languages@))) {
            (Ok(tracks), Ok((_, v, _))) => m2ts_track_views(tracks@) == v,
            (Err(e), Err(v)) => e@ == v,
            _ => false,
        },
{
    match detect_packet_format(reader) {
        Ok(format) => discover_pgs_tracks(reader, format, languages),
        Err(e) => Err(e),
    }
}

/// Reads all that extraction needs to know about a file.
pub fn prepare_m2ts_metadata<R: Source>(
    reader: &mut SeekBufReader<R>,
    languages: &HashMap<u16, String>,
) -> (r: Result<M2tsMetadata, PgsError>)
    ensures
        final(reader).bytes() == old(reader).bytes(),
        ({
            let reads = listing_reads(old(reader).bytes(), language_map_view(languages@));
            &&& final(reader).consumed() == counted(old(reader).consumed(), reads)
            &&& reads >= 0
        }),
        match (r, m2ts_metadata_of(old(reader).bytes(), language_map_view(languages@))) {
            (Ok(m), Ok((v, next))) => m@ == v && final(reader).at() == next,
            (Err(e), Err(v)) => e@ == v,
            _ => false,
        },
{
    let format = match detect_packet_format(reader) {
        Ok(format) => format,
        Err(e) => {
            return Err(e);
        },
    };
    let tracks = match discover_pgs_tracks(reader, format, languages) {
        Ok(tracks) => tracks,
        Err(e) => {
            return Err(e);
        },
    };
    if tracks.len() == 0 {
        return Err(PgsError::NoPgsTracks);
    }
    let mut pgs_pids: Vec<u16> = Vec::new();
    let ghost pids = pids_of(m2ts_track_views(tracks@));
    let mut i: usize = 0;
    while i < tracks.len()
        invariant
            i <= tracks@.len(),
            pids == pids_of(m2ts_track_views(tracks@)),
            pgs_pids@ == pids.take(i as int),
        decreases tracks@.len() - i,
    {
        pgs_pids.push(tracks[i].pid);
        i += 1;
        assert(pgs_pids@ =~= pids.take(i as int));
    }
    assert(pgs_pids@ =~= pids);
    match reader.file_size() {
        Ok(file_size) => Ok(M2tsMetadata { format, tracks, pgs_pids, file_size }),
        Err(e) => Err(e),
    }
}

/// What is known about a track.
pub open spec fn m2ts_info(t: M2tsTrackView, container: ContainerFormat) -> TrackInfoView {
    TrackInfoView {
        track_id: t.pid as u32,
        language: t.language,
        container,
        name: None,
        flag_default: None,
        flag_forced: None,
        display_set_count: None,
        has_cues: None,
    }
}

/// Gathers what is known about a track.
pub fn m2ts_track_to_info(t: &M2tsPgsTrack, format: ContainerFormat) -> (r: PgsTrackInfo)
    ensures
        r@ == m2ts_info(t@, format),
{
    PgsTrackInfo {
        track_id: t.pid as u32,
        language: copy_text(&t.language),
        container: format,
        name: None,
        flag_default: None,
        flag_forced: None,
        display_set_count: None,
        has_cues: None,
    }
}

} // verus!
