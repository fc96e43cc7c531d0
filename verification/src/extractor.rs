//! Display sets of any supported file, one at a time.
use vstd::prelude::*;
use crate::error::{ErrorView, IoError, PgsError};
use crate::io::reader::{counted, SeekBufReader, Source};
use crate::lists::contains_u32;
use crate::m2ts::clpi::language_map_view;
use crate::m2ts::seeking::{time_start, time_start_reads, SEEK_PROBES, SEEK_WINDOW};
use crate::m2ts::stream::{
    active_pids, fresh_pid_slots, m2ts_infos, m2ts_next, m2ts_next_reads, M2tsConfig,
    M2tsExtractorState, M2tsProgress,
};
use crate::m2ts::ts_packet::{
    detect_packet_format, detected_format, detection_reads, PacketFormat,
};
use crate::m2ts::{
    list_pgs_tracks_m2ts, listed, listing_reads, m2ts_metadata_of, m2ts_track_to_info,
    m2ts_track_views, prepare_m2ts_metadata, M2tsMetadataView,
};
use crate::mkv::assemblers::{fresh_states, processed, results_of};
use crate::mkv::cluster::{block_views, PgsBlock};
use crate::mkv::cues::PgsCuePoint;
use crate::mkv::header::FloatBits;
use crate::mkv::indexed::chunk_views;
use crate::mkv::order::blocks_in_order;
use crate::mkv::stream::{
    fresh_mkv_config, fresh_mkv_progress, mkv_infos, mkv_step, mkv_step_base, mkv_step_reads,
    parallel_plan, with_infos, MkvConfig, MkvExtractorState, MkvProgress,
};
use crate::mkv::{metadata_of, metadata_reads, prepare_mkv_metadata, MetadataView};
use crate::pgs::display_set::{fresh_assembler, AssemblerView};
use crate::sup::stream::{
    in_front_of, magic_reads, sup_next, sup_next_reads, sup_set, sup_span, sup_span_reads,
    sup_start, SupExtractorState,
};
use crate::track::{
    filter_view, info_views, sup_info, sup_track_info, track_set_views, track_sets_views,
    ContainerFormat, ExtractionStats, MkvStrategy, PgsTrackInfo, TrackDisplaySet, TrackDisplaySets,
    TrackInfoView, TrackSetView,
};
use std::collections::HashMap;

verus! {

/// The buffer size for scanning transport streams.
const M2TS_BUF_SIZE: usize = 2097152;

/// The container format of a file, by its first bytes.
pub open spec fn container_of(s: Seq<u8>) -> Result<ContainerFormat, ErrorView> {
    if s.len() < 5 {
        Err(ErrorView::Io(IoError::UnexpectedEof))
    } else if s[0] == 0x1A && s[1] == 0x45 && s[2] == 0xDF && s[3] == 0xA3 {
        Ok(ContainerFormat::Matroska)
    } else if (s[0] == 0x47 || s[4] == 0x47) && detected_format(s) is Ok {
        match detected_format(s)->Ok_0 {
            PacketFormat::M2ts => Ok(ContainerFormat::M2ts),
            PacketFormat::RawTs => Ok(ContainerFormat::TransportStream),
        }
    } else if s[0] == 0x50 && s[1] == 0x47 {
        Ok(ContainerFormat::Sup)
    } else {
        Err(ErrorView::UnknownFormat)
    }
}

/// The number of bytes that detecting the container format of a file reads.
pub open spec fn format_reads(s: Seq<u8>) -> int {
    if s.len() < 5 {
        0
    } else if !(s[0] == 0x1A && s[1] == 0x45 && s[2] == 0xDF && s[3] == 0xA3) && (s[0] == 0x47
        || s[4] == 0x47) {
        5 + detection_reads(s)
    } else {
        5
    }
}

/// Detects the container format by the first bytes of a file.
pub fn detect_format<R: Source>(reader: &mut SeekBufReader<R>) -> (r: Result<
    ContainerFormat,
    PgsError,
>)
    ensures
        final(reader).bytes() == old(reader).bytes(),
        ({
            let reads = format_reads(old(reader).bytes());
            &&& final(reader).consumed() == counted(old(reader).consumed(), reads)
            &&& reads >= 0
        }),
        match (r, container_of(old(reader).bytes())) {
            (Ok(f), Ok(v)) => f == v,
            (Err(e), Err(v)) => e@ == v,
            _ => false,
        },
{
    let _ = reader.seek_to(0);
    let magic = match reader.read_bytes(5) {
        Ok(m) => m,
        Err(e) => {
            return Err(e);
        },
    };
    if magic[0] == 0x1A && magic[1] == 0x45 && magic[2] == 0xDF && magic[3] == 0xA3 {
        return Ok(ContainerFormat::Matroska);
    }
    if magic[0] == 0x47 || magic[4] == 0x47 {
        match detect_packet_format(reader) {
            Ok(PacketFormat::M2ts) => {
                return Ok(ContainerFormat::M2ts);
            },
            Ok(PacketFormat::RawTs) => {
                return Ok(ContainerFormat::TransportStream);
            },
            Err(_) => {},
        }
    }
    if magic[0] == 0x50 && magic[1] == 0x47 {
        return Ok(ContainerFormat::Sup);
    }
    Err(PgsError::UnknownFormat)
}

/// What is known about a file.
pub enum FileView {
    Mkv(MetadataView),
    /// With the position where scanning starts.
    M2ts(M2tsMetadataView, u64, ContainerFormat),
    Sup,
}

/// What is known about a file, with the languages that clip information names.
pub open spec fn file_of(s: Seq<u8>, languages: Map<u16, Seq<char>>) -> Result<
    FileView,
    ErrorView,
> {
    match container_of(s) {
        Err(e) => Err(e),
        Ok(ContainerFormat::Matroska) => match metadata_of(s) {
            Err(e) => Err(e),
            Ok(m) => Ok(FileView::Mkv(m)),
        },
        Ok(ContainerFormat::Sup) => Ok(FileView::Sup),
        Ok(container) => match m2ts_metadata_of(s, languages) {
            Err(e) => Err(e),
            Ok((m, start)) => Ok(FileView::M2ts(m, start as u64, container)),
        },
    }
}

/// The number of bytes that are read to open a file.
pub open spec fn open_reads(s: Seq<u8>, languages: Map<u16, Seq<char>>) -> int {
    format_reads(s) + match container_of(s) {
        Err(_) => 0,
        Ok(ContainerFormat::Matroska) => metadata_reads(s),
        Ok(ContainerFormat::Sup) => 0,
        Ok(_) => listing_reads(s, languages),
    }
}

/// An extraction as a mathematical value.
pub enum ExtractionView {
    Mkv(MkvConfig, MkvProgress),
    M2ts(M2tsConfig, M2tsProgress),
    Sup { bytes: Seq<u8>, pos: int, assembler: AssemblerView },
}

/// An extraction that has not started, of the tracks that a filter of
/// identifiers leaves.
pub open spec fn fresh_extraction(
    s: Seq<u8>,
    file: FileView,
    filter: Option<Seq<u32>>,
    strategy: MkvStrategy,
) -> ExtractionView {
    match file {
        FileView::Mkv(m) => ExtractionView::Mkv(
            fresh_mkv_config(s, m, filter, strategy),
            fresh_mkv_progress(m, filter),
        ),
        FileView::M2ts(m, start, container) => ExtractionView::M2ts(
            M2tsConfig { bytes: s, format: m.format, container, end: m.file_size as int },
            M2tsProgress {
                pos: start as int,
                slots: fresh_pid_slots(active_pids(m.pgs_pids, filter), m.tracks),
                pending: Seq::empty(),
                flushed: false,
            },
        ),
        FileView::Sup => ExtractionView::Sup { bytes: s, pos: 0, assembler: fresh_assembler() },
    }
}

/// What is known about the tracks of a file that a filter of identifiers
/// leaves. The one track of a raw PGS file has the identifier 0.
pub open spec fn file_infos(file: FileView, filter: Option<Seq<u32>>) -> Seq<TrackInfoView> {
    match file {
        FileView::Mkv(m) => mkv_infos(m.pgs_tracks, m.frame_counts, m.cue_points, filter),
        FileView::M2ts(m, _, container) => m2ts_infos(m.tracks, container, filter),
        FileView::Sup => match filter {
            Some(ids) => if ids.contains(0) {
                seq![sup_info()]
            } else {
                Seq::empty()
            },
            None => seq![sup_info()],
        },
    }
}

/// The next outcome of an extraction and the extraction after it.
pub open spec fn extraction_next(x: ExtractionView) -> (
    Option<Result<TrackSetView, ErrorView>>,
    ExtractionView,
) {
    match x {
        ExtractionView::Mkv(c, p) => {
            let (outcome, after) = mkv_step(c, p);
            (outcome, ExtractionView::Mkv(c, after))
        },
        ExtractionView::M2ts(c, p) => {
            let (outcome, after) = m2ts_next(c, p);
            (outcome, ExtractionView::M2ts(c, after))
        },
        ExtractionView::Sup { bytes, pos, assembler } => {
            let (outcome, next, after) = sup_next(bytes, pos, assembler);
            (
                match outcome {
                    Some(Ok(ds)) => Some(Ok(sup_set(ds))),
                    Some(Err(e)) => Some(Err(e)),
                    None => None,
                },
                ExtractionView::Sup { bytes, pos: next, assembler: after },
            )
        },
    }
}

/// The number of bytes that are read for the next outcome of an extraction.
pub open spec fn extraction_reads(x: ExtractionView) -> int {
    match x {
        ExtractionView::Mkv(c, p) => mkv_step_reads(c, p),
        ExtractionView::M2ts(c, p) => m2ts_next_reads(c, p),
        ExtractionView::Sup { bytes, pos, assembler } => sup_next_reads(bytes, pos, assembler),
    }
}

/// The number of bytes read after the next outcome of an extraction, with
/// `before` of them read already. A Matroska extraction that turns to reading in
/// file order counts anew.
pub open spec fn read_after(x: ExtractionView, before: u64) -> u64 {
    match x {
        ExtractionView::Mkv(c, p) => counted(mkv_step_base(c, p, before), extraction_reads(x)),
        _ => counted(before, extraction_reads(x)),
    }
}

/// The extraction of one of the supported formats.
enum ExtractorInner<R: Source> {
    Mkv(MkvExtractorState<R>),
    M2ts(M2tsExtractorState<R>),
    Sup(SupExtractorState<R>),
}

impl<R: Source> ExtractorInner<R> {
    spec fn extraction(&self) -> ExtractionView {
        match self {
            ExtractorInner::Mkv(state) => ExtractionView::Mkv(state.config(), state.progress()),
            ExtractorInner::M2ts(state) => ExtractionView::M2ts(state.config(), state.progress()),
            ExtractorInner::Sup(state) => ExtractionView::Sup {
                bytes: state.bytes(),
                pos: state.at() as int,
                assembler: state.assembler(),
            },
        }
    }

    spec fn bytes(&self) -> Seq<u8> {
        match self {
            ExtractorInner::Mkv(state) => state.config().bytes,
            ExtractorInner::M2ts(state) => state.config().bytes,
            ExtractorInner::Sup(state) => state.bytes(),
        }
    }

    spec fn file(&self) -> FileView {
        match self {
            ExtractorInner::Mkv(state) => FileView::Mkv(state.meta()),
            ExtractorInner::M2ts(state) => FileView::M2ts(
                state.origin().0,
                state.origin().1,
                state.config().container,
            ),
            ExtractorInner::Sup(_) => FileView::Sup,
        }
    }

    spec fn wf(&self) -> bool {
        match self {
            ExtractorInner::Mkv(state) => state.wf(),
            _ => true,
        }
    }

    spec fn consumed(&self) -> u64 {
        match self {
            ExtractorInner::Mkv(state) => state.consumed(),
            ExtractorInner::M2ts(state) => state.consumed(),
            ExtractorInner::Sup(state) => state.consumed(),
        }
    }

    /// Whether it is still open where blocks come from.
    spec fn is_undecided(&self) -> bool {
        match self {
            ExtractorInner::Mkv(state) => state.progress().source is Uninitialized,
            _ => false,
        }
    }

    /// Whether nothing stands in the way of the next display set.
    spec fn is_live(&self) -> bool {
        match self {
            ExtractorInner::Sup(state) => !state.is_done(),
            _ => true,
        }
    }
}

impl<R: Source> ExtractorInner<R> {
    fn bytes_read(&self) -> (r: u64)
        ensures
            r == self.consumed(),
    {
        match self {
            ExtractorInner::Mkv(state) => state.bytes_read(),
            ExtractorInner::M2ts(state) => state.bytes_read(),
            ExtractorInner::Sup(state) => state.bytes_read(),
        }
    }

    fn next_display_set(&mut self) -> (r: Option<Result<TrackDisplaySet, PgsError>>)
        requires
            old(self).wf(),
            old(self).is_live(),
        ensures
            final(self).wf(),
            final(self).bytes() == old(self).bytes(),
            final(self).file() == old(self).file(),
            !final(self).is_undecided(),
            !old(self).is_undecided() ==> final(self).consumed() >= old(self).consumed(),
            final(self).consumed() == read_after(old(self).extraction(), old(self).consumed()),
            match (r, extraction_next(old(self).extraction()).0) {
                (Some(Ok(tds)), Some(Ok(v))) => {
                    &&& tds@ == v
                    &&& final(self).is_live()
                    &&& final(self).extraction() == extraction_next(old(self).extraction()).1
                },
                (Some(Err(e)), Some(Err(v))) => e@ == v,
                (None, None) => true,
                _ => false,
            },
    {
        match self {
            ExtractorInner::Mkv(state) => state.next_display_set(),
            ExtractorInner::M2ts(state) => state.next_display_set(),
            ExtractorInner::Sup(state) => state.next_display_set(),
        }
    }
}

/// Extracts display sets one at a time.
///
/// Display sets come in file order, those of several tracks interleaved. What
/// has been handed out is kept as history, unless that is switched off.
pub struct Extractor<R: Source> {
    inner: ExtractorInner<R>,
    done: bool,
    catalog: Vec<TrackDisplaySet>,
    keep_history: bool,
    tracks: Vec<PgsTrackInfo>,
    stats: ExtractionStats,
    mkv_strategy: MkvStrategy,
    opened: u64,
}

impl<R: Source> Extractor<R> {
    /// The bytes of the file.
    pub closed spec fn bytes(&self) -> Seq<u8> {
        self.inner.bytes()
    }

    /// What is known about the file.
    pub closed spec fn file(&self) -> FileView {
        self.inner.file()
    }

    /// The extraction.
    pub closed spec fn extraction(&self) -> ExtractionView {
        self.inner.extraction()
    }

    /// Whether the extraction has ended.
    pub closed spec fn is_done(&self) -> bool {
        self.done
    }

    /// What has been handed out and kept.
    pub closed spec fn kept(&self) -> Seq<TrackSetView> {
        track_set_views(self.catalog@)
    }

    /// Whether what is handed out is kept.
    pub closed spec fn keeps_history(&self) -> bool {
        self.keep_history
    }

    /// What is known about the extracted tracks.
    pub closed spec fn infos(&self) -> Seq<TrackInfoView> {
        info_views(self.tracks@)
    }

    /// How the clusters of a Matroska file are visited.
    pub closed spec fn strategy(&self) -> MkvStrategy {
        self.mkv_strategy
    }

    /// What has been read.
    pub closed spec fn statistics(&self) -> ExtractionStats {
        self.stats
    }

    /// The number of bytes that have been read.
    pub closed spec fn consumed(&self) -> u64 {
        self.inner.consumed()
    }

    /// The number of bytes that were read to open the file.
    pub closed spec fn opened(&self) -> u64 {
        self.opened
    }

    /// Whether a display set of a Matroska file has been handed out.
    pub closed spec fn has_yielded(&self) -> bool {
        match self.inner {
            ExtractorInner::Mkv(state) => state.has_yielded(),
            _ => false,
        }
    }

    /// Whether the extraction is in order.
    pub closed spec fn wf(&self) -> bool {
        &&& self.inner.wf()
        &&& !self.done ==> self.inner.is_live()
        &&& self.stats.file_size == self.inner.bytes().len()
        &&& if self.inner.is_undecided() {
            self.stats.bytes_read == 0
        } else {
            self.stats.bytes_read <= self.inner.consumed()
        }
    }

    /// Whether the extraction is one that has not started, of the tracks that a
    /// filter of identifiers leaves.
    pub open spec fn is_fresh(
        &self,
        bytes: Seq<u8>,
        file: FileView,
        filter: Option<Seq<u32>>,
        strategy: MkvStrategy,
    ) -> bool {
        &&& self.wf()
        &&& self.bytes() == bytes
        &&& self.file() == file
        &&& self.kept() == Seq::<TrackSetView>::empty()
        &&& self.infos() == file_infos(file, filter)
        &&& self.strategy() == strategy
        &&& self.statistics() == (ExtractionStats {
            file_size: bytes.len() as u64,
            bytes_read: 0,
        })
        &&& bytes.len() <= u64::MAX
        &&& self.consumed() == self.opened()
        &&& !self.has_yielded()
        &&& self.is_done() == (file is Sup && filter is Some && !filter->0.contains(0))
        &&& !self.is_done() ==> self.extraction() == fresh_extraction(bytes, file, filter, strategy)
    }

    /// Prepares the extraction of all PGS tracks of a file.
    ///
    /// `clip_languages` are the languages that clip information names, for
    /// tracks of a transport stream that names none.
    pub fn open(source: R, clip_languages: &HashMap<u16, String>) -> (r: Result<Self, PgsError>)
        ensures
            match (r, file_of(source.bytes(), language_map_view(clip_languages@))) {
                (Ok(x), Ok(file)) => {
                    &&& x.is_fresh(source.bytes(), file, None, MkvStrategy::Auto)
                    &&& x.keeps_history()
                    &&& x.opened() == counted(
                        0,
                        open_reads(source.bytes(), language_map_view(clip_languages@)),
                    )
                },
                (Err(e), Err(v)) => e@ == v,
                _ => false,
            },
    {
        let mut reader = SeekBufReader::new(source);
        let file_size = match reader.file_size() {
            Ok(n) => n,
            Err(e) => {
                return Err(e);
            },
        };
        let format = match detect_format(&mut reader) {
            Ok(format) => format,
            Err(e) => {
                return Err(e);
            },
        };
        let catalog: Vec<TrackDisplaySet> = Vec::new();
        assert(track_set_views(catalog@) =~= Seq::<TrackSetView>::empty());
        let stats = ExtractionStats { file_size, bytes_read: 0 };
        let opened: u64;
        match format {
            ContainerFormat::Matroska => {
                let meta = match prepare_mkv_metadata(&mut reader) {
                    Ok(m) => m,
                    Err(e) => {
                        return Err(e);
                    },
                };
                opened = reader.bytes_read();
                let state = MkvExtractorState::new(reader, meta, None, MkvStrategy::Auto);
                let tracks = state.track_infos(None);
                Ok(
                    Extractor {
                        inner: ExtractorInner::Mkv(state),
                        done: false,
                        catalog,
                        keep_history: true,
                        tracks,
                        stats,
                        mkv_strategy: MkvStrategy::Auto,
                        opened,
                    },
                )
            },
            ContainerFormat::Sup => {
                let _ = reader.seek_to(0);
                opened = reader.bytes_read();
                let mut tracks: Vec<PgsTrackInfo> = Vec::new();
                let info = sup_track_info();
                tracks.push(info);
                assert(info_views(tracks@) =~= seq![sup_info()]);
                Ok(
                    Extractor {
                        inner: ExtractorInner::Sup(SupExtractorState::new(reader)),
                        done: false,
                        catalog,
                        keep_history: true,
                        tracks,
                        stats,
                        mkv_strategy: MkvStrategy::Auto,
                        opened,
                    },
                )
            },
            container => {
                reader.restart(M2TS_BUF_SIZE);
                let _ = detect_format(&mut reader);
                let meta = match prepare_m2ts_metadata(&mut reader, clip_languages) {
                    Ok(m) => m,
                    Err(e) => {
                        return Err(e);
                    },
                };
                opened = reader.bytes_read();
                let state = M2tsExtractorState::new(reader, meta, container, None);
                let tracks = state.track_infos(None);
                Ok(
                    Extractor {
                        inner: ExtractorInner::M2ts(state),
                        done: false,
                        catalog,
                        keep_history: true,
                        tracks,
                        stats,
                        mkv_strategy: MkvStrategy::Auto,
                        opened,
                    },
                )
            },
        }
    }
}

impl<R: Source> Extractor<R> {
    /// Switches history on or off.
    pub fn with_history(self, enabled: bool) -> (r: Self)
        requires
            self.wf(),
        ensures
            r.wf(),
            r.keeps_history() == enabled,
            r.bytes() == self.bytes(),
            r.file() == self.file(),
            r.extraction() == self.extraction(),
            r.is_done() == self.is_done(),
            r.kept() == self.kept(),
            r.infos() == self.infos(),
            r.strategy() == self.strategy(),
            r.statistics() == self.statistics(),
            r.consumed() == self.consumed(),
            r.opened() == self.opened(),
    {
        let mut x = self;
        x.keep_history = enabled;
        x
    }

    /// Starts over with another filter and strategy.
    fn restarted(self, filter: Option<&[u32]>, strategy: MkvStrategy) -> (r: Self)
        requires
            self.wf(),
        ensures
            r.is_fresh(self.bytes(), self.file(), filter_view(filter), strategy),
            r.keeps_history() == self.keeps_history(),
            r.opened() == self.opened(),
    {
        let catalog: Vec<TrackDisplaySet> = Vec::new();
        assert(track_set_views(catalog@) =~= Seq::<TrackSetView>::empty());
        let stats = ExtractionStats { file_size: self.stats.file_size, bytes_read: 0 };
        let keep_history = self.keep_history;
        let opened: u64 = self.opened;
        match self.inner {
            ExtractorInner::Mkv(state) => {
                let state = state.restarted(filter, strategy, opened);
                let tracks = state.track_infos(filter);
                Extractor {
                    inner: ExtractorInner::Mkv(state),
                    done: false,
                    catalog,
                    keep_history,
                    tracks,
                    stats,
                    mkv_strategy: strategy,
                    opened,
                }
            },
            ExtractorInner::M2ts(state) => {
                let state = state.restarted(filter, opened);
                let tracks = state.track_infos(filter);
                Extractor {
                    inner: ExtractorInner::M2ts(state),
                    done: false,
                    catalog,
                    keep_history,
                    tracks,
                    stats,
                    mkv_strategy: strategy,
                    opened,
                }
            },
            ExtractorInner::Sup(state) => {
                let wanted = match filter {
                    Some(ids) => contains_u32(ids, 0),
                    None => true,
                };
                let mut tracks: Vec<PgsTrackInfo> = Vec::new();
                assert(info_views(tracks@) =~= Seq::<TrackInfoView>::empty());
                if wanted {
                    let info = sup_track_info();
                    tracks.push(info);
                    assert(info_views(tracks@) =~= seq![sup_info()]);
                }
                Extractor {
                    inner: ExtractorInner::Sup(state.restarted(opened)),
                    done: !wanted,
                    catalog,
                    keep_history,
                    tracks,
                    stats,
                    mkv_strategy: strategy,
                    opened,
                }
            },
        }
    }

    /// Changes how the clusters of a Matroska file are visited, for all its
    /// tracks. Other files, and a strategy that is in use already, change
    /// nothing.
    pub fn with_mkv_strategy(self, strategy: MkvStrategy) -> (r: Self)
        requires
            self.wf(),
        ensures
            self.file() is Mkv && strategy != self.strategy() ==> r.is_fresh(
                self.bytes(),
                self.file(),
                None,
                strategy,
            ) && r.keeps_history() == self.keeps_history() && r.opened() == self.opened(),
            !(self.file() is Mkv && strategy != self.strategy()) ==> r == self,
    {
        let is_mkv = match &self.inner {
            ExtractorInner::Mkv(_) => true,
            _ => false,
        };
        if !is_mkv || strategy == self.mkv_strategy {
            return self;
        }
        self.restarted(None, strategy)
    }

    /// Restricts the extraction to tracks with the given identifiers. No
    /// identifiers change nothing.
    pub fn with_track_filter(self, track_ids: &[u32]) -> (r: Self)
        requires
            self.wf(),
        ensures
            track_ids@.len() == 0 ==> r == self,
            track_ids@.len() > 0 ==> r.is_fresh(
                self.bytes(),
                self.file(),
                Some(track_ids@),
                self.strategy(),
            ) && r.keeps_history() == self.keeps_history() && r.opened() == self.opened(),
    {
        if track_ids.len() == 0 {
            return self;
        }
        let strategy = self.mkv_strategy;
        self.restarted(Some(track_ids), strategy)
    }

    /// The tracks that are extracted.
    pub fn tracks(&self) -> (r: &[PgsTrackInfo])
        ensures
            info_views(r@) == self.infos(),
    {
        self.tracks.as_slice()
    }

    /// All that has been handed out and kept, in order.
    pub fn history(&self) -> (r: &[TrackDisplaySet])
        ensures
            track_set_views(r@) == self.kept(),
    {
        self.catalog.as_slice()
    }

    /// What has been handed out of a track and kept.
    pub fn history_for_track(&self, track_id: u32) -> (r: Vec<&TrackDisplaySet>)
        ensures
            track_set_ref_views(r@) == sets_with_id(self.kept(), track_id),
    {
        let ghost all = self.kept();
        let mut found: Vec<&TrackDisplaySet> = Vec::new();
        let mut i: usize = 0;
        assert(track_set_ref_views(found@) =~= sets_with_id(all.take(0), track_id));
        while i < self.catalog.len()
            invariant
                i <= self.catalog@.len(),
                all == track_set_views(self.catalog@),
                track_set_ref_views(found@) == sets_with_id(all.take(i as int), track_id),
            decreases self.catalog@.len() - i,
        {
            let tds = &self.catalog[i];
            let ghost before = track_set_ref_views(found@);
            if tds.track_id == track_id {
                found.push(tds);
                assert(track_set_ref_views(found@) =~= before.push(tds@));
            }
            i += 1;
            proof {
                assert(all.take(i as int).drop_last() =~= all.take(i - 1));
                assert(all.take(i as int).last() == tds@);
            }
        }
        assert(all.take(i as int) =~= all);
        found
    }

    /// Takes what has been kept, and forgets it.
    pub fn drain_history(&mut self) -> (r: Vec<TrackDisplaySet>)
        requires
            old(self).wf(),
        ensures
            track_set_views(r@) == old(self).kept(),
            final(self).kept() == Seq::<TrackSetView>::empty(),
            final(self).same_but_history(old(self)),
    {
        let mut taken: Vec<TrackDisplaySet> = Vec::new();
        std::mem::swap(&mut self.catalog, &mut taken);
        assert(self.kept() =~= Seq::<TrackSetView>::empty());
        taken
    }

    /// Forgets what has been kept.
    pub fn clear_history(&mut self)
        requires
            old(self).wf(),
        ensures
            final(self).kept() == Seq::<TrackSetView>::empty(),
            final(self).same_but_history(old(self)),
    {
        self.catalog = Vec::new();
        assert(self.kept() =~= Seq::<TrackSetView>::empty());
    }

    /// Whether two extractions differ at most in what has been kept.
    pub open spec fn same_but_history(&self, other: &Self) -> bool {
        &&& self.wf() == other.wf()
        &&& self.bytes() == other.bytes()
        &&& self.file() == other.file()
        &&& self.extraction() == other.extraction()
        &&& self.is_done() == other.is_done()
        &&& self.keeps_history() == other.keeps_history()
        &&& self.infos() == other.infos()
        &&& self.strategy() == other.strategy()
        &&& self.statistics() == other.statistics()
        &&& self.consumed() == other.consumed()
        &&& self.opened() == other.opened()
    }

    /// Whether the extraction has ended.
    pub fn has_ended(&self) -> (r: bool)
        ensures
            r == self.is_done(),
    {
        self.done
    }

    /// What has been read.
    pub fn stats(&self) -> (r: &ExtractionStats)
        ensures
            *r == self.statistics(),
    {
        &self.stats
    }

    /// Goes on to the next display set. Returns `None` at the end and after an
    /// error.
    pub fn next(&mut self) -> (r: Option<Result<TrackDisplaySet, PgsError>>)
        requires
            old(self).wf(),
        ensures
            final(self).wf(),
            final(self).bytes() == old(self).bytes(),
            final(self).file() == old(self).file(),
            final(self).keeps_history() == old(self).keeps_history(),
            final(self).infos() == old(self).infos(),
            final(self).strategy() == old(self).strategy(),
            final(self).statistics().file_size == old(self).statistics().file_size,
            final(self).statistics().bytes_read >= old(self).statistics().bytes_read,
            final(self).opened() == old(self).opened(),
            !old(self).is_done() ==> {
                &&& final(self).consumed() == read_after(
                    old(self).extraction(),
                    old(self).consumed(),
                )
                &&& final(self).statistics().bytes_read == final(self).consumed()
            },
            old(self).is_done() ==> r is None && *final(self) == *old(self),
            !old(self).is_done() ==> match (r, extraction_next(old(self).extraction()).0) {
                (Some(Ok(tds)), Some(Ok(v))) => {
                    &&& tds@ == v
                    &&& !final(self).is_done()
                    &&& final(self).extraction() == extraction_next(old(self).extraction()).1
                },
                (Some(Err(e)), Some(Err(v))) => e@ == v && final(self).is_done(),
                (None, None) => final(self).is_done(),
                _ => false,
            },
            final(self).kept() == match r {
                Some(Ok(tds)) => if old(self).keeps_history() {
                    old(self).kept().push(tds@)
                } else {
                    old(self).kept()
                },
                _ => old(self).kept(),
            },
    {
        if self.done {
            return None;
        }
        let result = self.inner.next_display_set();
        self.stats.bytes_read = self.inner.bytes_read();
        match result {
            Some(Ok(tds)) => {
                if self.keep_history {
                    let copy = tds.clone();
                    let ghost before = self.kept();
                    self.catalog.push(copy);
                    assert(self.kept() =~= before.push(tds@));
                }
                Some(Ok(tds))
            },
            Some(Err(e)) => {
                self.done = true;
                Some(Err(e))
            },
            None => {
                self.done = true;
                None
            },
        }
    }
}

/// The views of referenced display sets with their tracks.
pub open spec fn track_set_ref_views(sets: Seq<&TrackDisplaySet>) -> Seq<TrackSetView> {
    Seq::new(sets.len(), |i: int| sets[i]@)
}

/// The display sets of a track.
pub open spec fn sets_with_id(sets: Seq<TrackSetView>, id: u32) -> Seq<TrackSetView>
    decreases sets.len(),
{
    if sets.len() == 0 {
        Seq::empty()
    } else {
        let before = sets_with_id(sets.drop_last(), id);
        if sets.last().track_id == id {
            before.push(sets.last())
        } else {
            before
        }
    }
}

/// The number of display sets of the given tracks.
pub open spec fn number_of_sets(sets: Seq<TrackSetView>, ids: Seq<u32>) -> nat
    decreases ids.len(),
{
    if ids.len() == 0 {
        0
    } else {
        number_of_sets(sets, ids.drop_last()) + sets_with_id(sets, ids.last()).len()
    }
}

proof fn lemma_one_more_set(sets: Seq<TrackSetView>, ids: Seq<u32>)
    requires
        sets.len() > 0,
        ids.no_duplicates(),
    ensures
        number_of_sets(sets, ids) == number_of_sets(sets.drop_last(), ids) + if ids.contains(
            sets.last().track_id,
        ) {
            1nat
        } else {
            0
        },
    decreases ids.len(),
{
    if ids.len() > 0 {
        let id = sets.last().track_id;
        let fewer = ids.drop_last();
        lemma_one_more_set(sets, fewer);
        if ids.last() == id {
            if fewer.contains(id) {
                let i = choose|i: int| 0 <= i < fewer.len() && fewer[i] == id;
                assert(ids[i] == ids[ids.len() - 1]);
            }
            assert(ids.contains(id));
        } else if ids.contains(id) {
            let i = choose|i: int| 0 <= i < ids.len() && ids[i] == id;
            assert(fewer[i] == id);
        } else if fewer.contains(id) {
            let i = choose|i: int| 0 <= i < fewer.len() && fewer[i] == id;
            assert(ids[i] == id);
        }
    }
}

/// The display sets of all tracks, track by track, are all display sets.
pub proof fn tracks_share_the_history(sets: Seq<TrackSetView>, ids: Seq<u32>)
    requires
        ids.no_duplicates(),
        forall|i: int| 0 <= i < sets.len() ==> ids.contains((#[trigger] sets[i]).track_id),
    ensures
        number_of_sets(sets, ids) == sets.len(),
    decreases sets.len(),
{
    if sets.len() > 0 {
        assert(ids.contains(sets[sets.len() - 1].track_id));
        assert forall|i: int| 0 <= i < sets.drop_last().len() implies ids.contains(
            (#[trigger] sets.drop_last()[i]).track_id,
        ) by {
            assert(sets.drop_last()[i] == sets[i]);
        }
        tracks_share_the_history(sets.drop_last(), ids);
        lemma_one_more_set(sets, ids);
    } else {
        lemma_no_sets(sets, ids);
    }
}

proof fn lemma_no_sets(sets: Seq<TrackSetView>, ids: Seq<u32>)
    requires
        sets.len() == 0,
    ensures
        number_of_sets(sets, ids) == 0,
    decreases ids.len(),
{
    if ids.len() > 0 {
        lemma_no_sets(sets, ids.drop_last());
    }
}

/// What is known about all PGS tracks of a file. A transport stream may have
/// none.
pub open spec fn listed_infos(s: Seq<u8>, languages: Map<u16, Seq<char>>) -> Result<
    Seq<TrackInfoView>,
    ErrorView,
> {
    match container_of(s) {
        Err(e) => Err(e),
        Ok(ContainerFormat::Matroska) => match metadata_of(s) {
            Err(e) => Err(e),
            Ok(m) => Ok(mkv_infos(m.pgs_tracks, m.frame_counts, m.cue_points, None)),
        },
        Ok(ContainerFormat::Sup) => Ok(seq![sup_info()]),
        Ok(container) => match listed(s, languages) {
            Err(e) => Err(e),
            Ok((_, tracks, _)) => Ok(m2ts_infos(tracks, container, None)),
        },
    }
}

/// The PGS tracks of a file.
pub fn list_pgs_tracks<R: Source>(source: R, clip_languages: &HashMap<u16, String>) -> (r: Result<
    Vec<PgsTrackInfo>,
    PgsError,
>)
    ensures
        match (r, listed_infos(source.bytes(), language_map_view(clip_languages@))) {
            (Ok(infos), Ok(v)) => info_views(infos@) == v,
            (Err(e), Err(v)) => e@ == v,
            _ => false,
        },
{
    let mut reader = SeekBufReader::new(source);
    let format = match detect_format(&mut reader) {
        Ok(format) => format,
        Err(e) => {
            return Err(e);
        },
    };
    let mut infos: Vec<PgsTrackInfo> = Vec::new();
    match format {
        ContainerFormat::Matroska => match prepare_mkv_metadata(&mut reader) {
            Ok(meta) => {
                let state = MkvExtractorState::new(reader, meta, None, MkvStrategy::Auto);
                Ok(state.track_infos(None))
            },
            Err(e) => Err(e),
        },
        ContainerFormat::Sup => {
            let info = sup_track_info();
            infos.push(info);
            assert(info_views(infos@) =~= seq![sup_info()]);
            Ok(infos)
        },
        container => match list_pgs_tracks_m2ts(&mut reader, clip_languages) {
            Ok(tracks) => {
                let ghost views = m2ts_track_views(tracks@);
                let mut i: usize = 0;
                assert(info_views(infos@) =~= m2ts_infos(views.take(0), container, None));
                while i < tracks.len()
                    invariant
                        i <= tracks@.len(),
                        views == m2ts_track_views(tracks@),
                        info_views(infos@) == m2ts_infos(views.take(i as int), container, None),
                    decreases tracks@.len() - i,
                {
                    let info = m2ts_track_to_info(&tracks[i], container);
                    let ghost before = info_views(infos@);
                    infos.push(info);
                    i += 1;
                    proof {
                        assert(info_views(infos@) =~= before.push(info@));
                        assert(views.take(i as int).drop_last() =~= views.take(i - 1));
                        assert(views.take(i as int).last() == tracks@[i - 1]@);
                    }
                }
                assert(views.take(i as int) =~= views);
                Ok(infos)
            },
            Err(e) => Err(e),
        },
    }
}

/// What the timing of a Matroska file rests on: nanoseconds per timestamp unit,
/// where the first cluster is, where the segment ends, and the duration.
pub struct MkvTiming {
    pub timestamp_scale: u64,
    pub first_cluster: Option<u64>,
    pub segment_end: u64,
    pub duration: Option<FloatBits>,
}

impl<R: Source> Extractor<R> {
    /// What the timing of the file rests on, if it is a Matroska file.
    pub fn mkv_timing(&self) -> (r: Option<MkvTiming>)
        ensures
            match (r, self.file()) {
                (Some(t), FileView::Mkv(m)) => {
                    &&& t.first_cluster == m.layout.first_cluster_position
                    &&& t.segment_end == m.layout.segment_data_end
                    &&& t.duration == m.duration
                    &&& self.extraction() matches ExtractionView::Mkv(c, _) && t.timestamp_scale
                        == c.scale
                },
                (None, FileView::Mkv(_)) => false,
                (r, _) => r is None,
            },
    {
        match &self.inner {
            ExtractorInner::Mkv(state) => {
                let (first_cluster, segment_end, duration) = state.extent();
                Some(
                    MkvTiming {
                        timestamp_scale: state.timestamp_scale(),
                        first_cluster,
                        segment_end,
                        duration,
                    },
                )
            },
            _ => None,
        }
    }

    /// Limits the extraction of a Matroska file to a time range in timestamp
    /// units, given where in the file it is estimated to start. Other files
    /// change nothing.
    pub fn set_mkv_time_range(
        &mut self,
        start: Option<u64>,
        end: Option<u64>,
        estimate: Option<u64>,
    )
        requires
            old(self).wf(),
        ensures
            final(self).wf(),
            final(self).bytes() == old(self).bytes(),
            final(self).file() == old(self).file(),
            final(self).is_done() == old(self).is_done(),
            final(self).kept() == old(self).kept(),
            final(self).keeps_history() == old(self).keeps_history(),
            final(self).infos() == old(self).infos(),
            final(self).strategy() == old(self).strategy(),
            final(self).statistics() == old(self).statistics(),
            final(self).consumed() == old(self).consumed(),
            final(self).opened() == old(self).opened(),
            final(self).extraction() == match old(self).extraction() {
                ExtractionView::Mkv(c, p) => ExtractionView::Mkv(
                    MkvConfig { start, end, estimate, ..c },
                    p,
                ),
                other => other,
            },
    {
        match &mut self.inner {
            ExtractorInner::Mkv(state) => {
                state.set_time_range(start, end, estimate);
            },
            _ => {},
        }
    }

    /// The timestamps of the first segment and of the last one near the end of
    /// a raw PGS file. Its extraction starts over at the start of the file;
    /// other files change nothing.
    pub fn sup_pts_span(&mut self) -> (r: Option<(u64, u64)>)
        requires
            old(self).wf(),
        ensures
            r == if old(self).file() is Sup {
                sup_span(old(self).bytes())
            } else {
                None
            },
            final(self).wf(),
            final(self).bytes() == old(self).bytes(),
            final(self).file() == old(self).file(),
            final(self).is_done() == old(self).is_done(),
            final(self).kept() == old(self).kept(),
            final(self).keeps_history() == old(self).keeps_history(),
            final(self).infos() == old(self).infos(),
            final(self).strategy() == old(self).strategy(),
            final(self).statistics() == old(self).statistics(),
            final(self).consumed() == if old(self).file() is Sup {
                counted(old(self).consumed(), sup_span_reads(old(self).bytes()))
            } else {
                old(self).consumed()
            },
            final(self).opened() == old(self).opened(),
            final(self).extraction() == match old(self).extraction() {
                ExtractionView::Sup { bytes, assembler, .. } => ExtractionView::Sup {
                    bytes,
                    pos: 0,
                    assembler,
                },
                other => other,
            },
    {
        match &mut self.inner {
            ExtractorInner::Sup(state) => state.pts_span(),
            _ => None,
        }
    }

    /// Moves the extraction of a raw PGS file near an estimated position. Other
    /// files change nothing.
    pub fn sup_seek(&mut self, estimated: u64)
        requires
            old(self).wf(),
        ensures
            final(self).wf(),
            final(self).bytes() == old(self).bytes(),
            final(self).file() == old(self).file(),
            final(self).is_done() == old(self).is_done(),
            final(self).kept() == old(self).kept(),
            final(self).keeps_history() == old(self).keeps_history(),
            final(self).infos() == old(self).infos(),
            final(self).strategy() == old(self).strategy(),
            final(self).statistics() == old(self).statistics(),
            final(self).consumed() == if old(self).file() is Sup {
                counted(
                    old(self).consumed(),
                    magic_reads(old(self).bytes(), in_front_of(old(self).bytes(), estimated)),
                )
            } else {
                old(self).consumed()
            },
            final(self).opened() == old(self).opened(),
            final(self).extraction() == match old(self).extraction() {
                ExtractionView::Sup { bytes, assembler, .. } => ExtractionView::Sup {
                    bytes,
                    pos: sup_start(bytes, estimated),
                    assembler,
                },
                other => other,
            },
    {
        match &mut self.inner {
            ExtractorInner::Sup(state) => {
                state.seek_to_estimate(estimated);
            },
            _ => {},
        }
    }

    /// Moves the extraction of a transport stream that has not started close in
    /// front of a time in ticks. Other files change nothing.
    pub fn m2ts_seek(&mut self, start: u64)
        requires
            old(self).wf(),
        ensures
            final(self).wf(),
            final(self).bytes() == old(self).bytes(),
            final(self).file() == old(self).file(),
            final(self).is_done() == old(self).is_done(),
            final(self).kept() == old(self).kept(),
            final(self).keeps_history() == old(self).keeps_history(),
            final(self).infos() == old(self).infos(),
            final(self).strategy() == old(self).strategy(),
            final(self).statistics() == old(self).statistics(),
            final(self).opened() == old(self).opened(),
            match old(self).extraction() {
                ExtractionView::M2ts(c, p) => {
                    let pos = time_start(c.bytes, p.pos, c.end, start, c.format);
                    let reads = time_start_reads(c.bytes, p.pos, c.end, start, c.format);
                    &&& final(self).extraction() == ExtractionView::M2ts(
                        c,
                        M2tsProgress { pos, ..p },
                    )
                    &&& p.pos <= pos
                    &&& final(self).consumed() == counted(old(self).consumed(), reads)
                    &&& 0 <= reads <= SEEK_PROBES * SEEK_WINDOW
                },
                other => final(self).extraction() == other && final(self).consumed() == old(
                    self,
                ).consumed(),
            },
    {
        match &mut self.inner {
            ExtractorInner::M2ts(state) => {
                state.seek_to_time(start);
            },
            _ => {},
        }
    }

    /// The index entries of a Matroska file to be extracted in parallel, shared
    /// out among workers, if that is possible and pays; and the numbers of the
    /// tracks to extract.
    pub fn parallel_chunks(&self, available: usize) -> (r: Option<
        (Vec<Vec<PgsCuePoint>>, Vec<u64>),
    >)
        ensures
            match (
                r,
                match self.extraction() {
                    ExtractionView::Mkv(c, _) => if self.is_done() {
                        None
                    } else {
                        parallel_plan(c.cues, self.has_yielded(), available as nat)
                    },
                    _ => None,
                },
            ) {
                (Some((chunks, tracks)), Some(v)) => {
                    &&& chunk_views(chunks@) == v
                    &&& self.extraction() matches ExtractionView::Mkv(c, _) && tracks@ == c.active
                },
                (None, None) => true,
                _ => false,
            },
    {
        if self.done {
            return None;
        }
        match &self.inner {
            ExtractorInner::Mkv(state) => match state.parallel_chunks(available) {
                Some(chunks) => {
                    let active = state.active_tracks();
                    let mut tracks: Vec<u64> = Vec::new();
                    let mut i: usize = 0;
                    while i < active.len()
                        invariant
                            i <= active@.len(),
                            tracks@ == active@.take(i as int),
                        decreases active@.len() - i,
                    {
                        tracks.push(active[i]);
                        i += 1;
                        assert(tracks@ =~= active@.take(i as int));
                    }
                    assert(tracks@ =~= active@);
                    Some((chunks, tracks))
                },
                None => None,
            },
            _ => None,
        }
    }

    /// Assembles blocks of a Matroska file that were read in any order, by
    /// track. Other files give none.
    pub fn collect_merged(&self, blocks: Vec<PgsBlock>) -> (r: Vec<TrackDisplaySets>)
        requires
            self.wf(),
        ensures
            track_sets_views(r@) == match (self.extraction(), self.file()) {
                (ExtractionView::Mkv(c, _), FileView::Mkv(m)) => with_infos(
                    results_of(
                        processed(
                            fresh_states(c.active),
                            c.compression,
                            c.scale,
                            blocks_in_order(block_views(blocks@)),
                        ),
                    ),
                    m.pgs_tracks,
                    m.frame_counts,
                    c.cues,
                ),
                _ => Seq::empty(),
            },
    {
        match &self.inner {
            ExtractorInner::Mkv(state) => state.collect_merged(blocks),
            _ => {
                let none: Vec<TrackDisplaySets> = Vec::new();
                assert(track_sets_views(none@) =~= Seq::empty());
                none
            },
        }
    }
}

} // verus!
