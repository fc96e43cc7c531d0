//! Display sets: their assembly from segments and their construction from
//! structured payloads.
use vstd::prelude::*;
use crate::bytes::copy_range;
use crate::error::{ErrorView, PgsError};
use crate::pgs::payload::{
    ods_bytes, pcs_bytes, pds_bytes, wds_bytes, OdsData, OdsView, PcsData, PcsView, PdsData,
    PdsView, SequenceFlag, WdsData, WindowDefinition,
};
use crate::pgs::rle::{decode_of_encode, decoded, encode_rle, encoded_rows};
use crate::pgs::segment::{
    composition_state_of, segment_views, CompositionState, PgsSegment, SegmentType, SegmentView,
};
use crate::text::{decimal, push_decimal};

verus! {

/// A complete display set: the segments from a composition to its end.
#[derive(Debug)]
pub struct DisplaySet {
    /// Presentation timestamp of the composition segment (90 kHz ticks).
    pub pts: u64,
    /// The state in the composition segment.
    pub composition_state: CompositionState,
    /// All segments, in order.
    pub segments: Vec<PgsSegment>,
}

/// A display set as a mathematical value.
#[verifier::ext_equal]
pub struct DisplaySetView {
    pub pts: u64,
    pub composition_state: CompositionState,
    pub segments: Seq<SegmentView>,
}

impl View for DisplaySet {
    type V = DisplaySetView;

    open spec fn view(&self) -> DisplaySetView {
        DisplaySetView {
            pts: self.pts,
            composition_state: self.composition_state,
            segments: segment_views(self.segments@),
        }
    }
}

impl Clone for DisplaySet {
    fn clone(&self) -> (r: Self)
        ensures
            r@ == self@,
    {
        let mut segments: Vec<PgsSegment> = Vec::new();
        let mut i: usize = 0;
        while i < self.segments.len()
            invariant
                i <= self.segments@.len(),
                segment_views(segments@) == segment_views(self.segments@).take(i as int),
            decreases self.segments@.len() - i,
        {
            let copy = self.segments[i].clone();
            let ghost before = segment_views(segments@);
            segments.push(copy);
            i += 1;
            assert(segment_views(segments@) =~= before.push(copy@));
            assert(segment_views(self.segments@).take(i as int) =~= before.push(copy@));
        }
        assert(segment_views(segments@) =~= segment_views(self.segments@));
        DisplaySet { pts: self.pts, composition_state: self.composition_state, segments }
    }
}

/// Assembles segments into complete display sets.
///
/// Segments are pushed one at a time; an end segment completes a display set.
pub struct DisplaySetAssembler {
    current_segments: Vec<PgsSegment>,
    current_pts: u64,
    current_state: Option<CompositionState>,
}

/// The segments pushed so far, with the timestamp and state of the composition
/// among them.
#[verifier::ext_equal]
pub struct AssemblerView {
    pub segments: Seq<SegmentView>,
    pub pts: u64,
    pub state: Option<CompositionState>,
}

impl View for DisplaySetAssembler {
    type V = AssemblerView;

    closed spec fn view(&self) -> AssemblerView {
        AssemblerView {
            segments: segment_views(self.current_segments@),
            pts: self.current_pts,
            state: self.current_state,
        }
    }
}

/// An assembler that has seen no segment.
pub open spec fn fresh_assembler() -> AssemblerView {
    AssemblerView { segments: Seq::empty(), pts: 0, state: None }
}

/// What pushing a segment makes of an assembler, and the display set that it
/// completes.
///
/// A composition segment starts anew and drops what was there. An end segment
/// completes the display set if its composition has a known state, and drops
/// the segments otherwise. All other segments are collected.
pub open spec fn pushed(a: AssemblerView, s: SegmentView) -> (
    AssemblerView,
    Option<DisplaySetView>,
) {
    match s.segment_type {
        SegmentType::PresentationComposition => (
            AssemblerView { segments: seq![s], pts: s.pts, state: composition_state_of(s) },
            None,
        ),
        SegmentType::EndOfDisplaySet => (
            AssemblerView { segments: Seq::empty(), pts: a.pts, state: None },
            match a.state {
                Some(state) => Some(
                    DisplaySetView {
                        pts: a.pts,
                        composition_state: state,
                        segments: a.segments.push(s),
                    },
                ),
                None => None,
            },
        ),
        _ => (AssemblerView { segments: a.segments.push(s), ..a }, None),
    }
}

/// What pushing segments one after the other makes of an assembler, and the
/// display sets that they complete.
pub open spec fn pushed_all(a: AssemblerView, segments: Seq<SegmentView>) -> (
    AssemblerView,
    Seq<DisplaySetView>,
)
    decreases segments.len(),
{
    if segments.len() == 0 {
        (a, Seq::empty())
    } else {
        let (before, sets) = pushed_all(a, segments.drop_last());
        let (after, set) = pushed(before, segments.last());
        (
            after,
            match set {
                Some(ds) => sets.push(ds),
                None => sets,
            },
        )
    }
}

impl DisplaySetAssembler {
    /// An assembler that has seen no segment.
    pub fn new() -> (r: Self)
        ensures
            r@ == fresh_assembler(),
    {
        let r = DisplaySetAssembler {
            current_segments: Vec::new(),
            current_pts: 0,
            current_state: None,
        };
        assert(r@.segments =~= Seq::<SegmentView>::empty());
        r
    }

    /// Pushes a segment. Returns the display set that it completes, if any.
    pub fn push(&mut self, segment: PgsSegment) -> (r: Option<DisplaySet>)
        ensures
            final(self)@ == pushed(old(self)@, segment@).0,
            r is Some <==> pushed(old(self)@, segment@).1 is Some,
            r matches Some(ds) ==> pushed(old(self)@, segment@).1 == Some(ds@),
    {
        match segment.segment_type {
            SegmentType::PresentationComposition => {
                self.current_segments = Vec::new();
                self.current_pts = segment.pts;
                self.current_state = segment.composition_state();
                self.current_segments.push(segment);
                assert(self@.segments =~= seq![segment@]);
                None
            },
            SegmentType::EndOfDisplaySet => {
                let mut segments: Vec<PgsSegment> = Vec::new();
                std::mem::swap(&mut self.current_segments, &mut segments);
                assert(self@.segments =~= Seq::<SegmentView>::empty());
                segments.push(segment);
                assert(segment_views(segments@) =~= old(self)@.segments.push(segment@));
                let state = self.current_state;
                self.current_state = None;
                match state {
                    Some(composition_state) => Some(
                        DisplaySet { pts: self.current_pts, composition_state, segments },
                    ),
                    None => None,
                }
            },
            _ => {
                self.current_segments.push(segment);
                assert(self@.segments =~= old(self)@.segments.push(segment@));
                None
            },
        }
    }

    /// Drops a partial display set.
    pub fn reset(&mut self)
        ensures
            final(self)@ == (AssemblerView {
                segments: Seq::empty(),
                pts: old(self)@.pts,
                state: None,
            }),
    {
        self.current_segments = Vec::new();
        self.current_state = None;
        assert(self@.segments =~= Seq::<SegmentView>::empty());
    }
}

impl Default for DisplaySetAssembler {
    fn default() -> (r: Self)
        ensures
            r@ == fresh_assembler(),
    {
        DisplaySetAssembler::new()
    }
}

/// A composition segment drops whatever was pushed before it.
pub proof fn composition_starts_anew(a: AssemblerView, b: AssemblerView, s: SegmentView)
    requires
        s.segment_type is PresentationComposition,
    ensures
        pushed(a, s) == pushed(b, s),
{
}

/// A completed display set ends with an end segment, and only with one.
pub proof fn completed_set_ends(a: AssemblerView, s: SegmentView)
    ensures
        pushed(a, s).1 matches Some(ds) ==> s.segment_type is EndOfDisplaySet && ds.segments.last()
            == s && a.state is Some,
        s.segment_type is EndOfDisplaySet && a.state is None ==> pushed(a, s).1 is None && pushed(
            a,
            s,
        ).0.segments.len() == 0,
{
}

/// Pushing two runs of segments is pushing the first, then the second.
pub proof fn pushed_all_append(a: AssemblerView, first: Seq<SegmentView>, second: Seq<SegmentView>)
    ensures
        pushed_all(a, first + second).0 == pushed_all(pushed_all(a, first).0, second).0,
        pushed_all(a, first + second).1 == pushed_all(a, first).1 + pushed_all(
            pushed_all(a, first).0,
            second,
        ).1,
    decreases second.len(),
{
    if second.len() == 0 {
        assert(first + second =~= first);
        assert(pushed_all(a, first).1 + Seq::<DisplaySetView>::empty() =~= pushed_all(a, first).1);
    } else {
        pushed_all_append(a, first, second.drop_last());
        assert((first + second).drop_last() =~= first + second.drop_last());
        assert((first + second).last() == second.last());
        assert(pushed_all(a, first + second).1 =~= pushed_all(a, first).1 + pushed_all(
            pushed_all(a, first).0,
            second,
        ).1);
    }
}

/// A bitmap to be encoded into object segments.
pub struct ObjectBitmap {
    pub id: u16,
    pub version: u8,
    pub width: u16,
    pub height: u16,
    /// Palette indices in row-major order.
    pub pixels: Vec<u8>,
}

/// A bitmap as a mathematical value.
#[verifier::ext_equal]
pub struct BitmapView {
    pub id: u16,
    pub version: u8,
    pub width: u16,
    pub height: u16,
    pub pixels: Seq<u8>,
}

impl View for ObjectBitmap {
    type V = BitmapView;

    open spec fn view(&self) -> BitmapView {
        BitmapView {
            id: self.id,
            version: self.version,
            width: self.width,
            height: self.height,
            pixels: self.pixels@,
        }
    }
}

/// Builds a display set from structured payloads.
pub struct DisplaySetBuilder {
    pts: u64,
    dts: u64,
    pcs: Option<PcsData>,
    wds: Option<WdsData>,
    palettes: Vec<PdsData>,
    objects: Vec<ObjectBitmap>,
}

/// What a builder has been given.
#[verifier::ext_equal]
pub struct BuilderView {
    pub pts: u64,
    pub dts: u64,
    pub pcs: Option<PcsView>,
    pub wds: Option<Seq<WindowDefinition>>,
    pub palettes: Seq<PdsView>,
    pub objects: Seq<BitmapView>,
}

/// The views of palettes.
pub open spec fn palette_views(palettes: Seq<PdsData>) -> Seq<PdsView> {
    Seq::new(palettes.len(), |i: int| palettes[i]@)
}

/// The views of bitmaps.
pub open spec fn bitmap_views(objects: Seq<ObjectBitmap>) -> Seq<BitmapView> {
    Seq::new(objects.len(), |i: int| objects[i]@)
}

impl View for DisplaySetBuilder {
    type V = BuilderView;

    closed spec fn view(&self) -> BuilderView {
        BuilderView {
            pts: self.pts,
            dts: self.dts,
            pcs: match self.pcs {
                Some(p) => Some(p@),
                None => None,
            },
            wds: match self.wds {
                Some(w) => Some(w@),
                None => None,
            },
            palettes: palette_views(self.palettes@),
            objects: bitmap_views(self.objects@),
        }
    }
}

/// The largest payload of a segment.
pub const MAX_SEGMENT_PAYLOAD: usize = 65535;

/// The header size of an object payload that starts an object.
pub const ODS_FIRST_HEADER: usize = 11;

/// The header size of any other object payload.
pub const ODS_CONT_HEADER: usize = 4;

/// The fragments that follow the first one of an object, for the bitmap data
/// that is left.
pub open spec fn later_fragments(id: u16, version: u8, rle: Seq<u8>) -> Seq<OdsView>
    decreases rle.len(),
{
    let room = MAX_SEGMENT_PAYLOAD - ODS_CONT_HEADER;
    if rle.len() == 0 {
        Seq::empty()
    } else if rle.len() <= room {
        seq![
            OdsView {
                id,
                version,
                sequence: SequenceFlag::Last,
                data_length: 0,
                width: None,
                height: None,
                rle_data: rle,
            },
        ]
    } else {
        seq![
            OdsView {
                id,
                version,
                sequence: SequenceFlag::Continuation,
                data_length: 0,
                width: None,
                height: None,
                rle_data: rle.take(room),
            },
        ] + later_fragments(id, version, rle.skip(room))
    }
}

/// The fragments of a bitmap with the encoding `rle`: one if it fits in a
/// segment, otherwise as many as it takes, each as long as possible.
pub open spec fn fragments(b: BitmapView, rle: Seq<u8>) -> Seq<OdsView> {
    let room = MAX_SEGMENT_PAYLOAD - ODS_FIRST_HEADER;
    let start = OdsView {
        id: b.id,
        version: b.version,
        sequence: SequenceFlag::Complete,
        data_length: ((rle.len() + 4) % 0x1_0000_0000) as u32,
        width: Some(b.width),
        height: Some(b.height),
        rle_data: rle,
    };
    if rle.len() <= room {
        seq![start]
    } else {
        seq![OdsView { sequence: SequenceFlag::First, rle_data: rle.take(room), ..start }]
            + later_fragments(b.id, b.version, rle.skip(room))
    }
}

/// The object segments for fragments.
pub open spec fn fragment_segments(
    pts: u64,
    dts: u64,
    fragments: Seq<OdsView>,
) -> Seq<SegmentView> {
    Seq::new(
        fragments.len(),
        |i: int|
            SegmentView {
                pts,
                dts,
                segment_type: SegmentType::ObjectDefinition,
                payload: ods_bytes(fragments[i]),
            },
    )
}

/// Whether a bitmap holds as many pixels as its dimensions say.
pub open spec fn bitmap_regular(b: BitmapView) -> bool {
    b.pixels.len() == b.width * b.height
}

/// The object segments of one bitmap.
pub open spec fn bitmap_segments(pts: u64, dts: u64, b: BitmapView) -> Seq<SegmentView> {
    fragment_segments(pts, dts, fragments(b, encoded_rows(b.pixels, b.width as nat)))
}

/// The object segments of bitmaps, in order.
pub open spec fn object_segments(pts: u64, dts: u64, objects: Seq<BitmapView>) -> Seq<SegmentView>
    decreases objects.len(),
{
    if objects.len() == 0 {
        Seq::empty()
    } else {
        object_segments(pts, dts, objects.drop_last()) + bitmap_segments(pts, dts, objects.last())
    }
}

/// The palette segments of palettes, in order.
pub open spec fn palette_segments(pts: u64, dts: u64, palettes: Seq<PdsView>) -> Seq<SegmentView> {
    Seq::new(
        palettes.len(),
        |i: int|
            SegmentView {
                pts,
                dts,
                segment_type: SegmentType::PaletteDefinition,
                payload: pds_bytes(palettes[i]),
            },
    )
}

/// The segments in front of the palettes.
pub open spec fn leading_segments(
    pts: u64,
    dts: u64,
    pcs: PcsView,
    wds: Option<Seq<WindowDefinition>>,
) -> Seq<SegmentView> {
    let first = SegmentView {
        pts,
        dts,
        segment_type: SegmentType::PresentationComposition,
        payload: pcs_bytes(pcs),
    };
    match wds {
        Some(windows) => seq![
            first,
            SegmentView {
                pts,
                dts,
                segment_type: SegmentType::WindowDefinition,
                payload: wds_bytes(windows),
            },
        ],
        None => seq![first],
    }
}

/// The end segment.
pub open spec fn end_segment_view(pts: u64, dts: u64) -> SegmentView {
    SegmentView { pts, dts, segment_type: SegmentType::EndOfDisplaySet, payload: Seq::empty() }
}

/// The error for a bitmap whose pixels do not match its dimensions.
pub open spec fn bitmap_error(b: BitmapView) -> ErrorView {
    ErrorView::EncodingError(
        "RLE encoding failed for object "@ + decimal(b.id as nat) + " ("@ + decimal(b.width as nat)
            + "x"@ + decimal(b.height as nat) + ", "@ + decimal(b.pixels.len()) + " pixels)"@,
    )
}

/// The first bitmap whose pixels do not match its dimensions, if there is one.
pub open spec fn first_irregular(objects: Seq<BitmapView>) -> Option<BitmapView>
    decreases objects.len(),
{
    if objects.len() == 0 {
        None
    } else if !bitmap_regular(objects[0]) {
        Some(objects[0])
    } else {
        first_irregular(objects.skip(1))
    }
}

/// The display set that a builder builds.
pub open spec fn built(b: BuilderView) -> Result<DisplaySetView, ErrorView> {
    match (b.pcs, first_irregular(b.objects)) {
        (None, _) => Err(ErrorView::EncodingError("DisplaySet requires a PCS"@)),
        (_, Some(object)) => Err(bitmap_error(object)),
        (Some(pcs), None) => Ok(
            DisplaySetView {
                pts: b.pts,
                composition_state: pcs.composition_state,
                segments: (leading_segments(b.pts, b.dts, pcs, b.wds) + palette_segments(
                    b.pts,
                    b.dts,
                    b.palettes,
                ) + object_segments(b.pts, b.dts, b.objects)).push(end_segment_view(b.pts, b.dts)),
            },
        ),
    }
}

fn bitmap_failure(b: &ObjectBitmap) -> (r: PgsError)
    ensures
        r@ == bitmap_error(b@),
{
    let mut s = "RLE encoding failed for object ".to_owned();
    push_decimal(&mut s, b.id as u64);
    s.push_str(" (");
    push_decimal(&mut s, b.width as u64);
    s.push_str("x");
    push_decimal(&mut s, b.height as u64);
    s.push_str(", ");
    push_decimal(&mut s, b.pixels.len() as u64);
    s.push_str(" pixels)");
    PgsError::EncodingError(s)
}

proof fn lemma_views_push(segments: Seq<PgsSegment>, s: PgsSegment)
    ensures
        segment_views(segments.push(s)) == segment_views(segments).push(s@),
{
    assert(segment_views(segments.push(s)) =~= segment_views(segments).push(s@));
}

/// Appends the object segments of a bitmap with the encoding `rle`.
fn push_fragments(
    segments: &mut Vec<PgsSegment>,
    pts: u64,
    dts: u64,
    b: &ObjectBitmap,
    rle: Vec<u8>,
)
    ensures
        segment_views(final(segments)@) == segment_views(old(segments)@) + fragment_segments(
            pts,
            dts,
            fragments(b@, rle@),
        ),
{
    let ghost start = segment_views(segments@);
    let total: usize = rle.len();
    let room: usize = MAX_SEGMENT_PAYLOAD - ODS_FIRST_HEADER;
    let data_length: u32 = ((total as u64 % 0x1_0000_0000 + 4) % 0x1_0000_0000) as u32;
    if total <= room {
        let ods = OdsData {
            id: b.id,
            version: b.version,
            sequence: SequenceFlag::Complete,
            data_length,
            width: Some(b.width),
            height: Some(b.height),
            rle_data: rle,
        };
        let seg = PgsSegment::from_ods(pts, dts, &ods);
        proof {
            lemma_views_push(segments@, seg);
        }
        segments.push(seg);
        assert(segment_views(segments@) =~= start + fragment_segments(
            pts,
            dts,
            fragments(b@, rle@),
        ));
        return ;
    }
    let first = OdsData {
        id: b.id,
        version: b.version,
        sequence: SequenceFlag::First,
        data_length,
        width: Some(b.width),
        height: Some(b.height),
        rle_data: copy_range(rle.as_slice(), 0, room),
    };
    let seg = PgsSegment::from_ods(pts, dts, &first);
    proof {
        lemma_views_push(segments@, seg);
        assert(first.rle_data@ =~= rle@.take(room as int));
    }
    segments.push(seg);
    let ghost all = fragments(b@, rle@);
    let ghost mut done: Seq<OdsView> = seq![first@];
    let mut offset: usize = room;
    assert(segment_views(segments@) =~= start + fragment_segments(pts, dts, done));
    let step: usize = MAX_SEGMENT_PAYLOAD - ODS_CONT_HEADER;
    while offset < total
        invariant
            total == rle@.len(),
            offset <= total,
            step == MAX_SEGMENT_PAYLOAD - ODS_CONT_HEADER,
            all == done + later_fragments(b.id, b.version, rle@.skip(offset as int)),
            segment_views(segments@) == start + fragment_segments(pts, dts, done),
        decreases total - offset,
    {
        let remaining: usize = total - offset;
        let is_last = remaining <= step;
        let chunk: usize = if is_last { remaining } else { step };
        let fragment = OdsData {
            id: b.id,
            version: b.version,
            sequence: if is_last {
                SequenceFlag::Last
            } else {
                SequenceFlag::Continuation
            },
            data_length: 0,
            width: None,
            height: None,
            rle_data: copy_range(rle.as_slice(), offset, offset + chunk),
        };
        let seg = PgsSegment::from_ods(pts, dts, &fragment);
        proof {
            let rest = rle@.skip(offset as int);
            lemma_views_push(segments@, seg);
            assert(fragment.rle_data@ =~= rest.take(chunk as int));
            assert(rest.take(rest.len() as int) =~= rest);
            assert(rest.skip(chunk as int) =~= rle@.skip(offset + chunk));
            let later = later_fragments(b.id, b.version, rle@.skip(offset + chunk));
            if is_last {
                assert(seq![fragment@] =~= seq![fragment@] + later);
            }
            assert(later_fragments(b.id, b.version, rest) =~= seq![fragment@] + later);
            assert(done + (seq![fragment@] + later) =~= done.push(fragment@) + later);
            assert(fragment_segments(pts, dts, done.push(fragment@)) =~= fragment_segments(
                pts,
                dts,
                done,
            ).push(seg@));
            assert(start + fragment_segments(pts, dts, done.push(fragment@)) =~= (start
                + fragment_segments(pts, dts, done)).push(seg@));
            done = done.push(fragment@);
        }
        segments.push(seg);
        offset += chunk;
    }
    assert(done =~= all);
}

impl DisplaySetBuilder {
    /// A builder with a presentation timestamp and nothing else.
    pub fn new(pts: u64) -> (r: Self)
        ensures
            r@ == (BuilderView {
                pts,
                dts: 0,
                pcs: None,
                wds: None,
                palettes: Seq::empty(),
                objects: Seq::empty(),
            }),
    {
        let r = DisplaySetBuilder {
            pts,
            dts: 0,
            pcs: None,
            wds: None,
            palettes: Vec::new(),
            objects: Vec::new(),
        };
        assert(r@.palettes =~= Seq::<PdsView>::empty());
        assert(r@.objects =~= Seq::<BitmapView>::empty());
        r
    }

    /// Sets the decoding timestamp.
    pub fn dts(self, dts: u64) -> (r: Self)
        ensures
            r@ == (BuilderView { dts, ..self@ }),
    {
        let mut b = self;
        b.dts = dts;
        b
    }

    /// Sets the composition.
    pub fn pcs(self, pcs: PcsData) -> (r: Self)
        ensures
            r@ == (BuilderView { pcs: Some(pcs@), ..self@ }),
    {
        let mut b = self;
        b.pcs = Some(pcs);
        b
    }

    /// Sets the windows.
    pub fn wds(self, wds: WdsData) -> (r: Self)
        ensures
            r@ == (BuilderView { wds: Some(wds@), ..self@ }),
    {
        let mut b = self;
        b.wds = Some(wds);
        b
    }

    /// Adds a palette.
    pub fn palette(self, pds: PdsData) -> (r: Self)
        ensures
            r@ == (BuilderView { palettes: self@.palettes.push(pds@), ..self@ }),
    {
        let mut b = self;
        b.palettes.push(pds);
        assert(b@.palettes =~= self@.palettes.push(pds@));
        b
    }

    /// Adds a bitmap.
    pub fn object(self, obj: ObjectBitmap) -> (r: Self)
        ensures
            r@ == (BuilderView { objects: self@.objects.push(obj@), ..self@ }),
    {
        let mut b = self;
        b.objects.push(obj);
        assert(b@.objects =~= self@.objects.push(obj@));
        b
    }

    /// Builds the display set: composition, windows, palettes, objects and end.
    ///
    /// Fails without a composition, and if a bitmap does not hold as many
    /// pixels as its dimensions say.
    pub fn build(self) -> (r: Result<DisplaySet, PgsError>)
        ensures
            match (r, built(self@)) {
                (Ok(ds), Ok(v)) => ds@ == v,
                (Err(e), Err(v)) => e@ == v,
                _ => false,
            },
    {
        let (pts, dts) = (self.pts, self.dts);
        let pcs = match &self.pcs {
            Some(p) => p,
            None => {
                return Err(PgsError::EncodingError("DisplaySet requires a PCS".to_owned()));
            },
        };
        let composition_state = pcs.composition_state;
        let mut segments: Vec<PgsSegment> = Vec::new();
        segments.push(PgsSegment::from_pcs(pts, dts, pcs));
        if let Some(wds) = &self.wds {
            segments.push(PgsSegment::from_wds(pts, dts, wds));
        }
        let ghost leading = leading_segments(pts, dts, pcs@, self@.wds);
        assert(segment_views(segments@) =~= leading);
        let ghost palettes = self@.palettes;
        let mut i: usize = 0;
        while i < self.palettes.len()
            invariant
                i <= self.palettes@.len(),
                palettes == palette_views(self.palettes@),
                segment_views(segments@) == leading + palette_segments(
                    pts,
                    dts,
                    palettes.take(i as int),
                ),
            decreases self.palettes@.len() - i,
        {
            let seg = PgsSegment::from_pds(pts, dts, &self.palettes[i]);
            proof {
                lemma_views_push(segments@, seg);
                assert(palette_segments(pts, dts, palettes.take(i + 1)) =~= palette_segments(
                    pts,
                    dts,
                    palettes.take(i as int),
                ).push(seg@));
                assert(leading + palette_segments(pts, dts, palettes.take(i + 1)) =~= (leading
                    + palette_segments(pts, dts, palettes.take(i as int))).push(seg@));
            }
            segments.push(seg);
            i += 1;
        }
        assert(palettes.take(i as int) =~= palettes);
        let ghost upto = leading + palette_segments(pts, dts, palettes);
        let ghost objects = self@.objects;
        let mut k: usize = 0;
        assert(objects.skip(0) =~= objects);
        assert(segment_views(segments@) =~= upto + object_segments(pts, dts, objects.take(0)));
        while k < self.objects.len()
            invariant
                k <= self.objects@.len(),
                objects == bitmap_views(self.objects@),
                self@.objects == objects,
                self@.pcs is Some,
                first_irregular(objects) == first_irregular(objects.skip(k as int)),
                segment_views(segments@) == upto + object_segments(
                    pts,
                    dts,
                    objects.take(k as int),
                ),
            decreases self.objects@.len() - k,
        {
            let b = &self.objects[k];
            assert(objects.skip(k as int)[0] == b@);
            assert(objects.skip(k as int).skip(1) =~= objects.skip(k + 1));
            let rle = match encode_rle(b.pixels.as_slice(), b.width, b.height) {
                Some(rle) => rle,
                None => {
                    return Err(bitmap_failure(b));
                },
            };
            let ghost before = object_segments(pts, dts, objects.take(k as int));
            push_fragments(&mut segments, pts, dts, b, rle);
            k += 1;
            proof {
                let some = objects.take(k as int);
                assert(some.drop_last() =~= objects.take(k - 1));
                assert(upto + object_segments(pts, dts, some) =~= upto + before + bitmap_segments(
                    pts,
                    dts,
                    b@,
                ));
            }
        }
        assert(objects.take(k as int) =~= objects);
        let seg = PgsSegment::end_segment(pts, dts);
        proof {
            lemma_views_push(segments@, seg);
        }
        segments.push(seg);
        Ok(DisplaySet { pts, composition_state, segments })
    }
}

/// The bitmap data of fragments, joined.
pub open spec fn joined_rle(fragments: Seq<OdsView>) -> Seq<u8>
    decreases fragments.len(),
{
    if fragments.len() == 0 {
        Seq::empty()
    } else {
        fragments[0].rle_data + joined_rle(fragments.skip(1))
    }
}

proof fn lemma_later_fragments(id: u16, version: u8, rle: Seq<u8>)
    ensures
        joined_rle(later_fragments(id, version, rle)) == rle,
        forall|i: int|
            0 <= i < later_fragments(id, version, rle).len() ==> ods_bytes(
                #[trigger] later_fragments(id, version, rle)[i],
            ).len() <= MAX_SEGMENT_PAYLOAD,
        forall|i: int|
            0 <= i < later_fragments(id, version, rle).len() ==> (#[trigger] later_fragments(
                id,
                version,
                rle,
            )[i]).sequence == if i == later_fragments(id, version, rle).len() - 1 {
                SequenceFlag::Last
            } else {
                SequenceFlag::Continuation
            },
        rle.len() > 0 ==> later_fragments(id, version, rle).len() > 0,
    decreases rle.len(),
{
    let room = MAX_SEGMENT_PAYLOAD - ODS_CONT_HEADER;
    let all = later_fragments(id, version, rle);
    if rle.len() == 0 {
        assert(joined_rle(all) =~= rle);
    } else if rle.len() <= room {
        assert(all.skip(1) =~= Seq::<OdsView>::empty());
        assert(joined_rle(all.skip(1)) =~= Seq::<u8>::empty());
        assert(joined_rle(all) =~= rle);
    } else {
        let tail = later_fragments(id, version, rle.skip(room));
        lemma_later_fragments(id, version, rle.skip(room));
        assert(all.skip(1) =~= tail);
        assert(rle.take(room) + rle.skip(room) =~= rle);
        assert forall|i: int| 0 <= i < all.len() implies ods_bytes(#[trigger] all[i]).len()
            <= MAX_SEGMENT_PAYLOAD && all[i].sequence == if i == all.len() - 1 {
            SequenceFlag::Last
        } else {
            SequenceFlag::Continuation
        } by {
            if i > 0 {
                assert(all[i] == tail[i - 1]);
            }
        }
    }
}

/// Joining the bitmap data of a bitmap's fragments gives its encoding back,
/// and decoding that gives its pixels.
pub proof fn fragments_restore_bitmap(b: BitmapView)
    requires
        bitmap_regular(b),
    ensures
        joined_rle(fragments(b, encoded_rows(b.pixels, b.width as nat))) == encoded_rows(
            b.pixels,
            b.width as nat,
        ),
        decoded(
            joined_rle(fragments(b, encoded_rows(b.pixels, b.width as nat))),
            b.width as nat,
            b.height as nat,
        ) == Some(b.pixels),
{
    let rle = encoded_rows(b.pixels, b.width as nat);
    let all = fragments(b, rle);
    let room = MAX_SEGMENT_PAYLOAD - ODS_FIRST_HEADER;
    if rle.len() <= room {
        assert(all.skip(1) =~= Seq::<OdsView>::empty());
        assert(joined_rle(all.skip(1)) =~= Seq::<u8>::empty());
        assert(joined_rle(all) =~= rle);
    } else {
        lemma_later_fragments(b.id, b.version, rle.skip(room));
        assert(all.skip(1) =~= later_fragments(b.id, b.version, rle.skip(room)));
        assert(rle.take(room) + rle.skip(room) =~= rle);
    }
    decode_of_encode(b.pixels, b.width as nat, b.height as nat);
}

/// Every fragment's payload fits in a segment. A bitmap is one complete
/// fragment, or a first fragment, continuations and a last one.
pub proof fn fragments_fit(b: BitmapView, rle: Seq<u8>)
    ensures
        fragments(b, rle).len() > 0,
        forall|i: int|
            0 <= i < fragments(b, rle).len() ==> ods_bytes(
                #[trigger] fragments(b, rle)[i],
            ).len() <= MAX_SEGMENT_PAYLOAD,
        fragments(b, rle).len() == 1 ==> fragments(b, rle)[0].sequence is Complete,
        fragments(b, rle).len() > 1 ==> fragments(b, rle)[0].sequence is First && fragments(
            b,
            rle,
        ).last().sequence is Last,
        forall|i: int|
            0 < i < fragments(b, rle).len() - 1 ==> (#[trigger] fragments(
                b,
                rle,
            )[i]).sequence is Continuation,
{
    let all = fragments(b, rle);
    let room = MAX_SEGMENT_PAYLOAD - ODS_FIRST_HEADER;
    if rle.len() > room {
        let tail = later_fragments(b.id, b.version, rle.skip(room));
        lemma_later_fragments(b.id, b.version, rle.skip(room));
        assert forall|i: int| 0 < i < all.len() implies all[i] == tail[i - 1] by {}
        assert forall|i: int| 0 <= i < all.len() implies ods_bytes(#[trigger] all[i]).len()
            <= MAX_SEGMENT_PAYLOAD by {
            if i > 0 {
                assert(all[i] == tail[i - 1]);
            }
        }
        assert(all.last() == tail.last());
    }
}

proof fn lemma_collect(a: AssemblerView, segments: Seq<SegmentView>)
    requires
        forall|i: int|
            0 <= i < segments.len() ==> !((#[trigger] segments[i]).segment_type
                is PresentationComposition) && !(segments[i].segment_type is EndOfDisplaySet),
    ensures
        pushed_all(a, segments).0 == (AssemblerView { segments: a.segments + segments, ..a }),
        pushed_all(a, segments).1 == Seq::<DisplaySetView>::empty(),
    decreases segments.len(),
{
    if segments.len() == 0 {
        assert(a.segments + segments =~= a.segments);
    } else {
        lemma_collect(a, segments.drop_last());
        let s = segments.last();
        assert(s == segments[segments.len() - 1]);
        assert(a.segments + segments =~= (a.segments + segments.drop_last()).push(s));
    }
}

pub(crate) proof fn lemma_object_segments(pts: u64, dts: u64, objects: Seq<BitmapView>)
    ensures
        forall|i: int|
            0 <= i < object_segments(pts, dts, objects).len() ==> (#[trigger] object_segments(
                pts,
                dts,
                objects,
            )[i]).segment_type is ObjectDefinition,
    decreases objects.len(),
{
    if objects.len() > 0 {
        lemma_object_segments(pts, dts, objects.drop_last());
        let before = object_segments(pts, dts, objects.drop_last());
        let all = object_segments(pts, dts, objects);
        assert forall|i: int| 0 <= i < all.len() implies (#[trigger] all[i]).segment_type
            is ObjectDefinition by {
            if i < before.len() {
                assert(all[i] == before[i]);
            } else {
                assert(all[i] == bitmap_segments(pts, dts, objects.last())[i - before.len()]);
            }
        }
    }
}

/// An assembler, whatever it holds, that is given the segments of a built
/// display set completes exactly that display set and keeps nothing.
pub proof fn assembly_of_built(a: AssemblerView, b: BuilderView)
    requires
        built(b) is Ok,
    ensures
        pushed_all(a, built(b)->Ok_0.segments).1 == seq![built(b)->Ok_0],
        pushed_all(a, built(b)->Ok_0.segments).0.segments.len() == 0,
        pushed_all(a, built(b)->Ok_0.segments).0.state is None,
{
    let ds = built(b)->Ok_0;
    let pcs = b.pcs->0;
    let all = ds.segments;
    let first = all[0];
    let middle = all.subrange(1, all.len() - 1);
    let leading = leading_segments(b.pts, b.dts, pcs, b.wds);
    let palettes = palette_segments(b.pts, b.dts, b.palettes);
    let objects = object_segments(b.pts, b.dts, b.objects);
    let body = leading + palettes + objects;
    assert(all == body.push(end_segment_view(b.pts, b.dts)));
    assert(first == leading[0]);
    assert(first.payload[7] == pcs.composition_state.byte());
    assert(composition_state_of(first) == Some(pcs.composition_state));
    lemma_object_segments(b.pts, b.dts, b.objects);
    assert forall|i: int| 0 <= i < middle.len() implies !((#[trigger] middle[i]).segment_type
        is PresentationComposition) && !(middle[i].segment_type is EndOfDisplaySet) by {
        assert(middle[i] == body[i + 1]);
        let j = i + 1;
        if j < leading.len() {
            assert(body[j] == leading[j]);
        } else if j < leading.len() + palettes.len() {
            assert(body[j] == palettes[j - leading.len()]);
        } else {
            assert(body[j] == objects[j - leading.len() - palettes.len()]);
        }
    }
    let one = pushed(a, first).0;
    assert(all.drop_last() =~= seq![first] + middle);
    assert(seq![first].drop_last() =~= Seq::<SegmentView>::empty());
    assert(pushed_all(a, Seq::<SegmentView>::empty()) == (a, Seq::<DisplaySetView>::empty()));
    assert(pushed_all(a, seq![first]).0 == one);
    assert(pushed_all(a, seq![first]).1 =~= Seq::<DisplaySetView>::empty());
    pushed_all_append(a, seq![first], middle);
    lemma_collect(one, middle);
    assert(one.segments + middle =~= all.drop_last());
    assert(all.drop_last().push(all.last()) =~= all);
    assert(pushed_all(a, all).1 =~= seq![ds]);
}

/// A built display set starts with its composition segment, ends with its end
/// segment and has no other of either.
pub proof fn built_is_framed(b: BuilderView)
    requires
        built(b) is Ok,
    ensures
        ({
            let segments = built(b)->Ok_0.segments;
            &&& segments.len() >= 2
            &&& segments[0].segment_type is PresentationComposition
            &&& segments.last().segment_type is EndOfDisplaySet
            &&& forall|i: int|
                0 < i < segments.len() - 1 ==> !((#[trigger] segments[i]).segment_type
                    is PresentationComposition) && !(segments[i].segment_type is EndOfDisplaySet)
        }),
{
    let pcs = b.pcs->0;
    let all = built(b)->Ok_0.segments;
    let leading = leading_segments(b.pts, b.dts, pcs, b.wds);
    let palettes = palette_segments(b.pts, b.dts, b.palettes);
    let objects = object_segments(b.pts, b.dts, b.objects);
    lemma_object_segments(b.pts, b.dts, b.objects);
    assert forall|i: int| 0 < i < all.len() - 1 implies !((#[trigger] all[i]).segment_type
        is PresentationComposition) && !(all[i].segment_type is EndOfDisplaySet) by {
        if i < leading.len() {
            assert(all[i] == leading[i]);
        } else if i < leading.len() + palettes.len() {
            assert(all[i] == palettes[i - leading.len()]);
        } else {
            assert(all[i] == objects[i - leading.len() - palettes.len()]);
        }
    }
}

} // verus!
