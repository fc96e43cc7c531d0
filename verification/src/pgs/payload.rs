//! The payloads of PGS segments.
//!
//! Each kind of payload has a struct with a `parse` that reads the payload's
//! bytes and a `to_bytes` that writes them.
use vstd::prelude::*;
use crate::bytes::{
    be16, be16_bytes, be24, be24_bytes, copy_range, lemma_be16, lemma_be24, push_range, push_u16_be,
    push_u24_be, u16_be, u24_be,
};
use crate::pgs::segment::CompositionState;

verus! {

/// A Presentation Composition Segment's payload.
#[derive(Debug)]
pub struct PcsData {
    pub video_width: u16,
    pub video_height: u16,
    pub composition_number: u16,
    pub composition_state: CompositionState,
    pub palette_only: bool,
    pub palette_id: u8,
    pub objects: Vec<CompositionObject>,
}

/// A placement instruction: draw an object in a window at a position.
#[derive(Debug, Clone, Copy, PartialEq, Eq, Structural)]
pub struct CompositionObject {
    pub object_id: u16,
    pub window_id: u8,
    pub x: u16,
    pub y: u16,
    pub crop: Option<CropInfo>,
}

/// The cropping rectangle of a composition object.
#[derive(Debug, Clone, Copy, PartialEq, Eq, Structural)]
pub struct CropInfo {
    pub x: u16,
    pub y: u16,
    pub width: u16,
    pub height: u16,
}

/// A composition as a mathematical value.
#[verifier::ext_equal]
pub struct PcsView {
    pub video_width: u16,
    pub video_height: u16,
    pub composition_number: u16,
    pub composition_state: CompositionState,
    pub palette_only: bool,
    pub palette_id: u8,
    pub objects: Seq<CompositionObject>,
}

impl View for PcsData {
    type V = PcsView;

    open spec fn view(&self) -> PcsView {
        PcsView {
            video_width: self.video_width,
            video_height: self.video_height,
            composition_number: self.composition_number,
            composition_state: self.composition_state,
            palette_only: self.palette_only,
            palette_id: self.palette_id,
            objects: self.objects@,
        }
    }
}

/// `first` in front of the items, if there are any to be had.
pub open spec fn prepend<T>(first: Seq<T>, rest: Option<Seq<T>>) -> Option<Seq<T>> {
    match rest {
        Some(items) => Some(first + items),
        None => None,
    }
}

/// The number of bytes that a composition object takes.
pub open spec fn object_size(cropped: bool) -> int {
    if cropped {
        16
    } else {
        8
    }
}

/// Whether the composition object at `at` has a cropping rectangle.
pub open spec fn object_is_cropped(p: Seq<u8>, at: int) -> bool {
    p[at + 3] >= 0x80
}

/// Whether the composition object at `at` is there as a whole.
pub open spec fn object_fits(p: Seq<u8>, at: int) -> bool {
    at + 8 <= p.len() && (object_is_cropped(p, at) ==> at + 16 <= p.len())
}

/// The composition object at `at`.
pub open spec fn object_at(p: Seq<u8>, at: int) -> CompositionObject {
    CompositionObject {
        object_id: be16(p, at),
        window_id: p[at + 2],
        x: be16(p, at + 4),
        y: be16(p, at + 6),
        crop: if object_is_cropped(p, at) {
            Some(
                CropInfo {
                    x: be16(p, at + 8),
                    y: be16(p, at + 10),
                    width: be16(p, at + 12),
                    height: be16(p, at + 14),
                },
            )
        } else {
            None
        },
    }
}

/// The `n` composition objects at `at`, if they are there.
pub open spec fn objects_at(p: Seq<u8>, at: int, n: nat) -> Option<Seq<CompositionObject>>
    decreases n,
{
    if n == 0 {
        Some(Seq::empty())
    } else if !object_fits(p, at) {
        None
    } else {
        prepend(
            seq![object_at(p, at)],
            objects_at(p, at + object_size(object_is_cropped(p, at)), (n - 1) as nat),
        )
    }
}

/// The composition that a payload holds, if it is complete and its state is
/// known.
pub open spec fn pcs_parsed(p: Seq<u8>) -> Option<PcsView> {
    if p.len() < 11 {
        None
    } else {
        match (CompositionState::of_byte(p[7]), objects_at(p, 11, p[10] as nat)) {
            (Some(state), Some(objects)) => Some(
                PcsView {
                    video_width: be16(p, 0),
                    video_height: be16(p, 2),
                    composition_number: be16(p, 5),
                    composition_state: state,
                    palette_only: p[8] == 0x80,
                    palette_id: p[9],
                    objects,
                },
            ),
            _ => None,
        }
    }
}

/// The bytes of a cropping rectangle.
pub open spec fn crop_bytes(c: CropInfo) -> Seq<u8> {
    seq![
        (c.x / 256) as u8,
        (c.x % 256) as u8,
        (c.y / 256) as u8,
        (c.y % 256) as u8,
        (c.width / 256) as u8,
        (c.width % 256) as u8,
        (c.height / 256) as u8,
        (c.height % 256) as u8,
    ]
}

/// The bytes of a composition object in front of its cropping rectangle.
pub open spec fn object_head(o: CompositionObject) -> Seq<u8> {
    seq![
        (o.object_id / 256) as u8,
        (o.object_id % 256) as u8,
        o.window_id,
        if o.crop is Some {
            0x80u8
        } else {
            0u8
        },
        (o.x / 256) as u8,
        (o.x % 256) as u8,
        (o.y / 256) as u8,
        (o.y % 256) as u8,
    ]
}

/// The bytes of a composition object.
pub open spec fn object_bytes(o: CompositionObject) -> Seq<u8> {
    match o.crop {
        Some(c) => object_head(o) + crop_bytes(c),
        None => object_head(o),
    }
}

/// The bytes of composition objects, one after the other.
pub open spec fn objects_bytes(objects: Seq<CompositionObject>) -> Seq<u8>
    decreases objects.len(),
{
    if objects.len() == 0 {
        Seq::empty()
    } else {
        objects_bytes(objects.drop_last()) + object_bytes(objects.last())
    }
}

/// The fixed part of a composition's payload. The frame rate is always 0x10;
/// the object count keeps the low byte of the number of objects.
pub open spec fn pcs_head(v: PcsView) -> Seq<u8> {
    be16_bytes(v.video_width) + be16_bytes(v.video_height) + seq![0x10u8] + be16_bytes(
        v.composition_number,
    ) + seq![
        v.composition_state.byte(),
        if v.palette_only {
            0x80u8
        } else {
            0u8
        },
        v.palette_id,
        (v.objects.len() % 256) as u8,
    ]
}

/// The payload of a composition.
pub open spec fn pcs_bytes(v: PcsView) -> Seq<u8> {
    pcs_head(v) + objects_bytes(v.objects)
}

impl Clone for PcsData {
    fn clone(&self) -> (r: Self)
        ensures
            r@ == self@,
    {
        PcsData {
            video_width: self.video_width,
            video_height: self.video_height,
            composition_number: self.composition_number,
            composition_state: self.composition_state,
            palette_only: self.palette_only,
            palette_id: self.palette_id,
            objects: self.objects.clone(),
        }
    }
}

fn push_object(buf: &mut Vec<u8>, o: &CompositionObject)
    ensures
        final(buf)@ == old(buf)@ + object_bytes(*o),
{
    push_u16_be(buf, o.object_id);
    buf.push(o.window_id);
    buf.push(if o.crop.is_some() { 0x80 } else { 0x00 });
    push_u16_be(buf, o.x);
    push_u16_be(buf, o.y);
    match &o.crop {
        Some(c) => {
            push_u16_be(buf, c.x);
            push_u16_be(buf, c.y);
            push_u16_be(buf, c.width);
            push_u16_be(buf, c.height);
        },
        None => {},
    }
    assert(buf@ =~= old(buf)@ + object_bytes(*o));
}

fn read_object(payload: &[u8], at: usize) -> (r: CompositionObject)
    requires
        object_fits(payload@, at as int),
    ensures
        r == object_at(payload@, at as int),
{
    let len: usize = payload.len();
    assert(at + 8 <= len);
    let crop = if payload[at + 3] >= 0x80 {
        Some(
            CropInfo {
                x: u16_be(payload, at + 8),
                y: u16_be(payload, at + 10),
                width: u16_be(payload, at + 12),
                height: u16_be(payload, at + 14),
            },
        )
    } else {
        None
    };
    CompositionObject {
        object_id: u16_be(payload, at),
        window_id: payload[at + 2],
        x: u16_be(payload, at + 4),
        y: u16_be(payload, at + 6),
        crop,
    }
}

impl PcsData {
    /// Parses a payload. Returns `None` if it is truncated or its state is
    /// unknown.
    pub fn parse(payload: &[u8]) -> (r: Option<Self>)
        ensures
            r is Some <==> pcs_parsed(payload@) is Some,
            r matches Some(pcs) ==> pcs_parsed(payload@) == Some(pcs@),
    {
        if payload.len() < 11 {
            return None;
        }
        let composition_state = match CompositionState::from_byte(payload[7]) {
            Some(state) => state,
            None => {
                return None;
            },
        };
        let num_objects: usize = payload[10] as usize;
        let mut objects: Vec<CompositionObject> = Vec::new();
        let mut offset: usize = 11;
        let mut i: usize = 0;
        let ghost goal = objects_at(payload@, 11, num_objects as nat);
        assert(prepend(objects@, goal) =~= goal) by {
            if goal is Some {
                assert(objects@ + goal->0 =~= goal->0);
            }
        }
        while i < num_objects
            invariant
                i <= num_objects,
                objects@.len() == i,
                offset <= payload@.len(),
                goal == prepend(
                    objects@,
                    objects_at(payload@, offset as int, (num_objects - i) as nat),
                ),
                goal == objects_at(payload@, 11, payload@[10] as nat),
                CompositionState::of_byte(payload@[7]) is Some,
                payload@.len() >= 11,
            decreases num_objects - i,
        {
            let ghost before = objects@;
            if payload.len() - offset < 8 {
                return None;
            }
            let size: usize = if payload[offset + 3] >= 0x80 { 16 } else { 8 };
            if payload.len() - offset < size {
                return None;
            }
            let object = read_object(payload, offset);
            objects.push(object);
            offset += size;
            i += 1;
            proof {
                let rest = objects_at(payload@, offset as int, (num_objects - i) as nat);
                if rest is Some {
                    assert(before + (seq![object] + rest->0) =~= objects@ + rest->0);
                }
            }
        }
        assert(objects@ + Seq::<CompositionObject>::empty() =~= objects@);
        Some(
            PcsData {
                video_width: u16_be(payload, 0),
                video_height: u16_be(payload, 2),
                composition_number: u16_be(payload, 5),
                composition_state,
                palette_only: payload[8] == 0x80,
                palette_id: payload[9],
                objects,
            },
        )
    }

    /// Writes the payload, the inverse of `parse`.
    pub fn to_bytes(&self) -> (r: Vec<u8>)
        ensures
            r@ == pcs_bytes(self@),
    {
        let mut buf: Vec<u8> = Vec::new();
        push_u16_be(&mut buf, self.video_width);
        push_u16_be(&mut buf, self.video_height);
        buf.push(0x10);
        push_u16_be(&mut buf, self.composition_number);
        buf.push(self.composition_state.to_byte());
        buf.push(if self.palette_only { 0x80 } else { 0x00 });
        buf.push(self.palette_id);
        buf.push((self.objects.len() % 256) as u8);
        assert(buf@ =~= pcs_head(self@));
        let mut i: usize = 0;
        assert(self.objects@.take(0).len() == 0);
        assert(buf@ =~= pcs_head(self@) + objects_bytes(self.objects@.take(0)));
        while i < self.objects.len()
            invariant
                i <= self.objects@.len(),
                buf@ == pcs_head(self@) + objects_bytes(self.objects@.take(i as int)),
            decreases self.objects@.len() - i,
        {
            push_object(&mut buf, &self.objects[i]);
            i += 1;
            proof {
                let some = self.objects@.take(i as int);
                assert(some.drop_last() =~= self.objects@.take(i - 1));
                assert(buf@ =~= pcs_head(self@) + objects_bytes(some));
            }
        }
        assert(self.objects@.take(i as int) =~= self.objects@);
        buf
    }
}

proof fn lemma_objects_prepend(objects: Seq<CompositionObject>)
    requires
        objects.len() > 0,
    ensures
        objects_bytes(objects) == object_bytes(objects[0]) + objects_bytes(objects.skip(1)),
    decreases objects.len(),
{
    if objects.len() == 1 {
        assert(objects.drop_last() =~= Seq::<CompositionObject>::empty());
        assert(objects.skip(1) =~= Seq::<CompositionObject>::empty());
        assert(objects_bytes(objects.drop_last()) =~= Seq::<u8>::empty());
        assert(objects_bytes(objects.skip(1)) =~= Seq::<u8>::empty());
        assert(objects_bytes(objects) =~= object_bytes(objects[0]));
        assert(object_bytes(objects[0]) + Seq::<u8>::empty() =~= object_bytes(objects[0]));
    } else {
        lemma_objects_prepend(objects.drop_last());
        assert(objects.drop_last().skip(1) =~= objects.skip(1).drop_last());
        assert(objects_bytes(objects) =~= object_bytes(objects[0]) + objects_bytes(
            objects.skip(1),
        ));
    }
}

proof fn lemma_object_of_bytes(p: Seq<u8>, at: int, o: CompositionObject)
    requires
        0 <= at,
        at + object_bytes(o).len() <= p.len(),
        p.subrange(at, at + object_bytes(o).len()) == object_bytes(o),
    ensures
        object_fits(p, at),
        object_at(p, at) == o,
        object_size(object_is_cropped(p, at)) == object_bytes(o).len(),
{
    let b = object_bytes(o);
    let q = p.subrange(at, at + b.len());
    assert(forall|i: int| 0 <= i < b.len() ==> #[trigger] q[i] == p[at + i]);
    assert(forall|i: int| 0 <= i < 8 ==> #[trigger] object_head(o)[i] == q[i]);
    let h = object_head(o);
    assert(p[at] == h[0] && p[at + 1] == h[1] && p[at + 2] == h[2] && p[at + 3] == h[3]);
    assert(p[at + 4] == h[4] && p[at + 5] == h[5] && p[at + 6] == h[6] && p[at + 7] == h[7]);
    if o.crop is Some {
        let c = crop_bytes(o.crop->0);
        assert(forall|i: int| 0 <= i < 8 ==> #[trigger] c[i] == q[8 + i]);
        assert(p[at + 8] == c[0] && p[at + 9] == c[1] && p[at + 10] == c[2] && p[at + 11] == c[3]);
        assert(p[at + 12] == c[4] && p[at + 13] == c[5] && p[at + 14] == c[6] && p[at + 15]
            == c[7]);
    }
}

proof fn lemma_objects_of_bytes(p: Seq<u8>, at: int, objects: Seq<CompositionObject>)
    requires
        0 <= at <= p.len(),
        p.skip(at) == objects_bytes(objects),
    ensures
        objects_at(p, at, objects.len()) == Some(objects),
    decreases objects.len(),
{
    if objects.len() == 0 {
        assert(objects =~= Seq::<CompositionObject>::empty());
    } else {
        lemma_objects_prepend(objects);
        let b = object_bytes(objects[0]);
        let tail = objects.skip(1);
        assert(p.skip(at).len() == p.len() - at);
        assert(p.subrange(at, at + b.len()) =~= p.skip(at).take(b.len() as int));
        assert(p.skip(at).take(b.len() as int) =~= b);
        lemma_object_of_bytes(p, at, objects[0]);
        assert(p.skip(at + b.len()) =~= p.skip(at).skip(b.len() as int));
        assert(p.skip(at).skip(b.len() as int) =~= objects_bytes(tail));
        lemma_objects_of_bytes(p, at + b.len(), tail);
        assert(seq![objects[0]] + tail =~= objects);
    }
}

/// A written composition of at most 255 objects is parsed back unchanged.
pub proof fn pcs_parse_of_bytes(v: PcsView)
    requires
        v.objects.len() <= 255,
    ensures
        pcs_parsed(pcs_bytes(v)) == Some(v),
{
    let p = pcs_bytes(v);
    assert(pcs_head(v).len() == 11);
    assert(forall|i: int| 0 <= i < 11 ==> p[i] == pcs_head(v)[i]);
    assert(p.skip(11) =~= objects_bytes(v.objects));
    lemma_objects_of_bytes(p, 11, v.objects);
    assert(CompositionState::of_byte(v.composition_state.byte()) == Some(v.composition_state));
}

/// A Window Definition Segment's payload.
#[derive(Debug)]
pub struct WdsData {
    pub windows: Vec<WindowDefinition>,
}

/// A rectangular screen region where objects are drawn.
#[derive(Debug, Clone, Copy, PartialEq, Eq, Structural)]
pub struct WindowDefinition {
    pub id: u8,
    pub x: u16,
    pub y: u16,
    pub width: u16,
    pub height: u16,
}

impl View for WdsData {
    type V = Seq<WindowDefinition>;

    open spec fn view(&self) -> Seq<WindowDefinition> {
        self.windows@
    }
}

/// The window definition at `at`.
pub open spec fn window_at(p: Seq<u8>, at: int) -> WindowDefinition {
    WindowDefinition {
        id: p[at],
        x: be16(p, at + 1),
        y: be16(p, at + 3),
        width: be16(p, at + 5),
        height: be16(p, at + 7),
    }
}

/// The windows that a payload holds, if as many are there as it says.
pub open spec fn wds_parsed(p: Seq<u8>) -> Option<Seq<WindowDefinition>> {
    if p.len() == 0 || p.len() < 1 + 9 * p[0] {
        None
    } else {
        Some(Seq::new(p[0] as nat, |i: int| window_at(p, 1 + 9 * i)))
    }
}

/// The bytes of a window definition.
pub open spec fn window_bytes(w: WindowDefinition) -> Seq<u8> {
    seq![
        w.id,
        (w.x / 256) as u8,
        (w.x % 256) as u8,
        (w.y / 256) as u8,
        (w.y % 256) as u8,
        (w.width / 256) as u8,
        (w.width % 256) as u8,
        (w.height / 256) as u8,
        (w.height % 256) as u8,
    ]
}

/// The bytes of window definitions, one after the other.
pub open spec fn windows_bytes(windows: Seq<WindowDefinition>) -> Seq<u8> {
    Seq::new(9 * windows.len(), |k: int| window_bytes(windows[k / 9])[k % 9])
}

/// The payload of window definitions; the count keeps the low byte of their
/// number.
pub open spec fn wds_bytes(windows: Seq<WindowDefinition>) -> Seq<u8> {
    seq![(windows.len() % 256) as u8] + windows_bytes(windows)
}

impl Clone for WdsData {
    fn clone(&self) -> (r: Self)
        ensures
            r@ == self@,
    {
        WdsData { windows: self.windows.clone() }
    }
}

impl WdsData {
    /// Parses a payload. Returns `None` if it is truncated.
    pub fn parse(payload: &[u8]) -> (r: Option<Self>)
        ensures
            r is Some <==> wds_parsed(payload@) is Some,
            r matches Some(wds) ==> wds_parsed(payload@) == Some(wds@),
    {
        if payload.len() == 0 {
            return None;
        }
        let num_windows: usize = payload[0] as usize;
        let mut windows: Vec<WindowDefinition> = Vec::new();
        let mut i: usize = 0;
        while i < num_windows
            invariant
                i <= num_windows,
                payload@.len() > 0,
                num_windows == payload@[0],
                1 + 9 * i <= payload@.len(),
                windows@ == Seq::new(i as nat, |j: int| window_at(payload@, 1 + 9 * j)),
            decreases num_windows - i,
        {
            let offset: usize = 1 + 9 * i;
            if payload.len() - offset < 9 {
                return None;
            }
            windows.push(
                WindowDefinition {
                    id: payload[offset],
                    x: u16_be(payload, offset + 1),
                    y: u16_be(payload, offset + 3),
                    width: u16_be(payload, offset + 5),
                    height: u16_be(payload, offset + 7),
                },
            );
            i += 1;
            assert(windows@ =~= Seq::new(i as nat, |j: int| window_at(payload@, 1 + 9 * j)));
        }
        Some(WdsData { windows })
    }

    /// Writes the payload, the inverse of `parse`.
    pub fn to_bytes(&self) -> (r: Vec<u8>)
        ensures
            r@ == wds_bytes(self@),
    {
        let mut buf: Vec<u8> = Vec::new();
        buf.push((self.windows.len() % 256) as u8);
        let mut i: usize = 0;
        assert(buf@ =~= seq![(self@.len() % 256) as u8] + windows_bytes(self@.take(0)));
        while i < self.windows.len()
            invariant
                i <= self.windows@.len(),
                buf@ == seq![(self@.len() % 256) as u8] + windows_bytes(self@.take(i as int)),
            decreases self.windows@.len() - i,
        {
            let w = self.windows[i];
            let ghost before = buf@;
            buf.push(w.id);
            push_u16_be(&mut buf, w.x);
            push_u16_be(&mut buf, w.y);
            push_u16_be(&mut buf, w.width);
            push_u16_be(&mut buf, w.height);
            i += 1;
            proof {
                assert(buf@ =~= before + window_bytes(w));
                assert(windows_bytes(self@.take(i as int)) =~= windows_bytes(self@.take(i - 1))
                    + window_bytes(w));
                assert(buf@ =~= seq![(self@.len() % 256) as u8] + windows_bytes(
                    self@.take(i as int),
                ));
            }
        }
        assert(self@.take(i as int) =~= self@);
        buf
    }
}

proof fn lemma_window_at(windows: Seq<WindowDefinition>, i: int)
    requires
        0 <= i < windows.len(),
    ensures
        window_at(wds_bytes(windows), 1 + 9 * i) == windows[i],
{
    let p = wds_bytes(windows);
    let b = window_bytes(windows[i]);
    assert forall|k: int| 0 <= k < 9 implies p[1 + 9 * i + k] == #[trigger] b[k] by {
        assert(p[1 + (9 * i + k)] == windows_bytes(windows)[9 * i + k]);
        assert((9 * i + k) / 9 == i && (9 * i + k) % 9 == k);
    }
    assert(p[1 + 9 * i] == b[0] && p[1 + 9 * i + 1] == b[1] && p[1 + 9 * i + 2] == b[2]);
    assert(p[1 + 9 * i + 3] == b[3] && p[1 + 9 * i + 4] == b[4] && p[1 + 9 * i + 5] == b[5]);
    assert(p[1 + 9 * i + 6] == b[6] && p[1 + 9 * i + 7] == b[7] && p[1 + 9 * i + 8] == b[8]);
}

/// Written window definitions, at most 255 of them, are parsed back unchanged.
pub proof fn wds_parse_of_bytes(windows: Seq<WindowDefinition>)
    requires
        windows.len() <= 255,
    ensures
        wds_parsed(wds_bytes(windows)) == Some(windows),
{
    let p = wds_bytes(windows);
    assert(p[0] == windows.len());
    assert forall|i: int| 0 <= i < windows.len() implies #[trigger] window_at(p, 1 + 9 * i)
        == windows[i] by {
        lemma_window_at(windows, i);
    }
    assert(Seq::new(p[0] as nat, |i: int| window_at(p, 1 + 9 * i)) =~= windows);
}

/// A Palette Definition Segment's payload.
#[derive(Debug)]
pub struct PdsData {
    pub id: u8,
    pub version: u8,
    pub entries: Vec<PaletteEntry>,
}

/// A palette color: luminance, two chroma components and opacity.
#[derive(Debug, Clone, Copy, PartialEq, Eq, Structural)]
pub struct PaletteEntry {
    pub id: u8,
    pub luminance: u8,
    pub cr: u8,
    pub cb: u8,
    pub alpha: u8,
}

/// A palette as a mathematical value.
#[verifier::ext_equal]
pub struct PdsView {
    pub id: u8,
    pub version: u8,
    pub entries: Seq<PaletteEntry>,
}

impl View for PdsData {
    type V = PdsView;

    open spec fn view(&self) -> PdsView {
        PdsView { id: self.id, version: self.version, entries: self.entries@ }
    }
}

/// The palette entry at `at`.
pub open spec fn entry_at(p: Seq<u8>, at: int) -> PaletteEntry {
    PaletteEntry {
        id: p[at],
        luminance: p[at + 1],
        cr: p[at + 2],
        cb: p[at + 3],
        alpha: p[at + 4],
    }
}

/// The palette that a payload holds, if it is made of whole entries.
pub open spec fn pds_parsed(p: Seq<u8>) -> Option<PdsView> {
    if p.len() < 2 || (p.len() - 2) % 5 != 0 {
        None
    } else {
        Some(
            PdsView {
                id: p[0],
                version: p[1],
                entries: Seq::new(
                    ((p.len() - 2) / 5) as nat,
                    |i: int| entry_at(p, 2 + 5 * i),
                ),
            },
        )
    }
}

/// The bytes of a palette entry.
pub open spec fn entry_bytes(e: PaletteEntry) -> Seq<u8> {
    seq![e.id, e.luminance, e.cr, e.cb, e.alpha]
}

/// The bytes of palette entries, one after the other.
pub open spec fn entries_bytes(entries: Seq<PaletteEntry>) -> Seq<u8> {
    Seq::new(5 * entries.len(), |k: int| entry_bytes(entries[k / 5])[k % 5])
}

/// The payload of a palette.
pub open spec fn pds_bytes(v: PdsView) -> Seq<u8> {
    seq![v.id, v.version] + entries_bytes(v.entries)
}

impl Clone for PdsData {
    fn clone(&self) -> (r: Self)
        ensures
            r@ == self@,
    {
        PdsData { id: self.id, version: self.version, entries: self.entries.clone() }
    }
}

impl PdsData {
    /// Parses a payload. Returns `None` if it is truncated.
    pub fn parse(payload: &[u8]) -> (r: Option<Self>)
        ensures
            r is Some <==> pds_parsed(payload@) is Some,
            r matches Some(pds) ==> pds_parsed(payload@) == Some(pds@),
    {
        if payload.len() < 2 || (payload.len() - 2) % 5 != 0 {
            return None;
        }
        let num_entries: usize = (payload.len() - 2) / 5;
        let mut entries: Vec<PaletteEntry> = Vec::new();
        let mut i: usize = 0;
        while i < num_entries
            invariant
                i <= num_entries,
                2 + 5 * num_entries == payload@.len(),
                entries@ == Seq::new(i as nat, |j: int| entry_at(payload@, 2 + 5 * j)),
            decreases num_entries - i,
        {
            let len: usize = payload.len();
            assert(2 + 5 * i + 5 <= len);
            let base: usize = 2 + 5 * i;
            entries.push(
                PaletteEntry {
                    id: payload[base],
                    luminance: payload[base + 1],
                    cr: payload[base + 2],
                    cb: payload[base + 3],
                    alpha: payload[base + 4],
                },
            );
            i += 1;
            assert(entries@ =~= Seq::new(i as nat, |j: int| entry_at(payload@, 2 + 5 * j)));
        }
        Some(PdsData { id: payload[0], version: payload[1], entries })
    }

    /// Writes the payload, the inverse of `parse`.
    pub fn to_bytes(&self) -> (r: Vec<u8>)
        ensures
            r@ == pds_bytes(self@),
    {
        let mut buf: Vec<u8> = Vec::new();
        buf.push(self.id);
        buf.push(self.version);
        let mut i: usize = 0;
        assert(buf@ =~= seq![self.id, self.version] + entries_bytes(self.entries@.take(0)));
        while i < self.entries.len()
            invariant
                i <= self.entries@.len(),
                buf@ == seq![self.id, self.version] + entries_bytes(self.entries@.take(i as int)),
            decreases self.entries@.len() - i,
        {
            let e = self.entries[i];
            let ghost before = buf@;
            buf.push(e.id);
            buf.push(e.luminance);
            buf.push(e.cr);
            buf.push(e.cb);
            buf.push(e.alpha);
            i += 1;
            proof {
                assert(buf@ =~= before + entry_bytes(e));
                assert(entries_bytes(self.entries@.take(i as int)) =~= entries_bytes(
                    self.entries@.take(i - 1),
                ) + entry_bytes(e));
                assert(buf@ =~= seq![self.id, self.version] + entries_bytes(
                    self.entries@.take(i as int),
                ));
            }
        }
        assert(self.entries@.take(i as int) =~= self.entries@);
        buf
    }
}

proof fn lemma_entry_at(v: PdsView, i: int)
    requires
        0 <= i < v.entries.len(),
    ensures
        entry_at(pds_bytes(v), 2 + 5 * i) == v.entries[i],
{
    let p = pds_bytes(v);
    let b = entry_bytes(v.entries[i]);
    assert forall|k: int| 0 <= k < 5 implies p[2 + 5 * i + k] == #[trigger] b[k] by {
        assert(p[2 + (5 * i + k)] == entries_bytes(v.entries)[5 * i + k]);
        assert((5 * i + k) / 5 == i && (5 * i + k) % 5 == k);
    }
    assert(p[2 + 5 * i] == b[0] && p[2 + 5 * i + 1] == b[1] && p[2 + 5 * i + 2] == b[2]);
    assert(p[2 + 5 * i + 3] == b[3] && p[2 + 5 * i + 4] == b[4]);
}

/// A written palette is parsed back unchanged.
pub proof fn pds_parse_of_bytes(v: PdsView)
    ensures
        pds_parsed(pds_bytes(v)) == Some(v),
{
    let p = pds_bytes(v);
    assert forall|i: int| 0 <= i < v.entries.len() implies #[trigger] entry_at(p, 2 + 5 * i)
        == v.entries[i] by {
        lemma_entry_at(v, i);
    }
    assert(Seq::new(((p.len() - 2) / 5) as nat, |i: int| entry_at(p, 2 + 5 * i)) =~= v.entries);
}

/// A payload that holds a palette is written back unchanged.
pub proof fn pds_bytes_of_parse(p: Seq<u8>)
    requires
        pds_parsed(p) is Some,
    ensures
        pds_bytes(pds_parsed(p)->0) == p,
{
    let v = pds_parsed(p)->0;
    assert forall|k: int| 2 <= k < p.len() implies pds_bytes(v)[k] == p[k] by {
        let j = k - 2;
        assert(entries_bytes(v.entries)[j] == entry_bytes(v.entries[j / 5])[j % 5]);
        assert(v.entries[j / 5] == entry_at(p, 2 + 5 * (j / 5)));
        assert(k == 2 + 5 * (j / 5) + j % 5);
    }
    assert(pds_bytes(v) =~= p);
}

/// The position of a fragment within an object.
#[derive(Debug, Clone, Copy, PartialEq, Eq, Structural)]
pub enum SequenceFlag {
    /// Complete object in a single segment (0xC0).
    Complete,
    /// First fragment (0x80).
    First,
    /// Last fragment (0x40).
    Last,
    /// Middle fragment (0x00).
    Continuation,
}

impl SequenceFlag {
    /// The position that a byte stands for.
    pub open spec fn of_byte(b: u8) -> Option<SequenceFlag> {
        if b == 0xC0 {
            Some(SequenceFlag::Complete)
        } else if b == 0x80 {
            Some(SequenceFlag::First)
        } else if b == 0x40 {
            Some(SequenceFlag::Last)
        } else if b == 0x00 {
            Some(SequenceFlag::Continuation)
        } else {
            None
        }
    }

    /// The byte that stands for a position.
    pub open spec fn byte(self) -> u8 {
        match self {
            SequenceFlag::Complete => 0xC0,
            SequenceFlag::First => 0x80,
            SequenceFlag::Last => 0x40,
            SequenceFlag::Continuation => 0x00,
        }
    }

    /// Whether a fragment starts an object and so carries its dimensions.
    pub open spec fn starts(self) -> bool {
        self is Complete || self is First
    }

    /// The name of a position.
    pub open spec fn name(self) -> Seq<char> {
        match self {
            SequenceFlag::Complete => "complete"@,
            SequenceFlag::First => "first"@,
            SequenceFlag::Last => "last"@,
            SequenceFlag::Continuation => "continuation"@,
        }
    }

    /// The position that `b` stands for, if it stands for one.
    pub fn from_byte(b: u8) -> (r: Option<Self>)
        ensures
            r == SequenceFlag::of_byte(b),
    {
        match b {
            0xC0 => Some(SequenceFlag::Complete),
            0x80 => Some(SequenceFlag::First),
            0x40 => Some(SequenceFlag::Last),
            0x00 => Some(SequenceFlag::Continuation),
            _ => None,
        }
    }

    /// The byte that stands for this position.
    pub fn to_byte(self) -> (r: u8)
        ensures
            r == self.byte(),
    {
        match self {
            SequenceFlag::Complete => 0xC0,
            SequenceFlag::First => 0x80,
            SequenceFlag::Last => 0x40,
            SequenceFlag::Continuation => 0x00,
        }
    }

    /// The name of this position, as it stands in JSON.
    pub fn as_str(&self) -> (r: &'static str)
        ensures
            r@ == self.name(),
    {
        match self {
            SequenceFlag::Complete => "complete",
            SequenceFlag::First => "first",
            SequenceFlag::Last => "last",
            SequenceFlag::Continuation => "continuation",
        }
    }

    fn is_start(&self) -> (r: bool)
        ensures
            r == self.starts(),
    {
        match self {
            SequenceFlag::Complete => true,
            SequenceFlag::First => true,
            _ => false,
        }
    }
}

/// An Object Definition Segment's payload.
#[derive(Debug)]
pub struct OdsData {
    pub id: u16,
    pub version: u8,
    pub sequence: SequenceFlag,
    /// The length of the object's data, its dimensions included.
    pub data_length: u32,
    /// The bitmap's width, on a fragment that starts an object.
    pub width: Option<u16>,
    /// The bitmap's height, on a fragment that starts an object.
    pub height: Option<u16>,
    /// The fragment's part of the encoded bitmap.
    pub rle_data: Vec<u8>,
}

/// An object fragment as a mathematical value.
#[verifier::ext_equal]
pub struct OdsView {
    pub id: u16,
    pub version: u8,
    pub sequence: SequenceFlag,
    pub data_length: u32,
    pub width: Option<u16>,
    pub height: Option<u16>,
    pub rle_data: Seq<u8>,
}

impl View for OdsData {
    type V = OdsView;

    open spec fn view(&self) -> OdsView {
        OdsView {
            id: self.id,
            version: self.version,
            sequence: self.sequence,
            data_length: self.data_length,
            width: self.width,
            height: self.height,
            rle_data: self.rle_data@,
        }
    }
}

/// Where the encoded bitmap starts in a payload.
pub open spec fn rle_offset(sequence: SequenceFlag) -> int {
    if sequence.starts() {
        11
    } else {
        4
    }
}

/// The object fragment that a payload holds, if its header is complete and its
/// position known.
pub open spec fn ods_parsed(p: Seq<u8>) -> Option<OdsView> {
    if p.len() < 4 {
        None
    } else {
        match SequenceFlag::of_byte(p[3]) {
            None => None,
            Some(sequence) => if p.len() < rle_offset(sequence) {
                None
            } else {
                Some(
                    OdsView {
                        id: be16(p, 0),
                        version: p[2],
                        sequence,
                        data_length: if sequence.starts() {
                            be24(p, 4)
                        } else {
                            0
                        },
                        width: if sequence.starts() {
                            Some(be16(p, 7))
                        } else {
                            None
                        },
                        height: if sequence.starts() {
                            Some(be16(p, 9))
                        } else {
                            None
                        },
                        rle_data: p.skip(rle_offset(sequence)),
                    },
                )
            },
        }
    }
}

/// The data length that is written for a fragment that starts an object. That
/// of a complete object follows from its bitmap data; a first fragment names
/// the length of the whole object. Only the low three bytes are written.
pub open spec fn written_length(v: OdsView) -> u32 {
    if v.sequence is First {
        (v.data_length % 0x100_0000) as u32
    } else {
        ((v.rle_data.len() + 4) % 0x100_0000) as u32
    }
}

/// A dimension as it is written; one that is missing is written as 0.
pub open spec fn dimension(d: Option<u16>) -> u16 {
    match d {
        Some(v) => v,
        None => 0,
    }
}

/// The header of an object fragment's payload.
pub open spec fn ods_head(v: OdsView) -> Seq<u8> {
    let id = be16_bytes(v.id) + seq![v.version, v.sequence.byte()];
    if v.sequence.starts() {
        id + be24_bytes(written_length(v)) + be16_bytes(dimension(v.width)) + be16_bytes(
            dimension(v.height),
        )
    } else {
        id
    }
}

/// The payload of an object fragment.
pub open spec fn ods_bytes(v: OdsView) -> Seq<u8> {
    ods_head(v) + v.rle_data
}

impl Clone for OdsData {
    fn clone(&self) -> (r: Self)
        ensures
            r@ == self@,
    {
        OdsData {
            id: self.id,
            version: self.version,
            sequence: self.sequence,
            data_length: self.data_length,
            width: self.width,
            height: self.height,
            rle_data: self.rle_data.clone(),
        }
    }
}

impl OdsData {
    /// Parses a payload. Returns `None` if it is truncated or malformed.
    pub fn parse(payload: &[u8]) -> (r: Option<Self>)
        ensures
            r is Some <==> ods_parsed(payload@) is Some,
            r matches Some(ods) ==> ods_parsed(payload@) == Some(ods@),
    {
        if payload.len() < 4 {
            return None;
        }
        let sequence = match SequenceFlag::from_byte(payload[3]) {
            Some(s) => s,
            None => {
                return None;
            },
        };
        if sequence.is_start() {
            if payload.len() < 11 {
                return None;
            }
            Some(
                OdsData {
                    id: u16_be(payload, 0),
                    version: payload[2],
                    sequence,
                    data_length: u24_be(payload, 4),
                    width: Some(u16_be(payload, 7)),
                    height: Some(u16_be(payload, 9)),
                    rle_data: copy_range(payload, 11, payload.len()),
                },
            )
        } else {
            Some(
                OdsData {
                    id: u16_be(payload, 0),
                    version: payload[2],
                    sequence,
                    data_length: 0,
                    width: None,
                    height: None,
                    rle_data: copy_range(payload, 4, payload.len()),
                },
            )
        }
    }

    /// Writes the payload, the inverse of `parse`.
    pub fn to_bytes(&self) -> (r: Vec<u8>)
        ensures
            r@ == ods_bytes(self@),
    {
        let mut buf: Vec<u8> = Vec::new();
        push_u16_be(&mut buf, self.id);
        buf.push(self.version);
        buf.push(self.sequence.to_byte());
        assert(buf@ =~= be16_bytes(self.id) + seq![self.version, self.sequence.byte()]);
        if self.sequence.is_start() {
            let data_length: u32 = match self.sequence {
                SequenceFlag::First => self.data_length % 0x100_0000,
                _ => ((self.rle_data.len() % 0x100_0000) as u32 + 4) % 0x100_0000,
            };
            assert(data_length == written_length(self@));
            push_u24_be(&mut buf, data_length);
            push_u16_be(&mut buf, match self.width { Some(v) => v, None => 0 });
            push_u16_be(&mut buf, match self.height { Some(v) => v, None => 0 });
        }
        assert(buf@ == ods_head(self@));
        push_range(&mut buf, self.rle_data.as_slice(), 0, self.rle_data.len());
        assert(self.rle_data@.subrange(0, self.rle_data@.len() as int) =~= self.rle_data@);
        buf
    }
}

/// Whether a fragment has exactly the fields that its position gives it, and a
/// complete object the length of its bitmap data.
pub open spec fn ods_regular(v: OdsView) -> bool {
    &&& v.sequence.starts() ==> v.width is Some && v.height is Some && v.data_length < 0x100_0000
    &&& !v.sequence.starts() ==> v.width is None && v.height is None && v.data_length == 0
    &&& v.sequence is Complete ==> v.data_length == v.rle_data.len() + 4
}

/// A written fragment is parsed back unchanged, if it has the fields of its
/// position.
pub proof fn ods_parse_of_bytes(v: OdsView)
    requires
        ods_regular(v),
    ensures
        ods_parsed(ods_bytes(v)) == Some(v),
{
    let p = ods_bytes(v);
    let h = ods_head(v);
    assert(h.len() == rle_offset(v.sequence));
    assert(p.subrange(0, 2) =~= be16_bytes(v.id));
    lemma_be16(p, 0, v.id);
    assert(p[2] == v.version && p[3] == v.sequence.byte());
    if v.sequence.starts() {
        assert(p.subrange(4, 7) =~= be24_bytes(written_length(v)));
        assert(p.subrange(7, 9) =~= be16_bytes(dimension(v.width)));
        assert(p.subrange(9, 11) =~= be16_bytes(dimension(v.height)));
        lemma_be24(p, 4, written_length(v));
        lemma_be16(p, 7, dimension(v.width));
        lemma_be16(p, 9, dimension(v.height));
    }
    assert(p.skip(rle_offset(v.sequence)) =~= v.rle_data);
    assert(SequenceFlag::of_byte(v.sequence.byte()) == Some(v.sequence));
}

/// A payload that holds a fragment is written back unchanged, if a complete
/// object says the length of its bitmap data.
pub proof fn ods_bytes_of_parse(p: Seq<u8>)
    requires
        ods_parsed(p) is Some,
        ods_parsed(p)->0.sequence is Complete ==> ods_parsed(p)->0.data_length == p.len() - 7,
    ensures
        ods_bytes(ods_parsed(p)->0) == p,
{
    let v = ods_parsed(p)->0;
    let n = rle_offset(v.sequence);
    lemma_be16(p, 0, v.id);
    assert(p.subrange(2, 4) =~= seq![v.version, v.sequence.byte()]);
    let id = p.subrange(0, 2) + p.subrange(2, 4);
    if v.sequence.starts() {
        assert(be24(p, 4) < 0x100_0000);
        assert(v.data_length == written_length(v));
        lemma_be24(p, 4, v.data_length);
        lemma_be16(p, 7, be16(p, 7));
        lemma_be16(p, 9, be16(p, 9));
        let parts = id + p.subrange(4, 7) + p.subrange(7, 9) + p.subrange(9, 11);
        assert(ods_head(v) == parts);
        assert(parts =~= p.take(n));
    } else {
        assert(id =~= p.take(n));
    }
    assert(p.take(n) + p.skip(n) =~= p);
}

/// The encoded bitmap bytes in an object fragment's payload.
///
/// Returns `None` if the payload is too short for the header.
pub fn ods_rle_data(payload: &[u8], sequence: SequenceFlag) -> (r: Option<&[u8]>)
    ensures
        r is Some <==> payload@.len() >= rle_offset(sequence),
        r matches Some(data) ==> data@ == payload@.skip(rle_offset(sequence)),
{
    let offset: usize = if sequence.is_start() { 11 } else { 4 };
    if payload.len() < offset {
        return None;
    }
    let rest = vstd::slice::slice_subrange(payload, offset, payload.len());
    assert(rest@ =~= payload@.skip(offset as int));
    Some(rest)
}

/// A segment's payload, by the segment's kind.
#[derive(Debug, Clone)]
pub enum ParsedPayload {
    Pcs(PcsData),
    Wds(WdsData),
    Pds(PdsData),
    Ods(OdsData),
    End,
}

} // verus!
