//! Segments, their payloads and bitmaps as they are written, byte by byte.
use vstd::prelude::*;
use crate::bytes::{be16, be24};
use crate::ebml::written::{holds, lemma_holds_at, lemma_holds_parts};
use crate::error::ErrorView;
use crate::pgs::payload::{
    entry_at, object_at, object_bytes, object_fits, object_is_cropped, object_size, objects_at,
    objects_bytes, ods_bytes, ods_parsed, pcs_bytes, pcs_parsed, pds_bytes, pds_parsed, wds_bytes,
    wds_parsed, window_at, CompositionObject, CropInfo, OdsView, PaletteEntry, PcsView, PdsView,
    SequenceFlag, WindowDefinition,
};
use crate::pgs::rle::{
    decoded, decoded_from, encoded_row, encoded_rows, encoded_run, first_code, leading_run, padded,
    pixel_run, run_code, RleCode,
};
use crate::pgs::segment::{
    segment_bytes, segment_parsed, CompositionState, SegmentType, SegmentView,
};

verus! {

/// The two bytes of a number.
pub open spec fn two_bytes(v: u16) -> Seq<u8> {
    seq![(v / 256) as u8, (v % 256) as u8]
}

/// The byte that stands for a kind of segment.
pub open spec fn kind_byte(t: SegmentType) -> u8 {
    match t {
        SegmentType::PaletteDefinition => 0x14,
        SegmentType::ObjectDefinition => 0x15,
        SegmentType::PresentationComposition => 0x16,
        SegmentType::WindowDefinition => 0x17,
        SegmentType::EndOfDisplaySet => 0x80,
    }
}

/// The byte that stands for a composition state.
pub open spec fn state_byte(s: CompositionState) -> u8 {
    match s {
        CompositionState::Normal => 0x00,
        CompositionState::AcquisitionPoint => 0x40,
        CompositionState::EpochStart => 0x80,
    }
}

/// A placement of an object, with a byte of flags of which the first bit says that
/// a cropping rectangle follows.
pub struct Placement {
    pub object_id: u16,
    pub window_id: u8,
    pub flags: u8,
    pub x: u16,
    pub y: u16,
    pub crop: Option<CropInfo>,
}

/// A placement as it is written.
pub open spec fn placement_bytes(o: Placement) -> Seq<u8> {
    two_bytes(o.object_id) + seq![o.window_id, o.flags] + two_bytes(o.x) + two_bytes(o.y)
        + match o.crop {
        Some(c) => two_bytes(c.x) + two_bytes(c.y) + two_bytes(c.width) + two_bytes(c.height),
        None => Seq::empty(),
    }
}

/// Placements as they are written.
pub open spec fn placements_bytes(os: Seq<Placement>) -> Seq<u8>
    decreases os.len(),
{
    if os.len() == 0 {
        Seq::empty()
    } else {
        placement_bytes(os[0]) + placements_bytes(os.skip(1))
    }
}

/// The placements that are to be read.
pub open spec fn placements_said(os: Seq<Placement>) -> Seq<CompositionObject> {
    Seq::new(
        os.len(),
        |i: int|
            CompositionObject {
                object_id: os[i].object_id,
                window_id: os[i].window_id,
                x: os[i].x,
                y: os[i].y,
                crop: os[i].crop,
            },
    )
}

/// Whether a placement's flags say what it has.
pub open spec fn is_placement(o: Placement) -> bool {
    o.crop is Some <==> o.flags >= 0x80
}

proof fn lemma_two(p: Seq<u8>, at: int, v: u16)
    requires
        holds(p, at, two_bytes(v)),
    ensures
        be16(p, at) == v,
{
    lemma_holds_at(p, at, two_bytes(v), 0);
    lemma_holds_at(p, at, two_bytes(v), 1);
}

pub(crate) proof fn lemma_placement(p: Seq<u8>, at: int, o: Placement)
    requires
        is_placement(o),
        holds(p, at, placement_bytes(o)),
    ensures
        object_fits(p, at),
        object_at(p, at) == (CompositionObject {
            object_id: o.object_id,
            window_id: o.window_id,
            x: o.x,
            y: o.y,
            crop: o.crop,
        }),
        object_is_cropped(p, at) == (o.crop is Some),
        placement_bytes(o).len() == object_size(o.crop is Some),
{
    let b = placement_bytes(o);
    lemma_holds_at(p, at, b, 0);
    lemma_holds_at(p, at, b, 1);
    lemma_holds_at(p, at, b, 2);
    lemma_holds_at(p, at, b, 3);
    lemma_holds_at(p, at, b, 4);
    lemma_holds_at(p, at, b, 5);
    lemma_holds_at(p, at, b, 6);
    lemma_holds_at(p, at, b, 7);
    if o.crop is Some {
        lemma_holds_at(p, at, b, 8);
        lemma_holds_at(p, at, b, 9);
        lemma_holds_at(p, at, b, 10);
        lemma_holds_at(p, at, b, 11);
        lemma_holds_at(p, at, b, 12);
        lemma_holds_at(p, at, b, 13);
        lemma_holds_at(p, at, b, 14);
        lemma_holds_at(p, at, b, 15);
    }
}

proof fn lemma_placements(p: Seq<u8>, at: int, os: Seq<Placement>)
    requires
        forall|i: int| 0 <= i < os.len() ==> is_placement(#[trigger] os[i]),
        holds(p, at, placements_bytes(os)),
    ensures
        objects_at(p, at, os.len()) == Some(placements_said(os)),
    decreases os.len(),
{
    if os.len() == 0 {
        assert(placements_said(os) =~= Seq::<CompositionObject>::empty());
    } else {
        let rest = os.skip(1);
        assert(is_placement(os[0]));
        lemma_holds_parts(p, at, placement_bytes(os[0]), placements_bytes(rest));
        lemma_placement(p, at, os[0]);
        assert forall|i: int| 0 <= i < rest.len() implies is_placement(#[trigger] rest[i]) by {
            assert(rest[i] == os[i + 1]);
        }
        lemma_placements(p, at + placement_bytes(os[0]).len(), rest);
        assert(placements_said(os) =~= seq![placements_said(os)[0]] + placements_said(rest));
    }
}

/// The payload of a composition: the size of the video, a frame rate, a number, a
/// state, a byte that is 0x80 if only the palette changes, the palette, the number
/// of placements and the placements.
pub open spec fn composition_bytes(
    width: u16,
    height: u16,
    rate: u8,
    number: u16,
    state: CompositionState,
    update: u8,
    palette: u8,
    placements: Seq<Placement>,
) -> Seq<u8> {
    two_bytes(width) + two_bytes(height) + seq![rate] + two_bytes(number) + seq![
        state_byte(state),
        update,
        palette,
        placements.len() as u8,
    ] + placements_bytes(placements)
}

/// A composition that is written is read back, whatever follows it.
pub proof fn written_composition_is_read(
    width: u16,
    height: u16,
    rate: u8,
    number: u16,
    state: CompositionState,
    update: u8,
    palette: u8,
    placements: Seq<Placement>,
    tail: Seq<u8>,
)
    requires
        placements.len() <= 255,
        forall|i: int| 0 <= i < placements.len() ==> is_placement(#[trigger] placements[i]),
    ensures
        pcs_parsed(
            composition_bytes(width, height, rate, number, state, update, palette, placements)
                + tail,
        ) == Some(
            PcsView {
                video_width: width,
                video_height: height,
                composition_number: number,
                composition_state: state,
                palette_only: update == 0x80,
                palette_id: palette,
                objects: placements_said(placements),
            },
        ),
{
    let b = composition_bytes(width, height, rate, number, state, update, palette, placements);
    let p = b + tail;
    assert(p.subrange(11, 11 + placements_bytes(placements).len() as int) =~= placements_bytes(
        placements,
    ));
    lemma_placements(p, 11, placements);
    assert(p[0] == width / 256 && p[1] == width % 256);
    assert(p[2] == height / 256 && p[3] == height % 256);
    assert(p[5] == number / 256 && p[6] == number % 256);
    assert(p[10] == placements.len());
}

/// The placements of a composition, with the flags that say what they have.
pub open spec fn placed(objects: Seq<CompositionObject>) -> Seq<Placement> {
    Seq::new(
        objects.len(),
        |i: int|
            Placement {
                object_id: objects[i].object_id,
                window_id: objects[i].window_id,
                flags: if objects[i].crop is Some {
                    0x80
                } else {
                    0
                },
                x: objects[i].x,
                y: objects[i].y,
                crop: objects[i].crop,
            },
    )
}

proof fn lemma_placed(objects: Seq<CompositionObject>)
    ensures
        objects_bytes(objects) == placements_bytes(placed(objects)),
    decreases objects.len(),
{
    if objects.len() > 0 {
        let init = objects.drop_last();
        let one = placed(objects).last();
        lemma_placed(init);
        assert(placed(objects) =~= placed(init).push(one));
        lemma_placements_push(placed(init), one);
        assert(object_bytes(objects.last()) =~= placement_bytes(one));
    }
}

proof fn lemma_placements_push(os: Seq<Placement>, o: Placement)
    ensures
        placements_bytes(os.push(o)) == placements_bytes(os) + placement_bytes(o),
    decreases os.len(),
{
    if os.len() == 0 {
        assert(os.push(o).skip(1) =~= os);
        assert(placement_bytes(o) + Seq::<u8>::empty() =~= Seq::<u8>::empty() + placement_bytes(o));
    } else {
        assert(os.push(o).skip(1) =~= os.skip(1).push(o));
        lemma_placements_push(os.skip(1), o);
        assert(placement_bytes(os[0]) + (placements_bytes(os.skip(1)) + placement_bytes(o)) =~= (
        placement_bytes(os[0]) + placements_bytes(os.skip(1))) + placement_bytes(o));
    }
}

/// The library writes a composition with the frame rate 0x10, and each field in
/// its place.
pub proof fn composition_is_written(v: PcsView)
    requires
        v.objects.len() <= 255,
    ensures
        pcs_bytes(v) == composition_bytes(
            v.video_width,
            v.video_height,
            0x10,
            v.composition_number,
            v.composition_state,
            if v.palette_only {
                0x80
            } else {
                0
            },
            v.palette_id,
            placed(v.objects),
        ),
{
    lemma_placed(v.objects);
    assert(pcs_bytes(v) =~= composition_bytes(
        v.video_width,
        v.video_height,
        0x10,
        v.composition_number,
        v.composition_state,
        if v.palette_only {
            0x80
        } else {
            0
        },
        v.palette_id,
        placed(v.objects),
    ));
}

/// A window as it is written.
pub open spec fn one_window_bytes(w: WindowDefinition) -> Seq<u8> {
    seq![w.id] + two_bytes(w.x) + two_bytes(w.y) + two_bytes(w.width) + two_bytes(w.height)
}

/// Windows as they are written.
pub open spec fn all_windows_bytes(ws: Seq<WindowDefinition>) -> Seq<u8>
    decreases ws.len(),
{
    if ws.len() == 0 {
        Seq::empty()
    } else {
        all_windows_bytes(ws.drop_last()) + one_window_bytes(ws.last())
    }
}

proof fn lemma_windows(p: Seq<u8>, ws: Seq<WindowDefinition>, i: int)
    requires
        holds(p, 1, all_windows_bytes(ws)),
        0 <= i < ws.len(),
    ensures
        all_windows_bytes(ws).len() == 9 * ws.len(),
        window_at(p, 1 + 9 * i) == ws[i],
    decreases ws.len(),
{
    let init = ws.drop_last();
    let one = one_window_bytes(ws.last());
    lemma_windows_len(ws);
    lemma_windows_len(init);
    lemma_holds_parts(p, 1, all_windows_bytes(init), one);
    if i < init.len() {
        lemma_windows(p, init, i);
    } else {
        let at = 1 + 9 * i;
        lemma_holds_at(p, at, one, 0);
        lemma_holds_at(p, at, one, 1);
        lemma_holds_at(p, at, one, 2);
        lemma_holds_at(p, at, one, 3);
        lemma_holds_at(p, at, one, 4);
        lemma_holds_at(p, at, one, 5);
        lemma_holds_at(p, at, one, 6);
        lemma_holds_at(p, at, one, 7);
        lemma_holds_at(p, at, one, 8);
    }
}

pub(crate) proof fn lemma_windows_len(ws: Seq<WindowDefinition>)
    ensures
        all_windows_bytes(ws).len() == 9 * ws.len(),
    decreases ws.len(),
{
    if ws.len() > 0 {
        lemma_windows_len(ws.drop_last());
    }
}

/// Windows that are written behind their number are read back, whatever follows
/// them, and the library writes them so.
pub proof fn written_windows_are_read(ws: Seq<WindowDefinition>, tail: Seq<u8>)
    requires
        ws.len() <= 255,
    ensures
        wds_parsed(seq![ws.len() as u8] + all_windows_bytes(ws) + tail) == Some(ws),
        wds_bytes(ws) == seq![ws.len() as u8] + all_windows_bytes(ws),
{
    let p = seq![ws.len() as u8] + all_windows_bytes(ws) + tail;
    lemma_windows_len(ws);
    assert(p.subrange(1, 1 + all_windows_bytes(ws).len() as int) =~= all_windows_bytes(ws));
    assert forall|i: int| 0 <= i < ws.len() implies window_at(p, 1 + 9 * i) == ws[i] by {
        lemma_windows(p, ws, i);
    }
    assert(wds_parsed(p)->0 =~= ws);
    lemma_windows_bytes(ws);
}

proof fn lemma_windows_bytes(ws: Seq<WindowDefinition>)
    requires
        ws.len() <= 255,
    ensures
        wds_bytes(ws) == seq![ws.len() as u8] + all_windows_bytes(ws),
{
    let q = wds_bytes(ws);
    let b = seq![ws.len() as u8] + all_windows_bytes(ws);
    lemma_windows_len(ws);
    assert(q.len() == b.len());
    assert forall|k: int| 0 <= k < q.len() implies q[k] == b[k] by {
        if k > 0 {
            lemma_windows_byte(ws, k - 1);
        }
    }
    assert(q =~= b);
}

proof fn lemma_windows_byte(ws: Seq<WindowDefinition>, k: int)
    requires
        0 <= k < 9 * ws.len(),
    ensures
        all_windows_bytes(ws)[k] == crate::pgs::payload::window_bytes(ws[k / 9])[k % 9],
    decreases ws.len(),
{
    let init = ws.drop_last();
    lemma_windows_len(ws);
    lemma_windows_len(init);
    if k < 9 * init.len() {
        lemma_windows_byte(init, k);
    } else {
        assert(k / 9 == ws.len() - 1);
        assert(one_window_bytes(ws.last()) =~= crate::pgs::payload::window_bytes(ws.last()));
    }
}

/// Palette entries as they are written: the identifier, the luminance, the red and
/// the blue difference, and the opacity of each.
pub open spec fn all_entries_bytes(es: Seq<PaletteEntry>) -> Seq<u8>
    decreases es.len(),
{
    if es.len() == 0 {
        Seq::empty()
    } else {
        let e = es.last();
        all_entries_bytes(es.drop_last()) + seq![e.id, e.luminance, e.cr, e.cb, e.alpha]
    }
}

proof fn lemma_entries_len(es: Seq<PaletteEntry>)
    ensures
        all_entries_bytes(es).len() == 5 * es.len(),
    decreases es.len(),
{
    if es.len() > 0 {
        lemma_entries_len(es.drop_last());
    }
}

proof fn lemma_entries(es: Seq<PaletteEntry>, i: int)
    requires
        0 <= i < es.len(),
    ensures
        all_entries_bytes(es).subrange(5 * i, 5 * i + 5) == seq![
            es[i].id,
            es[i].luminance,
            es[i].cr,
            es[i].cb,
            es[i].alpha,
        ],
    decreases es.len(),
{
    let init = es.drop_last();
    let b = all_entries_bytes(es);
    lemma_entries_len(es);
    lemma_entries_len(init);
    if i < init.len() {
        lemma_entries(init, i);
        assert(b.subrange(5 * i, 5 * i + 5) =~= all_entries_bytes(init).subrange(5 * i, 5 * i + 5));
    } else {
        let e = es.last();
        assert(b.subrange(5 * i, 5 * i + 5) =~= seq![e.id, e.luminance, e.cr, e.cb, e.alpha]);
    }
}

/// A palette that is written is read back, and the library writes it so.
pub proof fn written_palette_is_read(v: PdsView)
    ensures
        pds_parsed(seq![v.id, v.version] + all_entries_bytes(v.entries)) == Some(v),
        pds_bytes(v) == seq![v.id, v.version] + all_entries_bytes(v.entries),
{
    let p = seq![v.id, v.version] + all_entries_bytes(v.entries);
    lemma_entries_len(v.entries);
    let es = v.entries;
    assert forall|i: int| 0 <= i < es.len() implies entry_at(p, 2 + 5 * i) == es[i] by {
        lemma_entries(es, i);
        let part = all_entries_bytes(es).subrange(5 * i, 5 * i + 5);
        assert(p[2 + 5 * i] == part[0]);
        assert(p[2 + 5 * i + 1] == part[1]);
        assert(p[2 + 5 * i + 2] == part[2]);
        assert(p[2 + 5 * i + 3] == part[3]);
        assert(p[2 + 5 * i + 4] == part[4]);
    }
    assert((p.len() - 2) / 5 == es.len());
    assert(pds_parsed(p)->0.entries =~= es);
    let q = pds_bytes(v);
    assert forall|k: int| 0 <= k < p.len() implies q[k] == p[k] by {
        if k >= 2 {
            let i = (k - 2) / 5;
            lemma_entries(es, i);
            let part = all_entries_bytes(es).subrange(5 * i, 5 * i + 5);
            assert(p[k] == part[(k - 2) % 5]);
        }
    }
    assert(q =~= p);
}

/// The byte that says which fragment of an object one is.
pub open spec fn sequence_byte(f: SequenceFlag) -> u8 {
    match f {
        SequenceFlag::Continuation => 0x00,
        SequenceFlag::Last => 0x40,
        SequenceFlag::First => 0x80,
        SequenceFlag::Complete => 0xC0,
    }
}

/// The three bytes of a length.
pub open spec fn three_bytes(n: u32) -> Seq<u8> {
    seq![(n / 0x1_0000 % 256) as u8, (n / 256 % 256) as u8, (n % 256) as u8]
}

/// The payload of a fragment that starts an object: its identifier, its version,
/// which fragment it is, the length of the object's data, its size, and data.
pub open spec fn first_fragment_bytes(
    id: u16,
    version: u8,
    flag: SequenceFlag,
    length: u32,
    width: u16,
    height: u16,
    rle: Seq<u8>,
) -> Seq<u8> {
    two_bytes(id) + seq![version, sequence_byte(flag)] + three_bytes(length) + two_bytes(width)
        + two_bytes(height) + rle
}

/// An object fragment that is written is read back: one that starts an object with
/// its size, any other with its data only.
pub proof fn written_fragment_is_read(
    id: u16,
    version: u8,
    flag: SequenceFlag,
    length: u32,
    width: u16,
    height: u16,
    rle: Seq<u8>,
)
    requires
        length < 0x100_0000,
    ensures
        flag is Complete || flag is First ==> ods_parsed(
            first_fragment_bytes(id, version, flag, length, width, height, rle),
        ) == Some(
            OdsView {
                id,
                version,
                sequence: flag,
                data_length: length,
                width: Some(width),
                height: Some(height),
                rle_data: rle,
            },
        ),
        flag is Continuation || flag is Last ==> ods_parsed(
            two_bytes(id) + seq![version, sequence_byte(flag)] + rle,
        ) == Some(
            OdsView {
                id,
                version,
                sequence: flag,
                data_length: 0,
                width: None,
                height: None,
                rle_data: rle,
            },
        ),
{
    let a = first_fragment_bytes(id, version, flag, length, width, height, rle);
    let b = two_bytes(id) + seq![version, sequence_byte(flag)] + rle;
    assert(a.skip(11) =~= rle);
    assert(b.skip(4) =~= rle);
    assert(a[4] == length / 0x1_0000 % 256 && a[5] == length / 256 % 256 && a[6] == length % 256);
    assert(be24(a, 4) == length) by {
        assert(length / 256 == length / 0x1_0000 * 256 + length / 256 % 256);
        assert(length == length / 256 * 256 + length % 256);
        assert(length / 0x1_0000 < 256);
    }
    assert(a[7] == width / 256 && a[8] == width % 256);
    assert(a[9] == height / 256 && a[10] == height % 256);
    assert(be16(a, 7) == width && be16(a, 9) == height);
    assert(be16(a, 0) == id && be16(b, 0) == id);
}

/// The library writes an object fragment with each field in its place. A complete
/// object's length follows from its data.
pub proof fn fragment_is_written(v: OdsView)
    requires
        v.data_length < 0x100_0000,
        v.rle_data.len() + 4 < 0x100_0000,
        v.sequence is Complete || v.sequence is First ==> v.width is Some && v.height is Some,
    ensures
        v.sequence is First ==> ods_bytes(v) == first_fragment_bytes(
            v.id,
            v.version,
            v.sequence,
            v.data_length,
            v.width->0,
            v.height->0,
            v.rle_data,
        ),
        v.sequence is Complete ==> ods_bytes(v) == first_fragment_bytes(
            v.id,
            v.version,
            v.sequence,
            (v.rle_data.len() + 4) as u32,
            v.width->0,
            v.height->0,
            v.rle_data,
        ),
        v.sequence is Continuation || v.sequence is Last ==> ods_bytes(v) == two_bytes(v.id)
            + seq![v.version, sequence_byte(v.sequence)] + v.rle_data,
{
    if v.sequence is First {
        assert(ods_bytes(v) =~= first_fragment_bytes(
            v.id,
            v.version,
            v.sequence,
            v.data_length,
            v.width->0,
            v.height->0,
            v.rle_data,
        ));
    } else if v.sequence is Complete {
        assert(ods_bytes(v) =~= first_fragment_bytes(
            v.id,
            v.version,
            v.sequence,
            (v.rle_data.len() + 4) as u32,
            v.width->0,
            v.height->0,
            v.rle_data,
        ));
    } else {
        assert(ods_bytes(v) =~= two_bytes(v.id) + seq![v.version, sequence_byte(v.sequence)]
            + v.rle_data);
    }
}

/// The four bytes of a time.
pub open spec fn four_bytes(v: u32) -> Seq<u8> {
    seq![
        (v / 0x100_0000) as u8,
        (v / 0x1_0000 % 256) as u8,
        (v / 256 % 256) as u8,
        (v % 256) as u8,
    ]
}

/// A segment in a raw file: "PG", the times of presentation and decoding, its kind,
/// the size of its payload, and its payload.
pub open spec fn full_segment_bytes(pts: u32, dts: u32, kind: SegmentType, payload: Seq<u8>) -> Seq<
    u8,
> {
    seq![0x50u8, 0x47u8] + four_bytes(pts) + four_bytes(dts) + seq![kind_byte(kind)] + two_bytes(
        payload.len() as u16,
    ) + payload
}

/// A segment that is written is read back, whatever follows it, and the library
/// writes it so.
pub proof fn written_segment_is_read(
    pts: u32,
    dts: u32,
    kind: SegmentType,
    payload: Seq<u8>,
    tail: Seq<u8>,
)
    requires
        payload.len() < 0x1_0000,
    ensures
        segment_parsed(full_segment_bytes(pts, dts, kind, payload) + tail) == Ok::<
            (SegmentView, nat),
            ErrorView,
        >(
            (
                SegmentView { pts: pts as u64, dts: dts as u64, segment_type: kind, payload },
                13 + payload.len(),
            ),
        ),
        segment_bytes(
            SegmentView { pts: pts as u64, dts: dts as u64, segment_type: kind, payload },
        ) == full_segment_bytes(pts, dts, kind, payload),
{
    let b = full_segment_bytes(pts, dts, kind, payload);
    let d = b + tail;
    crate::bytes::lemma_be32(d, 2, pts);
    crate::bytes::lemma_be32(d, 6, dts);
    assert(d.subrange(2, 6) =~= crate::bytes::be32_bytes(pts));
    assert(d.subrange(6, 10) =~= crate::bytes::be32_bytes(dts));
    assert(d[10] == kind_byte(kind));
    assert(d[11] == payload.len() / 256 && d[12] == payload.len() % 256);
    assert(be16(d, 11) == payload.len());
    assert(d.subrange(13, 13 + payload.len() as int) =~= payload);
    let v = SegmentView { pts: pts as u64, dts: dts as u64, segment_type: kind, payload };
    assert(segment_bytes(v) =~= b);
}

/// A code of an encoded bitmap: a pixel of a color other than 0, a run of color 0
/// or of another color with a short or a long length, or the end of a row.
pub enum Code {
    Pixel(u8),
    ShortZeros(nat),
    LongZeros(nat),
    ShortRun(nat, u8),
    LongRun(nat, u8),
    RowEnd,
}

/// Whether a code can be written.
pub open spec fn is_code(c: Code) -> bool {
    match c {
        Code::Pixel(color) => color != 0,
        Code::ShortZeros(n) => 1 <= n < 64,
        Code::LongZeros(n) => n < 16384,
        Code::ShortRun(n, _) => n < 64,
        Code::LongRun(n, _) => n < 16384,
        Code::RowEnd => true,
    }
}

/// A code as it is written.
pub open spec fn code_bytes(c: Code) -> Seq<u8> {
    match c {
        Code::Pixel(color) => seq![color],
        Code::ShortZeros(n) => seq![0u8, n as u8],
        Code::LongZeros(n) => seq![0u8, (0x40 + n / 256) as u8, (n % 256) as u8],
        Code::ShortRun(n, color) => seq![0u8, (0x80 + n) as u8, color],
        Code::LongRun(n, color) => seq![0u8, (0xC0 + n / 256) as u8, (n % 256) as u8, color],
        Code::RowEnd => seq![0u8, 0u8],
    }
}

/// Codes as they are written.
pub open spec fn codes_bytes(cs: Seq<Code>) -> Seq<u8>
    decreases cs.len(),
{
    if cs.len() == 0 {
        Seq::empty()
    } else {
        code_bytes(cs[0]) + codes_bytes(cs.skip(1))
    }
}

/// The pixels of a code that stands for some.
pub open spec fn code_pixels(c: Code) -> Seq<u8> {
    match c {
        Code::Pixel(color) => seq![color],
        Code::ShortZeros(n) => Seq::new(n, |i: int| 0u8),
        Code::LongZeros(n) => Seq::new(n, |i: int| 0u8),
        Code::ShortRun(n, color) => Seq::new(n, |i: int| color),
        Code::LongRun(n, color) => Seq::new(n, |i: int| color),
        Code::RowEnd => Seq::empty(),
    }
}

/// The pixels that codes draw behind others, of which `col` are in the row that has
/// been started. The end of a row fills it up with color 0, as far as there is
/// room. Nothing is drawn where there is no room for a run.
pub open spec fn drawn(
    cs: Seq<Code>,
    out: Seq<u8>,
    col: nat,
    width: nat,
    total: nat,
) -> Option<Seq<u8>>
    decreases cs.len(),
{
    if cs.len() == 0 {
        Some(out)
    } else if cs[0] is RowEnd {
        let missing = if col < width {
            (width - col) as nat
        } else {
            0
        };
        let room = if out.len() <= total {
            (total - out.len()) as nat
        } else {
            0
        };
        let n = if missing <= room {
            missing
        } else {
            room
        };
        drawn(cs.skip(1), out + Seq::new(n, |i: int| 0u8), 0, width, total)
    } else {
        let more = code_pixels(cs[0]);
        if out.len() + more.len() > total {
            None
        } else {
            drawn(cs.skip(1), out + more, col + more.len(), width, total)
        }
    }
}

/// Pixels, filled up with color 0.
pub open spec fn filled(out: Seq<u8>, total: nat) -> Seq<u8> {
    Seq::new(
        total,
        |i: int|
            if i < out.len() {
                out[i]
            } else {
                0
            },
    )
}

pub(crate) proof fn lemma_code(c: Code, rest: Seq<u8>)
    requires
        is_code(c),
    ensures
        (code_bytes(c) + rest).len() > 0,
        (code_bytes(c) + rest).skip(code_bytes(c).len() as int) == rest,
        c is RowEnd ==> first_code(code_bytes(c) + rest) == RleCode::EndOfLine && code_bytes(
            c,
        ).len() == 2,
        !(c is RowEnd) ==> (first_code(code_bytes(c) + rest) matches RleCode::Run {
            color,
            len,
            size,
        } && size == code_bytes(c).len() && pixel_run(color, len) == code_pixels(c)),
{
    let data = code_bytes(c) + rest;
    assert(data.skip(code_bytes(c).len() as int) =~= rest);
    match c {
        Code::Pixel(color) => {
            assert(data[0] == color);
            assert(pixel_run(color, 1) =~= code_pixels(c));
        },
        Code::ShortZeros(n) => {
            assert(data[0] == 0 && data[1] == n);
            assert(pixel_run(0, n) =~= code_pixels(c));
        },
        Code::LongZeros(n) => {
            assert(data[0] == 0 && data[1] == 0x40 + n / 256 && data[2] == n % 256);
            assert(pixel_run(0, n) =~= code_pixels(c));
        },
        Code::ShortRun(n, color) => {
            assert(data[0] == 0 && data[1] == 0x80 + n && data[2] == color);
            assert(pixel_run(color, n) =~= code_pixels(c));
        },
        Code::LongRun(n, color) => {
            assert(data[0] == 0 && data[1] == 0xC0 + n / 256 && data[2] == n % 256 && data[3]
                == color);
            assert(pixel_run(color, n) =~= code_pixels(c));
        },
        Code::RowEnd => {
            assert(data[0] == 0 && data[1] == 0);
        },
    }
}

proof fn lemma_codes(cs: Seq<Code>, out: Seq<u8>, col: nat, width: nat, total: nat)
    requires
        forall|i: int| 0 <= i < cs.len() ==> is_code(#[trigger] cs[i]),
        out.len() <= total,
    ensures
        decoded_from(codes_bytes(cs), out, col, width, total) == match drawn(
            cs,
            out,
            col,
            width,
            total,
        ) {
            Some(pixels) => Some(filled(pixels, total)),
            None => None,
        },
    decreases cs.len(),
{
    if cs.len() == 0 {
        assert(padded(out, total) =~= filled(out, total));
    } else {
        let c = cs[0];
        let rest = cs.skip(1);
        assert(is_code(cs[0]));
        lemma_code(c, codes_bytes(rest));
        assert forall|i: int| 0 <= i < rest.len() implies is_code(#[trigger] rest[i]) by {
            assert(rest[i] == cs[i + 1]);
        }
        if c is RowEnd {
            let missing = if col < width {
                (width - col) as nat
            } else {
                0
            };
            let room = (total - out.len()) as nat;
            let n = if missing <= room {
                missing
            } else {
                room
            };
            assert(pixel_run(0, n) =~= Seq::new(n, |i: int| 0u8));
            lemma_codes(rest, out + pixel_run(0, n), 0, width, total);
        } else {
            let more = code_pixels(c);
            if out.len() + more.len() <= total {
                lemma_codes(rest, out + more, col + more.len(), width, total);
            }
        }
    }
}

/// A bitmap that is written with any codes is decoded to the pixels that they
/// draw, filled up with color 0; not if they draw more than there is room for.
pub proof fn written_codes_are_drawn(cs: Seq<Code>, width: nat, height: nat)
    requires
        forall|i: int| 0 <= i < cs.len() ==> is_code(#[trigger] cs[i]),
    ensures
        decoded(codes_bytes(cs), width, height) == match drawn(
            cs,
            Seq::empty(),
            0,
            width,
            width * height,
        ) {
            Some(pixels) => Some(filled(pixels, width * height)),
            None => None,
        },
{
    assert(width * height >= 0) by (nonlinear_arith);
    lemma_codes(cs, Seq::empty(), 0, width, width * height);
}

/// The codes with which a run of up to 16383 pixels is written: one or two pixels
/// of a color other than 0 as they are, a longer run with a short length up to 63,
/// and with a long one behind that.
pub open spec fn run_codes(color: u8, n: nat) -> Seq<Code> {
    if color == 0 {
        seq![
            if n < 64 {
                Code::ShortZeros(n)
            } else {
                Code::LongZeros(n)
            },
        ]
    } else if n <= 2 {
        Seq::new(n, |i: int| Code::Pixel(color))
    } else {
        seq![
            if n < 64 {
                Code::ShortRun(n, color)
            } else {
                Code::LongRun(n, color)
            },
        ]
    }
}

proof fn lemma_run(color: u8, n: nat)
    requires
        1 <= n <= 16383,
    ensures
        run_code(color, n) == codes_bytes(run_codes(color, n)),
{
    let cs = run_codes(color, n);
    reveal_with_fuel(codes_bytes, 3);
    if cs.len() == 2 {
        assert(cs.skip(1) =~= seq![Code::Pixel(color)]);
        assert(cs.skip(1).skip(1) =~= Seq::empty());
        assert(codes_bytes(cs) =~= seq![color, color]);
    } else {
        assert(cs.skip(1) =~= Seq::empty());
        assert(codes_bytes(cs) =~= code_bytes(cs[0]));
    }
}

/// A run is written with as many codes of 16383 pixels as it takes, and one for the
/// rest.
pub proof fn runs_are_written_with_the_longest_codes(color: u8, n: nat)
    ensures
        n == 0 ==> encoded_run(color, n) == Seq::<u8>::empty(),
        1 <= n <= 16383 ==> encoded_run(color, n) == codes_bytes(run_codes(color, n)),
        n > 16383 ==> encoded_run(color, n) == codes_bytes(run_codes(color, 16383)) + encoded_run(
            color,
            (n - 16383) as nat,
        ),
{
    if n > 16383 {
        lemma_run(color, 16383);
    } else if n > 0 {
        lemma_run(color, n);
    }
}

/// A row starts with the code of its first run, which is as long as possible.
pub proof fn rows_are_written_run_by_run(color: u8, n: nat, rest: Seq<u8>)
    requires
        n > 0,
        rest.len() > 0 ==> rest[0] != color,
    ensures
        encoded_row(Seq::new(n, |i: int| color) + rest) == encoded_run(color, n) + encoded_row(
            rest,
        ),
        encoded_row(Seq::empty()) == Seq::<u8>::empty(),
{
    let run = Seq::new(n, |i: int| color);
    lemma_leading(color, n, rest);
    assert((run + rest)[0] == color);
    assert((run + rest).skip(n as int) =~= rest);
}

proof fn lemma_leading(color: u8, n: nat, rest: Seq<u8>)
    requires
        rest.len() > 0 ==> rest[0] != color,
    ensures
        leading_run(Seq::new(n, |i: int| color) + rest, color) == n,
    decreases n,
{
    let all = Seq::new(n, |i: int| color) + rest;
    if n == 0 {
        assert(all =~= rest);
    } else {
        assert(all.skip(1) =~= Seq::new((n - 1) as nat, |i: int| color) + rest);
        lemma_leading(color, (n - 1) as nat, rest);
    }
}

/// A bitmap is written row by row, with two zero bytes behind each row.
pub proof fn bitmaps_are_written_row_by_row(row: Seq<u8>, rest: Seq<u8>)
    requires
        row.len() > 0,
    ensures
        encoded_rows(row + rest, row.len()) == encoded_row(row) + seq![0u8, 0u8] + encoded_rows(
            rest,
            row.len(),
        ),
        encoded_rows(Seq::empty(), row.len()) == Seq::<u8>::empty(),
{
    assert((row + rest).take(row.len() as int) =~= row);
    assert((row + rest).skip(row.len() as int) =~= rest);
}

} // verus!
