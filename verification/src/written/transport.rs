//! Whole passes over the packets of a transport stream.
use vstd::prelude::*;
use crate::collect::drained;
use crate::ebml::written::{holds, lemma_holds_at, lemma_holds_parts};
use crate::error::ErrorView;
use crate::extractor::{sets_with_id, ExtractionView};
use crate::m2ts::pes::{pes_emitted, pes_segments};
use crate::m2ts::stream::{
    block_scanned, finished, flush_effect, lemma_pid_slot_index, packet_effect, scanned,
    sets_of_pid, M2tsConfig, M2tsProgress, PidSlotView, SCAN_BLOCK_SIZE,
};
use crate::m2ts::ts_packet::{detected_format, in_step, pid_of, PacketFormat};
use crate::pgs::display_set::{pushed_all, pushed_all_append, DisplaySetView};
use crate::pgs::segment::SegmentView;
use crate::restriction::transport::{lemma_pending_first, stepped};
use crate::track::{ContainerFormat, TrackSetView};
use crate::written::sets::{is_set, joined, segments_make_their_sets, set_of};
use crate::written::streams::{ts_bytes, written_packet_is_read};

verus! {

/// A transport packet, with the four bytes of its timecode.
pub struct Packet {
    pub timecode: Seq<u8>,
    pub error: bool,
    pub pusi: bool,
    pub priority: bool,
    pub pid: u16,
    pub scrambling: u8,
    pub counter: u8,
    pub adaptation: Option<Seq<u8>>,
    pub payload: Option<Seq<u8>>,
}

/// The 188 bytes of a packet.
pub open spec fn bare_bytes(k: Packet) -> Seq<u8> {
    ts_bytes(
        k.error,
        k.pusi,
        k.priority,
        k.pid,
        k.scrambling,
        k.counter,
        k.adaptation,
        k.payload,
    )
}

/// Whether a packet can be written.
pub open spec fn is_packet(k: Packet) -> bool {
    &&& k.timecode.len() == 4
    &&& k.pid < 0x2000
    &&& bare_bytes(k).len() == 188
    &&& k.adaptation matches Some(field) ==> field.len() <= 183
}

/// A packet as it is written, with its timecode in a file of that kind.
pub open spec fn packet_bytes(k: Packet, format: PacketFormat) -> Seq<u8> {
    match format {
        PacketFormat::M2ts => k.timecode + bare_bytes(k),
        PacketFormat::RawTs => bare_bytes(k),
    }
}

/// The number of bytes of a packet.
pub open spec fn packet_len(format: PacketFormat) -> int {
    match format {
        PacketFormat::M2ts => 192,
        PacketFormat::RawTs => 188,
    }
}

/// Packets as they are written.
pub open spec fn packets_bytes(ks: Seq<Packet>, format: PacketFormat) -> Seq<u8>
    decreases ks.len(),
{
    if ks.len() == 0 {
        Seq::empty()
    } else {
        packet_bytes(ks[0], format) + packets_bytes(ks.skip(1), format)
    }
}

pub(crate) proof fn lemma_packet(s: Seq<u8>, pos: int, k: Packet, format: PacketFormat)
    requires
        is_packet(k),
        holds(s, pos, packet_bytes(k, format)),
    ensures
        packet_bytes(k, format).len() == packet_len(format),
        format.size() == packet_len(format),
        s[pos + format.sync()] == 0x47,
        s.subrange(pos + format.sync(), pos + format.sync() + 188) == bare_bytes(k),
{
    match format {
        PacketFormat::M2ts => {
            lemma_holds_parts(s, pos, k.timecode, bare_bytes(k));
            lemma_holds_at(s, pos + 4, bare_bytes(k), 0);
        },
        PacketFormat::RawTs => {
            lemma_holds_at(s, pos, bare_bytes(k), 0);
        },
    }
}

/// A file of packets is told by them: with timecodes, or without.
pub proof fn written_packets_tell_their_format(s: Seq<u8>, ks: Seq<Packet>, format: PacketFormat)
    requires
        ks.len() >= 7,
        forall|i: int| 0 <= i < ks.len() ==> is_packet(#[trigger] ks[i]),
        holds(s, 0, packets_bytes(ks, format)),
        format is RawTs ==> s[4] != 0x47,
    ensures
        detected_format(s) == Ok::<PacketFormat, ErrorView>(format),
{
    lemma_places(s, 0, ks, format);
    let n = packet_len(format);
    reveal_with_fuel(in_step, 6);
    assert(s[0 * n + format.sync()] == 0x47);
    assert(s[1 * n + format.sync()] == 0x47);
    assert(s[2 * n + format.sync()] == 0x47);
    assert(s[3 * n + format.sync()] == 0x47);
    assert(s[4 * n + format.sync()] == 0x47);
}

proof fn lemma_places(s: Seq<u8>, pos: int, ks: Seq<Packet>, format: PacketFormat)
    requires
        forall|i: int| 0 <= i < ks.len() ==> is_packet(#[trigger] ks[i]),
        holds(s, pos, packets_bytes(ks, format)),
    ensures
        packets_bytes(ks, format).len() == ks.len() * packet_len(format),
        forall|i: int|
            0 <= i < ks.len() ==> s[pos + #[trigger] (i * packet_len(format)) + format.sync()]
                == 0x47,
    decreases ks.len(),
{
    if ks.len() > 0 {
        let rest = ks.skip(1);
        let one = packet_bytes(ks[0], format);
        assert(is_packet(ks[0]));
        lemma_holds_parts(s, pos, one, packets_bytes(rest, format));
        lemma_packet(s, pos, ks[0], format);
        assert forall|i: int| 0 <= i < rest.len() implies is_packet(#[trigger] rest[i]) by {
            assert(rest[i] == ks[i + 1]);
        }
        lemma_places(s, pos + one.len(), rest, format);
        let n = packet_len(format);
        assert forall|i: int| 0 <= i < ks.len() implies s[pos + #[trigger] (i * n) + format.sync()]
            == 0x47 by {
            if i > 0 {
                assert(i * n == (i - 1) * n + n) by (nonlinear_arith);
                assert(s[pos + n + (i - 1) * n + format.sync()] == 0x47);
            }
        }
        assert(ks.len() * n == (ks.len() - 1) * n + n) by (nonlinear_arith);
    }
}

/// What packets make of the slots, one after the other, and the display sets that
/// they complete.
pub open spec fn packets_effect(
    slots: Seq<PidSlotView>,
    container: ContainerFormat,
    ks: Seq<Packet>,
) -> (Seq<PidSlotView>, Seq<TrackSetView>)
    decreases ks.len(),
{
    if ks.len() == 0 {
        (slots, Seq::empty())
    } else {
        let (mid, first) = packet_effect(slots, container, bare_bytes(ks[0]));
        let (after, second) = packets_effect(mid, container, ks.skip(1));
        (after, first + second)
    }
}

proof fn lemma_packets_append(
    slots: Seq<PidSlotView>,
    container: ContainerFormat,
    a: Seq<Packet>,
    b: Seq<Packet>,
)
    ensures
        ({
            let (mid, first) = packets_effect(slots, container, a);
            let (after, second) = packets_effect(mid, container, b);
            packets_effect(slots, container, a + b) == (after, first + second)
        }),
    decreases a.len(),
{
    let none = Seq::<TrackSetView>::empty();
    let (mid, first) = packets_effect(slots, container, a);
    let (after, second) = packets_effect(mid, container, b);
    if a.len() == 0 {
        assert(a + b =~= b);
        assert(none + second =~= second);
    } else {
        let (m, f) = packet_effect(slots, container, bare_bytes(a[0]));
        assert((a + b).skip(1) =~= a.skip(1) + b);
        assert((a + b)[0] == a[0]);
        lemma_packets_append(m, container, a.skip(1), b);
        let g = packets_effect(m, container, a.skip(1)).1;
        assert(f + (g + second) =~= (f + g) + second);
    }
}

/// The packets of a block are taken one after the other, as many as are there as
/// a whole.
proof fn lemma_block(
    c: M2tsConfig,
    start: int,
    n: int,
    offset: int,
    slots: Seq<PidSlotView>,
    pending: Seq<TrackSetView>,
    ks: Seq<Packet>,
) -> (m: nat)
    requires
        forall|i: int| 0 <= i < ks.len() ==> is_packet(#[trigger] ks[i]),
        0 <= start,
        0 <= offset,
        holds(c.bytes, start + offset, packets_bytes(ks, c.format)),
        start + offset + packets_bytes(ks, c.format).len() == c.end,
        start + n <= c.end <= c.bytes.len(),
    ensures
        m <= ks.len(),
        offset + c.format.size() <= n ==> m >= 1,
        block_scanned(c, start, n, offset, slots, pending) == (
            packets_effect(slots, c.container, ks.take(m as int)).0,
            pending + packets_effect(slots, c.container, ks.take(m as int)).1,
            start + offset + packets_bytes(ks.take(m as int), c.format).len(),
        ),
    decreases ks.len(),
{
    let size = packet_len(c.format);
    assert(c.format.size() == size);
    let none = Seq::<TrackSetView>::empty();
    if offset + size > n {
        assert(ks.take(0) =~= Seq::<Packet>::empty());
        assert(pending + none =~= pending);
        0
    } else {
        let k = ks[0];
        let rest = ks.skip(1);
        let one = packet_bytes(k, c.format);
        assert(ks.len() > 0) by {
            assert(ks.len() == 0 ==> packets_bytes(ks, c.format).len() == 0);
        }
        assert(is_packet(ks[0]));
        lemma_holds_parts(c.bytes, start + offset, one, packets_bytes(rest, c.format));
        lemma_packet(c.bytes, start + offset, k, c.format);
        assert forall|i: int| 0 <= i < rest.len() implies is_packet(#[trigger] rest[i]) by {
            assert(rest[i] == ks[i + 1]);
        }
        let (after, sets) = packet_effect(slots, c.container, bare_bytes(k));
        let j = lemma_block(c, start, n, offset + size, after, pending + sets, rest);
        let some = ks.take(j as int + 1);
        assert(some.skip(1) =~= rest.take(j as int));
        assert(some[0] == k);
        let second = packets_effect(after, c.container, rest.take(j as int)).1;
        assert((pending + sets) + second =~= pending + (sets + second));
        assert(block_scanned(c, start, n, offset, slots, pending) == block_scanned(
            c,
            start,
            n,
            offset + size,
            after,
            pending + sets,
        ));
        j + 1
    }
}

proof fn lemma_take_bytes(ks: Seq<Packet>, m: int, format: PacketFormat)
    requires
        0 <= m <= ks.len(),
    ensures
        packets_bytes(ks, format) == packets_bytes(ks.take(m), format) + packets_bytes(
            ks.skip(m),
            format,
        ),
    decreases m,
{
    if m == 0 {
        assert(ks.skip(0) =~= ks);
        assert(ks.take(0) =~= Seq::<Packet>::empty());
        assert(packets_bytes(ks.take(0), format) + packets_bytes(ks, format) =~= packets_bytes(
            ks,
            format,
        ));
    } else {
        lemma_take_bytes(ks.skip(1), m - 1, format);
        assert(ks.take(m).skip(1) =~= ks.skip(1).take(m - 1));
        assert(ks.skip(1).skip(m - 1) =~= ks.skip(m));
        assert(ks.take(m)[0] == ks[0]);
        assert(packets_bytes(ks, format) =~= packets_bytes(ks.take(m), format) + packets_bytes(
            ks.skip(m),
            format,
        ));
    }
}

/// A pass over written packets gives what is pending, what the packets complete,
/// one after the other, and at the end what is left of each track.
#[verifier::spinoff_prover]
#[verifier::rlimit(60)]
pub proof fn written_packets_are_passed(c: M2tsConfig, p: M2tsProgress, ks: Seq<Packet>)
    requires
        forall|i: int| 0 <= i < ks.len() ==> is_packet(#[trigger] ks[i]),
        0 <= p.pos,
        holds(c.bytes, p.pos, packets_bytes(ks, c.format)),
        p.pos + packets_bytes(ks, c.format).len() == c.end,
        !p.flushed,
    ensures
        ({
            let (slots, sets) = packets_effect(p.slots, c.container, ks);
            drained(ExtractionView::M2ts(c, p)) == Ok::<Seq<TrackSetView>, ErrorView>(
                p.pending + sets + flush_effect(slots, c.container, slots.len()).1,
            )
        }),
    decreases ks.len(),
{
    let none = Seq::<TrackSetView>::empty();
    let q = M2tsProgress { pending: none, ..p };
    let (slots, sets) = packets_effect(p.slots, c.container, ks);
    let left = flush_effect(slots, c.container, slots.len()).1;
    lemma_pending_first(c, p);
    if ks.len() == 0 {
        let done = finished(c, q);
        lemma_pending_first(c, done);
        assert(stepped(c, M2tsProgress { pending: none, ..done }) == Ok::<_, ErrorView>(none));
        assert(done.pending =~= left);
        assert(left + none =~= left);
        assert(p.pending + none + left =~= p.pending + left);
    } else {
        let size = packet_len(c.format);
        assert(is_packet(ks[0]));
        lemma_holds_parts(
            c.bytes,
            p.pos,
            packet_bytes(ks[0], c.format),
            packets_bytes(ks.skip(1), c.format),
        );
        lemma_packet(c.bytes, p.pos, ks[0], c.format);
        let all = c.end - p.pos;
        let n = if all < SCAN_BLOCK_SIZE {
            all
        } else {
            SCAN_BLOCK_SIZE as int
        };
        let m = lemma_block(c, p.pos, n, 0, p.slots, none, ks);
        let some = ks.take(m as int);
        let rest = ks.skip(m as int);
        lemma_take_bytes(ks, m as int, c.format);
        lemma_holds_parts(
            c.bytes,
            p.pos,
            packets_bytes(some, c.format),
            packets_bytes(rest, c.format),
        );
        let (mid, first) = packets_effect(p.slots, c.container, some);
        let next = M2tsProgress {
            pos: p.pos + packets_bytes(some, c.format).len(),
            slots: mid,
            pending: none + first,
            flushed: false,
        };
        assert(scanned(c, q) == Ok::<M2tsProgress, ErrorView>(next));
        assert forall|i: int| 0 <= i < rest.len() implies is_packet(#[trigger] rest[i]) by {
            assert(rest[i] == ks[i + m]);
        }
        assert(stepped(c, q) == drained(ExtractionView::M2ts(c, next)));
        written_packets_are_passed(c, next, rest);
        assert(some + rest =~= ks);
        lemma_packets_append(p.slots, c.container, some, rest);
        let second = packets_effect(mid, c.container, rest).1;
        assert(p.pending + ((none + first) + second + left) =~= p.pending + sets + left);
    }
}

/// The units that packets of an identifier complete behind one that has been
/// started, and the one that is started behind them: a unit starts where a packet
/// says so, and goes on in the next packets of the identifier.
pub open spec fn units(ks: Seq<Packet>, pid: u16, open: Option<Seq<u8>>) -> (
    Seq<Seq<u8>>,
    Option<Seq<u8>>,
)
    decreases ks.len(),
{
    if ks.len() == 0 {
        (Seq::empty(), open)
    } else {
        let k = ks[0];
        let rest = ks.skip(1);
        match k.payload {
            Some(data) => if k.pid != pid || data.len() == 0 {
                units(rest, pid, open)
            } else if k.pusi {
                let (more, last) = units(rest, pid, Some(data));
                match open {
                    Some(unit) => (seq![unit] + more, last),
                    None => (more, last),
                }
            } else {
                units(
                    rest,
                    pid,
                    match open {
                        Some(unit) => Some(unit + data),
                        None => None,
                    },
                )
            },
            None => units(rest, pid, open),
        }
    }
}

/// All units that packets of an identifier hold, the last one among them.
pub open spec fn all_units(ks: Seq<Packet>, pid: u16, open: Option<Seq<u8>>) -> Seq<Seq<u8>> {
    let (done, last) = units(ks, pid, open);
    match last {
        Some(unit) => done.push(unit),
        None => done,
    }
}

/// The segments of units, in order.
pub open spec fn segments_in(us: Seq<Seq<u8>>) -> Seq<SegmentView>
    decreases us.len(),
{
    if us.len() == 0 {
        Seq::empty()
    } else {
        pes_segments(us[0]) + segments_in(us.skip(1))
    }
}

/// Whether each of the slots is for another identifier.
pub open spec fn pids_differ(slots: Seq<PidSlotView>) -> bool {
    forall|i: int, j: int|
        0 <= i < j < slots.len() ==> (#[trigger] slots[i]).pid != (#[trigger] slots[j]).pid
}

/// Display sets as a track of a transport stream gives them.
pub open spec fn given(
    slot: PidSlotView,
    container: ContainerFormat,
    sets: Seq<DisplaySetView>,
) -> Seq<TrackSetView> {
    Seq::new(
        sets.len(),
        |i: int|
            TrackSetView {
                track_id: slot.pid as u32,
                language: slot.language,
                container,
                display_set: sets[i],
            },
    )
}

proof fn lemma_with_id_append(a: Seq<TrackSetView>, b: Seq<TrackSetView>, id: u32)
    ensures
        sets_with_id(a + b, id) == sets_with_id(a, id) + sets_with_id(b, id),
    decreases b.len(),
{
    if b.len() == 0 {
        assert(a + b =~= a);
        assert(sets_with_id(a, id) + Seq::<TrackSetView>::empty() =~= sets_with_id(a, id));
    } else {
        lemma_with_id_append(a, b.drop_last(), id);
        assert((a + b).drop_last() =~= a + b.drop_last());
        assert((a + b).last() == b.last());
        assert(sets_with_id(a + b, id) =~= sets_with_id(a, id) + sets_with_id(b, id));
    }
}

proof fn lemma_with_id_given(
    slot: PidSlotView,
    container: ContainerFormat,
    sets: Seq<DisplaySetView>,
    id: u32,
)
    ensures
        sets_with_id(given(slot, container, sets), id) == if slot.pid == id {
            given(slot, container, sets)
        } else {
            Seq::empty()
        },
    decreases sets.len(),
{
    let all = given(slot, container, sets);
    if sets.len() == 0 {
        assert(all =~= Seq::<TrackSetView>::empty());
    } else {
        let init = given(slot, container, sets.drop_last());
        lemma_with_id_given(slot, container, sets.drop_last(), id);
        assert(all.drop_last() =~= init);
        if slot.pid == id {
            assert(init.push(all.last()) =~= all);
        }
    }
}

#[verifier::spinoff_prover]
#[verifier::rlimit(60)]
proof fn lemma_effect(
    slots: Seq<PidSlotView>,
    container: ContainerFormat,
    k: Packet,
    i: int,
)
    requires
        is_packet(k),
        pids_differ(slots),
        0 <= i < slots.len(),
    ensures
        ({
            let (after, sets) = packet_effect(slots, container, bare_bytes(k));
            let slot = slots[i];
            let id = slot.pid as u32;
            let taken = k.pid == slot.pid && k.payload is Some && k.payload->0.len() > 0;
            let emitted = if taken && k.pusi {
                pes_emitted(slot.pes)
            } else {
                Seq::empty()
            };
            &&& after.len() == slots.len()
            &&& pids_differ(after)
            &&& after[i].pid == slot.pid
            &&& after[i].language == slot.language
            &&& after[i].pes == if taken {
                if k.pusi {
                    Some(k.payload->0)
                } else {
                    match slot.pes {
                        Some(unit) => Some(unit + k.payload->0),
                        None => None,
                    }
                }
            } else {
                slot.pes
            }
            &&& after[i].assembler == pushed_all(slot.assembler, emitted).0
            &&& sets_with_id(sets, id) == given(
                slot,
                container,
                pushed_all(slot.assembler, emitted).1,
            )
        }),
{
    let p = bare_bytes(k);
    let none = Seq::<TrackSetView>::empty();
    let slot = slots[i];
    let id = slot.pid as u32;
    written_packet_is_read(
        k.error,
        k.pusi,
        k.priority,
        k.pid,
        k.scrambling,
        k.counter,
        k.adaptation,
        k.payload,
    );
    assert(pid_of(p[1], p[2]) == k.pid);
    let (after, sets) = packet_effect(slots, container, p);
    assert(pushed_all(slot.assembler, Seq::empty()) == (
        slot.assembler,
        Seq::<DisplaySetView>::empty(),
    ));
    assert(given(slot, container, Seq::empty()) =~= none);
    assert(sets_with_id(none, id) =~= none);
    let home = if exists|j: int| 0 <= j < slots.len() && (#[trigger] slots[j]).pid == k.pid {
        let j = choose|j: int| 0 <= j < slots.len() && (#[trigger] slots[j]).pid == k.pid;
        assert forall|l: int| 0 <= l < j implies (#[trigger] slots[l]).pid != k.pid by {
            assert(slots[l].pid != slots[j].pid);
        }
        j
    } else {
        slots.len() as int
    };
    lemma_pid_slot_index(slots, k.pid, home);
    if home < slots.len() {
        let other = slots[home];
        let segments = if k.pusi {
            pes_emitted(other.pes)
        } else {
            Seq::empty()
        };
        let made = pushed_all(other.assembler, segments).1;
        assert(sets_of_pid(other, container, made) =~= given(other, container, made));
        lemma_with_id_given(other, container, made, id);
        if home != i {
            assert(other.pid != slot.pid) by {
                if home < i {
                    assert(slots[home].pid != slots[i].pid);
                } else {
                    assert(slots[i].pid != slots[home].pid);
                }
            }
        }
        assert forall|a: int, b: int| 0 <= a < b < after.len() implies (#[trigger] after[a]).pid
            != (#[trigger] after[b]).pid by {
            assert(slots[a].pid != slots[b].pid);
        }
    } else {
        assert(slots[i].pid != k.pid);
    }
}

#[verifier::spinoff_prover]
#[verifier::rlimit(60)]
proof fn lemma_units(
    slots: Seq<PidSlotView>,
    container: ContainerFormat,
    ks: Seq<Packet>,
    i: int,
)
    requires
        forall|j: int| 0 <= j < ks.len() ==> is_packet(#[trigger] ks[j]),
        pids_differ(slots),
        0 <= i < slots.len(),
    ensures
        ({
            let (after, sets) = packets_effect(slots, container, ks);
            let slot = slots[i];
            let (done, open) = units(ks, slot.pid, slot.pes);
            let made = pushed_all(slot.assembler, segments_in(done));
            &&& after.len() == slots.len()
            &&& pids_differ(after)
            &&& after[i].pid == slot.pid
            &&& after[i].language == slot.language
            &&& after[i].pes == open
            &&& after[i].assembler == made.0
            &&& sets_with_id(sets, slot.pid as u32) == given(slot, container, made.1)
        }),
    decreases ks.len(),
{
    let slot = slots[i];
    let id = slot.pid as u32;
    let none = Seq::<TrackSetView>::empty();
    if ks.len() == 0 {
        assert(given(slot, container, Seq::empty()) =~= none);
        assert(sets_with_id(none, id) =~= none);
    } else {
        let k = ks[0];
        let rest = ks.skip(1);
        assert(is_packet(ks[0]));
        assert forall|j: int| 0 <= j < rest.len() implies is_packet(#[trigger] rest[j]) by {
            assert(rest[j] == ks[j + 1]);
        }
        lemma_effect(slots, container, k, i);
        let (mid, first) = packet_effect(slots, container, bare_bytes(k));
        lemma_units(mid, container, rest, i);
        let second = packets_effect(mid, container, rest).1;
        lemma_with_id_append(first, second, id);
        let taken = k.pid == slot.pid && k.payload is Some && k.payload->0.len() > 0;
        let emitted = if taken && k.pusi {
            pes_emitted(slot.pes)
        } else {
            Seq::empty()
        };
        let (more, last) = units(rest, slot.pid, mid[i].pes);
        let (done, open) = units(ks, slot.pid, slot.pes);
        assert(open == last);
        assert(segments_in(done) =~= emitted + segments_in(more)) by {
            if taken && k.pusi && slot.pes is Some {
                assert((seq![slot.pes->0] + more).skip(1) =~= more);
            }
        }
        pushed_all_append(slot.assembler, emitted, segments_in(more));
        let a = pushed_all(slot.assembler, emitted);
        let b = pushed_all(a.0, segments_in(more));
        assert(given(slot, container, a.1) + given(slot, container, b.1) =~= given(
            slot,
            container,
            a.1 + b.1,
        ));
        assert(given(mid[i], container, b.1) =~= given(slot, container, b.1));
    }
}

proof fn lemma_flush(slots: Seq<PidSlotView>, container: ContainerFormat, n: nat, i: int)
    requires
        pids_differ(slots),
        0 <= i < slots.len(),
        n <= slots.len(),
    ensures
        sets_with_id(flush_effect(slots, container, n).1, slots[i].pid as u32) == if i < n {
            given(
                slots[i],
                container,
                pushed_all(slots[i].assembler, pes_emitted(slots[i].pes)).1,
            )
        } else {
            Seq::empty()
        },
    decreases n,
{
    let id = slots[i].pid as u32;
    let none = Seq::<TrackSetView>::empty();
    if n == 0 {
        assert(sets_with_id(none, id) =~= none);
    } else {
        lemma_flush(slots, container, (n - 1) as nat, i);
        let slot = slots[n - 1];
        let made = pushed_all(slot.assembler, pes_emitted(slot.pes)).1;
        assert(sets_of_pid(slot, container, made) =~= given(slot, container, made));
        lemma_with_id_append(
            flush_effect(slots, container, (n - 1) as nat).1,
            given(slot, container, made),
            id,
        );
        lemma_with_id_given(slot, container, made, id);
        if n - 1 != i {
            assert(slot.pid != slots[i].pid) by {
                if n - 1 < i {
                    assert(slots[n - 1].pid != slots[i].pid);
                } else {
                    assert(slots[i].pid != slots[n - 1].pid);
                }
            }
        }
        let before = sets_with_id(flush_effect(slots, container, (n - 1) as nat).1, id);
        assert(before + none =~= before);
        assert(none + given(slot, container, made) =~= given(slot, container, made));
    }
}

/// A pass over written packets gives of each track the display sets that the
/// segments of its units make, in order, whatever other packets are between its
/// own: with its identifier, its language, and the file's container.
pub proof fn written_packets_give_their_units(
    c: M2tsConfig,
    p: M2tsProgress,
    ks: Seq<Packet>,
    i: int,
)
    requires
        forall|j: int| 0 <= j < ks.len() ==> is_packet(#[trigger] ks[j]),
        0 <= p.pos,
        holds(c.bytes, p.pos, packets_bytes(ks, c.format)),
        p.pos + packets_bytes(ks, c.format).len() == c.end,
        !p.flushed,
        p.pending.len() == 0,
        pids_differ(p.slots),
        0 <= i < p.slots.len(),
    ensures
        ({
            let slot = p.slots[i];
            drained(ExtractionView::M2ts(c, p)) matches Ok(sets) && sets_with_id(
                sets,
                slot.pid as u32,
            ) == given(
                slot,
                c.container,
                pushed_all(
                    slot.assembler,
                    segments_in(all_units(ks, slot.pid, slot.pes)),
                ).1,
            )
        }),
{
    let slot = p.slots[i];
    let id = slot.pid as u32;
    written_packets_are_passed(c, p, ks);
    lemma_units(p.slots, c.container, ks, i);
    let (slots, sets) = packets_effect(p.slots, c.container, ks);
    lemma_flush(slots, c.container, slots.len(), i);
    let left = flush_effect(slots, c.container, slots.len()).1;
    assert(p.pending + sets =~= sets);
    lemma_with_id_append(sets, left, id);
    let (done, open) = units(ks, slot.pid, slot.pes);
    let last = pes_emitted(open);
    lemma_segments_in(done, open);
    pushed_all_append(slot.assembler, segments_in(done), last);
    let a = pushed_all(slot.assembler, segments_in(done));
    let b = pushed_all(a.0, last);
    assert(given(slot, c.container, a.1) + given(slot, c.container, b.1) =~= given(
        slot,
        c.container,
        a.1 + b.1,
    ));
    assert(given(slots[i], c.container, b.1) =~= given(slot, c.container, b.1));
}

proof fn lemma_segments_in(done: Seq<Seq<u8>>, open: Option<Seq<u8>>)
    ensures
        segments_in(
            match open {
                Some(unit) => done.push(unit),
                None => done,
            },
        ) == segments_in(done) + pes_emitted(open),
    decreases done.len(),
{
    let none = Seq::<SegmentView>::empty();
    if done.len() == 0 {
        if let Some(unit) = open {
            assert(done.push(unit).skip(1) =~= Seq::<Seq<u8>>::empty());
            assert(segments_in(Seq::<Seq<u8>>::empty()) == none);
            assert(pes_segments(unit) + none =~= none + pes_segments(unit));
        } else {
            assert(none + none =~= none);
        }
    } else {
        lemma_segments_in(done.skip(1), open);
        if let Some(unit) = open {
            assert(done.push(unit).skip(1) =~= done.skip(1).push(unit));
        }
        assert(pes_segments(done[0]) + (segments_in(done.skip(1)) + pes_emitted(open)) =~= (
        pes_segments(done[0]) + segments_in(done.skip(1))) + pes_emitted(open));
    }
}

/// Where the segments of a track's units are those of display sets, a pass gives
/// these display sets, in order, each once.
pub proof fn written_sets_are_extracted(
    c: M2tsConfig,
    p: M2tsProgress,
    ks: Seq<Packet>,
    i: int,
    sets: Seq<Seq<SegmentView>>,
)
    requires
        forall|j: int| 0 <= j < ks.len() ==> is_packet(#[trigger] ks[j]),
        0 <= p.pos,
        holds(c.bytes, p.pos, packets_bytes(ks, c.format)),
        p.pos + packets_bytes(ks, c.format).len() == c.end,
        !p.flushed,
        p.pending.len() == 0,
        pids_differ(p.slots),
        0 <= i < p.slots.len(),
        segments_in(all_units(ks, p.slots[i].pid, p.slots[i].pes)) == joined(sets),
        forall|j: int| 0 <= j < sets.len() ==> is_set(#[trigger] sets[j]),
    ensures
        drained(ExtractionView::M2ts(c, p)) matches Ok(all) && sets_with_id(
            all,
            p.slots[i].pid as u32,
        ) == Seq::new(
            sets.len(),
            |j: int|
                TrackSetView {
                    track_id: p.slots[i].pid as u32,
                    language: p.slots[i].language,
                    container: c.container,
                    display_set: set_of(sets[j]),
                },
        ),
{
    written_packets_give_their_units(c, p, ks, i);
    segments_make_their_sets(p.slots[i].assembler, sets);
    let all = drained(ExtractionView::M2ts(c, p))->Ok_0;
    assert(sets_with_id(all, p.slots[i].pid as u32) =~= Seq::new(
        sets.len(),
        |j: int|
            TrackSetView {
                track_id: p.slots[i].pid as u32,
                language: p.slots[i].language,
                container: c.container,
                display_set: set_of(sets[j]),
            },
    ));
}

} // verus!
