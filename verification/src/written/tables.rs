//! Program tables of transport streams as they are written.
use vstd::prelude::*;
use crate::bytes::{be16, be16_bytes};
use crate::ebml::written::{holds, lemma_holds_at, lemma_holds_parts};
use crate::error::ErrorView;
use crate::lang::language_normalized;
use crate::m2ts::pat::{entries_end, pat_entries_from, pat_of, section_in, section_length, PatEntry};
use crate::m2ts::pmt::{
    descriptors_end, language_from, pgs_streams, pmt_of, streams_end, streams_from, streams_start,
    PmtStreamView,
};
use crate::m2ts::ts_packet::pid_of;
use crate::m2ts::{tracks_of_streams, M2tsTrackView};
use crate::text::{named_language, utf8_lossy, without_zeros};
use crate::written::streams::{ts_bytes, written_packet_is_read};

verus! {

/// A descriptor: its tag and its data.
pub struct Descriptor {
    pub tag: u8,
    pub data: Seq<u8>,
}

/// Whether a descriptor can be written.
pub open spec fn is_descriptor(d: Descriptor) -> bool {
    d.data.len() <= 255
}

/// Descriptors as they are written.
pub open spec fn descriptors_bytes(ds: Seq<Descriptor>) -> Seq<u8>
    decreases ds.len(),
{
    if ds.len() == 0 {
        Seq::empty()
    } else {
        seq![ds[0].tag, ds[0].data.len() as u8] + ds[0].data + descriptors_bytes(ds.skip(1))
    }
}

/// The language that descriptors name: that of the first language descriptor that
/// names one, in its first three bytes.
pub open spec fn language_in(ds: Seq<Descriptor>) -> Option<Seq<char>>
    decreases ds.len(),
{
    if ds.len() == 0 {
        None
    } else {
        let d = ds[0];
        let rest = language_in(ds.skip(1));
        if d.tag == 0x0A && d.data.len() >= 3 {
            match named_language(utf8_lossy(d.data.take(3))) {
                Some(l) => Some(l),
                None => rest,
            }
        } else {
            rest
        }
    }
}

/// A text that is not "und", and that does not end with a zero character, names a
/// language. Zero characters behind it make no difference.
pub proof fn a_language_names_itself(t: Seq<char>, zeros: Seq<char>)
    requires
        t.len() > 0,
        t.last() != '\0',
        t != "und"@,
        forall|i: int| 0 <= i < zeros.len() ==> zeros[i] == '\0',
    ensures
        named_language(t + zeros) == Some(t),
        named_language("und"@) is None,
        named_language(zeros) is None,
{
    lemma_trimmed(t, zeros);
    lemma_trimmed(Seq::empty(), zeros);
    assert(Seq::<char>::empty() + zeros =~= zeros);
    reveal_strlit("und");
    assert("und"@.last() == 'd');
    lemma_trimmed("und"@, Seq::empty());
    assert("und"@ + Seq::<char>::empty() =~= "und"@);
}

proof fn lemma_trimmed(t: Seq<char>, zeros: Seq<char>)
    requires
        t.len() > 0 ==> t.last() != '\0',
        forall|i: int| 0 <= i < zeros.len() ==> zeros[i] == '\0',
    ensures
        without_zeros(t + zeros) == t,
    decreases zeros.len(),
{
    if zeros.len() == 0 {
        assert(t + zeros =~= t);
        assert(without_zeros(t) =~= t);
    } else {
        assert((t + zeros).drop_last() =~= t + zeros.drop_last());
        lemma_trimmed(t, zeros.drop_last());
    }
}

/// A stream of a program: its type, its packet identifier behind three other
/// bits, and its descriptors behind four other bits.
pub struct Stream {
    pub kind: u8,
    pub pid: u16,
    pub bits: (u8, u8),
    pub descriptors: Seq<Descriptor>,
}

/// Whether a stream can be written.
pub open spec fn is_stream(x: Stream) -> bool {
    &&& x.pid < 0x2000
    &&& x.bits.0 < 8
    &&& x.bits.1 < 16
    &&& descriptors_bytes(x.descriptors).len() < 0x1000
    &&& forall|i: int| 0 <= i < x.descriptors.len() ==> is_descriptor(#[trigger] x.descriptors[i])
}

/// A length of twelve bits behind four other bits.
pub open spec fn length_bytes(bits: u8, n: nat) -> Seq<u8> {
    seq![(bits * 16 + n / 256) as u8, (n % 256) as u8]
}

/// Streams as they are written.
pub open spec fn streams_bytes(streams: Seq<Stream>) -> Seq<u8>
    decreases streams.len(),
{
    if streams.len() == 0 {
        Seq::empty()
    } else {
        stream_bytes(streams[0]) + streams_bytes(streams.skip(1))
    }
}

/// A stream as it is written.
pub open spec fn stream_bytes(x: Stream) -> Seq<u8> {
    let ds = descriptors_bytes(x.descriptors);
    seq![x.kind, (x.bits.0 * 32 + x.pid / 256) as u8, (x.pid % 256) as u8] + length_bytes(
        x.bits.1,
        ds.len(),
    ) + ds
}

/// The streams that are to be read: the type, the identifier and the language of
/// each, in order.
pub open spec fn streams_said(streams: Seq<Stream>) -> Seq<PmtStreamView> {
    Seq::new(
        streams.len(),
        |i: int|
            PmtStreamView {
                stream_type: streams[i].kind,
                elementary_pid: streams[i].pid,
                language: language_in(streams[i].descriptors),
            },
    )
}

/// A section of a map table: its length, five bytes and the clock's identifier,
/// the program's descriptors, the streams, a checksum, and what is behind it.
pub open spec fn pmt_bytes(
    bits: (u8, u8),
    fields: Seq<u8>,
    program: Seq<u8>,
    streams: Seq<Stream>,
    checksum: Seq<u8>,
    tail: Seq<u8>,
) -> Seq<u8> {
    seq![2u8] + length_bytes(
        bits.0,
        9 + program.len() + streams_bytes(streams).len() + 4,
    ) + fields + length_bytes(bits.1, program.len()) + program + (streams_bytes(streams) + (
    checksum + tail))
}

proof fn lemma_language(data: Seq<u8>, i: int, ds: Seq<Descriptor>)
    requires
        0 <= i <= data.len(),
        data.skip(i) == descriptors_bytes(ds),
        forall|k: int| 0 <= k < ds.len() ==> is_descriptor(#[trigger] ds[k]),
    ensures
        language_from(data, i) == language_in(ds),
    decreases ds.len(),
{
    let rest = data.skip(i);
    if ds.len() == 0 {
        assert(rest.len() == 0);
    } else {
        let d = ds[0];
        let n = d.data.len();
        assert(is_descriptor(ds[0]));
        let tail = descriptors_bytes(ds.skip(1));
        assert(rest == seq![d.tag, n as u8] + d.data + tail);
        assert(rest.len() == 2 + n + tail.len());
        assert(rest[0] == data[i] && rest[1] == data[i + 1]);
        assert(data[i] == d.tag && data[i + 1] == n);
        assert(data.skip(i + 2 + n) =~= rest.skip(2 + n as int));
        assert(rest.skip(2 + n as int) =~= tail);
        if n >= 3 {
            assert(data.subrange(i + 2, i + 5) =~= d.data.take(3)) by {
                assert forall|k: int| 0 <= k < 3 implies data[i + 2 + k] == d.data[k] by {
                    assert(rest[2 + k] == data[i + 2 + k]);
                }
            }
        }
        assert forall|k: int| 0 <= k < ds.skip(1).len() implies is_descriptor(
            #[trigger] ds.skip(1)[k],
        ) by {
            assert(ds.skip(1)[k] == ds[k + 1]);
        }
        lemma_language(data, i + 2 + n, ds.skip(1));
    }
}

proof fn lemma_length(bits: u8, n: nat)
    requires
        bits < 16,
        n < 0x1000,
    ensures
        length_bytes(bits, n)[0] % 16 * 256 + length_bytes(bits, n)[1] == n,
{
    let a = length_bytes(bits, n)[0];
    assert(a == bits * 16 + n / 256);
    assert(a % 16 == n / 256);
}

#[verifier::spinoff_prover]
#[verifier::rlimit(60)]
proof fn lemma_streams(data: Seq<u8>, i: int, end: int, streams: Seq<Stream>)
    requires
        0 <= i,
        end <= data.len(),
        end == i + streams_bytes(streams).len(),
        data.subrange(i, end) == streams_bytes(streams),
        forall|k: int| 0 <= k < streams.len() ==> is_stream(#[trigger] streams[k]),
    ensures
        streams_from(data, i, end) == streams_said(streams),
    decreases streams.len(),
{
    let part = data.subrange(i, end);
    if streams.len() == 0 {
        assert(streams_said(streams) =~= Seq::<PmtStreamView>::empty());
    } else {
        let x = streams[0];
        let rest = streams.skip(1);
        let ds = descriptors_bytes(x.descriptors);
        let one = stream_bytes(x);
        assert(is_stream(streams[0]));
        assert(one.len() == 5 + ds.len());
        lemma_length(x.bits.1, ds.len());
        assert(part[0] == data[i] && part[1] == data[i + 1] && part[2] == data[i + 2] && part[3]
            == data[i + 3] && part[4] == data[i + 4]);
        assert(one[3] == length_bytes(x.bits.1, ds.len())[0]);
        assert(one[4] == length_bytes(x.bits.1, ds.len())[1]);
        assert(part[0] == one[0] && part[1] == one[1] && part[2] == one[2] && part[3] == one[3]
            && part[4] == one[4]);
        let high = data[i + 1];
        assert(high == x.bits.0 * 32 + x.pid / 256);
        assert(high % 32 == x.pid / 256);
        let stop = i + 5 + ds.len();
        assert(descriptors_end(data, i, end) == stop);
        assert(data.subrange(i + 5, stop) =~= ds) by {
            assert forall|k: int| 0 <= k < ds.len() implies data[i + 5 + k] == ds[k] by {
                assert(part[5 + k] == one[5 + k]);
                assert(one[5 + k] == ds[k]);
            }
        }
        let inner = data.subrange(i + 5, stop);
        assert(inner.skip(0) =~= ds);
        lemma_language(inner, 0, x.descriptors);
        assert(data.subrange(stop, end) =~= streams_bytes(rest)) by {
            assert forall|k: int| 0 <= k < streams_bytes(rest).len() implies data[stop + k]
                == streams_bytes(rest)[k] by {
                assert(part[one.len() + k] == streams_bytes(rest)[k]);
            }
        }
        assert forall|k: int| 0 <= k < rest.len() implies is_stream(#[trigger] rest[k]) by {
            assert(rest[k] == streams[k + 1]);
        }
        lemma_streams(data, stop, end, rest);
        assert(streams_said(streams) =~= seq![streams_said(streams)[0]] + streams_said(rest));
    }
}

/// A section of a map table that is written is read back: its streams, whatever
/// the program's descriptors are, and whatever is behind the section.
pub proof fn written_map_is_read(
    bits: (u8, u8),
    fields: Seq<u8>,
    program: Seq<u8>,
    streams: Seq<Stream>,
    checksum: Seq<u8>,
    tail: Seq<u8>,
)
    requires
        bits.0 < 16,
        bits.1 < 16,
        fields.len() == 7,
        checksum.len() == 4,
        9 + program.len() + streams_bytes(streams).len() + 4 < 0x1000,
        forall|k: int| 0 <= k < streams.len() ==> is_stream(#[trigger] streams[k]),
    ensures
        pmt_of(pmt_bytes(bits, fields, program, streams, checksum, tail)) == Ok::<
            Seq<PmtStreamView>,
            ErrorView,
        >(streams_said(streams)),
{
    let data = pmt_bytes(bits, fields, program, streams, checksum, tail);
    let n = 9 + program.len() + streams_bytes(streams).len() + 4;
    let start = 12 + program.len();
    let end = start + streams_bytes(streams).len();
    lemma_length(bits.0, n);
    lemma_length(bits.1, program.len());
    assert(data[1] == length_bytes(bits.0, n)[0]);
    assert(data[2] == length_bytes(bits.0, n)[1]);
    assert(data[10] == length_bytes(bits.1, program.len())[0]);
    assert(data[11] == length_bytes(bits.1, program.len())[1]);
    assert(section_length(data) == n);
    assert(streams_start(data) == start);
    assert(streams_end(data) == end);
    assert(data.subrange(start as int, end as int) =~= streams_bytes(streams));
    lemma_streams(data, start as int, end as int, streams);
}

/// A program of an association table, with three other bits.
pub struct Program {
    pub number: u16,
    pub pid: u16,
    pub bits: u8,
}

/// Whether a program can be written.
pub open spec fn is_program(p: Program) -> bool {
    p.pid < 0x2000 && p.bits < 8
}

/// Whether programs can be written.
pub open spec fn are_programs(programs: Seq<Program>) -> bool {
    forall|k: int| 0 <= k < programs.len() ==> is_program(#[trigger] programs[k])
}

/// A program as it is written.
pub open spec fn program_bytes(p: Program) -> Seq<u8> {
    be16_bytes(p.number) + seq![(p.bits * 32 + p.pid / 256) as u8, (p.pid % 256) as u8]
}

/// Programs as they are written.
pub open spec fn programs_bytes(programs: Seq<Program>) -> Seq<u8>
    decreases programs.len(),
{
    if programs.len() == 0 {
        Seq::empty()
    } else {
        program_bytes(programs[0]) + programs_bytes(programs.skip(1))
    }
}

/// The programs that are to be read, in order. Program 0 is that of the network,
/// which is none.
pub open spec fn programs_said(programs: Seq<Program>) -> Seq<PatEntry>
    decreases programs.len(),
{
    if programs.len() == 0 {
        Seq::empty()
    } else {
        let p = programs[0];
        let rest = programs_said(programs.skip(1));
        if p.number == 0 {
            rest
        } else {
            seq![PatEntry { program_number: p.number, pmt_pid: p.pid }] + rest
        }
    }
}

/// A section of an association table: its length, five bytes, the programs, a
/// checksum, and what is behind it.
pub open spec fn pat_bytes(
    bits: u8,
    fields: Seq<u8>,
    programs: Seq<Program>,
    checksum: Seq<u8>,
    tail: Seq<u8>,
) -> Seq<u8> {
    seq![0u8] + length_bytes(bits, 5 + programs_bytes(programs).len() + 4) + fields + (
    programs_bytes(programs) + (checksum + tail))
}

proof fn lemma_program(data: Seq<u8>, i: int, p: Program)
    requires
        holds(data, i, program_bytes(p)),
        p.pid < 0x2000,
        p.bits < 8,
    ensures
        be16(data, i) == p.number,
        pid_of(data[i + 2], data[i + 3]) == p.pid,
{
    let one = program_bytes(p);
    lemma_holds_at(data, i, one, 0);
    lemma_holds_at(data, i, one, 1);
    lemma_holds_at(data, i, one, 2);
    lemma_holds_at(data, i, one, 3);
    let high = data[i + 2];
    assert(high == p.bits * 32 + p.pid / 256);
    assert(high % 32 == p.pid / 256);
}

proof fn lemma_programs(data: Seq<u8>, i: int, programs: Seq<Program>)
    requires
        holds(data, i, programs_bytes(programs)),
        are_programs(programs),
    ensures
        pat_entries_from(data, i, i + programs_bytes(programs).len()) == programs_said(programs),
    decreases programs.len(),
{
    if programs.len() > 0 {
        let p = programs[0];
        let rest = programs.skip(1);
        assert(is_program(programs[0]));
        lemma_holds_parts(data, i, program_bytes(p), programs_bytes(rest));
        lemma_program(data, i, p);
        assert forall|k: int| 0 <= k < rest.len() implies is_program(#[trigger] rest[k]) by {
            assert(rest[k] == programs[k + 1]);
        }
        lemma_programs(data, i + 4, rest);
    }
}

/// A section of an association table that is written is read back: its programs
/// and the packet identifiers of their map tables.
pub proof fn written_association_is_read(
    bits: u8,
    fields: Seq<u8>,
    programs: Seq<Program>,
    checksum: Seq<u8>,
    tail: Seq<u8>,
)
    requires
        bits < 16,
        fields.len() == 5,
        checksum.len() == 4,
        5 + programs_bytes(programs).len() + 4 < 0x1000,
        are_programs(programs),
    ensures
        pat_of(pat_bytes(bits, fields, programs, checksum, tail)) == Ok::<
            Seq<PatEntry>,
            ErrorView,
        >(programs_said(programs)),
{
    let data = pat_bytes(bits, fields, programs, checksum, tail);
    let n = 5 + programs_bytes(programs).len() + 4;
    let end = 8 + programs_bytes(programs).len();
    lemma_length(bits, n);
    assert(data[1] == length_bytes(bits, n)[0]);
    assert(data[2] == length_bytes(bits, n)[1]);
    assert(section_length(data) == n);
    assert(entries_end(data) == end);
    assert(data.subrange(8, end as int) =~= programs_bytes(programs));
    lemma_programs(data, 8, programs);
}

/// A section is found in the packet with its identifier in which it starts,
/// behind as many bytes as the pointer says; not in a packet of another
/// identifier, nor in one in which nothing starts.
pub proof fn written_section_is_found(
    error: bool,
    pusi: bool,
    priority: bool,
    pid: u16,
    scrambling: u8,
    counter: u8,
    adaptation: Option<Seq<u8>>,
    before: Seq<u8>,
    section: Seq<u8>,
    wanted: u16,
)
    requires
        pid < 0x2000,
        before.len() <= 255,
        section.len() > 0,
        adaptation matches Some(field) ==> field.len() <= 183,
        ts_bytes(
            error,
            pusi,
            priority,
            pid,
            scrambling,
            counter,
            adaptation,
            Some(seq![before.len() as u8] + before + section),
        ).len() == 188,
    ensures
        section_in(
            ts_bytes(
                error,
                pusi,
                priority,
                pid,
                scrambling,
                counter,
                adaptation,
                Some(seq![before.len() as u8] + before + section),
            ),
            wanted,
        ) == Ok::<Option<Seq<u8>>, ErrorView>(
            if pusi && pid == wanted {
                Some(section)
            } else {
                None
            },
        ),
{
    let payload = seq![before.len() as u8] + before + section;
    written_packet_is_read(
        error,
        pusi,
        priority,
        pid,
        scrambling,
        counter,
        adaptation,
        Some(payload),
    );
    assert(payload.skip(1 + payload[0]) =~= section);
}

/// The PGS tracks of streams: those of type 0x90, in order, with the language
/// that the stream names, in its shortest form, or else the one that clip
/// information names for its identifier.
pub open spec fn pgs_tracks(streams: Seq<Stream>, languages: Map<u16, Seq<char>>) -> Seq<
    M2tsTrackView,
>
    decreases streams.len(),
{
    if streams.len() == 0 {
        Seq::empty()
    } else {
        let before = pgs_tracks(streams.drop_last(), languages);
        let x = streams.last();
        if x.kind == 0x90 {
            before.push(
                M2tsTrackView {
                    pid: x.pid,
                    language: match language_in(x.descriptors) {
                        Some(l) => Some(language_normalized(l)),
                        None => if languages.contains_key(x.pid) {
                            Some(languages[x.pid])
                        } else {
                            None
                        },
                    },
                },
            )
        } else {
            before
        }
    }
}

/// The tracks of the streams that a map table is written with are the PGS streams
/// among them.
pub proof fn written_streams_are_tracks(streams: Seq<Stream>, languages: Map<u16, Seq<char>>)
    ensures
        tracks_of_streams(pgs_streams(streams_said(streams)), languages) == pgs_tracks(
            streams,
            languages,
        ),
    decreases streams.len(),
{
    if streams.len() == 0 {
        assert(tracks_of_streams(pgs_streams(streams_said(streams)), languages) =~= pgs_tracks(
            streams,
            languages,
        ));
    } else {
        let init = streams.drop_last();
        written_streams_are_tracks(init, languages);
        assert(streams_said(streams).drop_last() =~= streams_said(init));
        let before = pgs_streams(streams_said(init));
        if streams.last().kind == 0x90 {
            let one = streams_said(streams).last();
            assert(tracks_of_streams(before.push(one), languages) =~= tracks_of_streams(
                before,
                languages,
            ).push(tracks_of_streams(before.push(one), languages).last()));
        }
    }
}

} // verus!
