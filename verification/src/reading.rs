//! How much of a file an extraction along its index reads.
use vstd::prelude::*;
use crate::collect::{drained, read_when_drained};
use crate::error::ErrorView;
use crate::extractor::{extraction_next, read_after, ExtractionView};
use crate::io::reader::counted;
use crate::mkv::cues::PgsCuePoint;
use crate::mkv::indexed::{cue_blocks, cue_reads, cues_blocks, cues_known, cues_reads};
use crate::mkv::reading::{
    cues_elements, data_total, entry_reads_its_blocks_and_headers,
    index_reads_its_blocks_and_headers,
};
use crate::mkv::stream::{
    advanced, advanced_reads, first_source, mkv_next, mkv_next_reads, with_blocks, MkvConfig,
    MkvProgress, SourceView,
};

verus! {

/// An extraction from the index at an entry, with the clusters that have been
/// read whole.
pub open spec fn along_index(
    p: MkvProgress,
    cues: Seq<PgsCuePoint>,
    index: int,
    visited: Set<u64>,
) -> bool {
    p.source matches SourceView::Cues { cues: c, index: i, visited: v } && c == cues && i == index
        && v == visited
}

/// Whether the entries in front of an index lead to blocks, and leave the given
/// clusters read whole.
spec fn came_to(c: MkvConfig, cues: Seq<PgsCuePoint>, index: int, visited: Set<u64>) -> bool {
    &&& 0 <= index <= cues.len()
    &&& cues_blocks(c.bytes, cues.take(index), c.active) matches Ok((_, v)) && v == visited
}

/// The number of bytes that the entries from an index on read.
spec fn left_to_read(c: MkvConfig, cues: Seq<PgsCuePoint>, index: int) -> int {
    cues_reads(c.bytes, cues, c.active) - cues_reads(c.bytes, cues.take(index), c.active)
}

/// What following one more entry reads, and where it leads.
proof fn lemma_entry(c: MkvConfig, cues: Seq<PgsCuePoint>, index: int, visited: Set<u64>)
    requires
        came_to(c, cues, index, visited),
        index < cues.len(),
        cue_blocks(c.bytes, cues[index], c.active, visited) is Ok,
    ensures
        ({
            let seen = cue_blocks(c.bytes, cues[index], c.active, visited)->Ok_0.1;
            let reads = cue_reads(
                c.bytes,
                cues[index],
                c.active,
                visited,
                cues_known(c.bytes, cues.take(index)),
            );
            &&& came_to(c, cues, index + 1, seen)
            &&& reads >= 0
            &&& left_to_read(c, cues, index) == reads + left_to_read(c, cues, index + 1)
        }),
{
    let more = cues.take(index + 1);
    assert(more.drop_last() =~= cues.take(index));
    assert(more.last() == cues[index]);
    entry_reads_its_blocks_and_headers(
        c.bytes,
        cues[index],
        c.active,
        visited,
        cues_known(c.bytes, cues.take(index)),
    );
}

/// An extraction along the index that does not fail reads no negative number of
/// bytes for its next outcome.
proof fn lemma_next_reads(
    c: MkvConfig,
    p: MkvProgress,
    cues: Seq<PgsCuePoint>,
    index: int,
    visited: Set<u64>,
)
    requires
        along_index(p, cues, index, visited),
        came_to(c, cues, index, visited),
        !(mkv_next(c, p).0 matches Some(Err(_))),
    ensures
        mkv_next_reads(c, p) >= 0,
    decreases cues.len() - index,
{
    if p.pending.len() == 0 && index < cues.len() {
        match cue_blocks(c.bytes, cues[index], c.active, visited) {
            Ok((blocks, seen)) => {
                lemma_entry(c, cues, index, visited);
                let next = with_blocks(
                    c,
                    p,
                    blocks,
                    SourceView::Cues { cues, index: index + 1, visited: seen },
                );
                assert(advanced(c, p) == Ok::<Option<MkvProgress>, ErrorView>(Some(next)));
                lemma_next_reads(c, next, cues, index + 1, seen);
            },
            Err(e) => {
                assert(advanced(c, p) == Err::<Option<MkvProgress>, ErrorView>(e));
            },
        }
    }
}

/// Following an entry first makes no difference to what an extraction gives, and
/// counts what the entry reads.
proof fn lemma_entry_first(c: MkvConfig, p: MkvProgress, next: MkvProgress, before: u64)
    requires
        p.pending.len() == 0,
        !(p.source is Uninitialized),
        !(next.source is Uninitialized),
        advanced(c, p) == Ok::<Option<MkvProgress>, ErrorView>(Some(next)),
        advanced_reads(c, p.source) >= 0,
        mkv_next_reads(c, next) >= 0,
    ensures
        extraction_next(ExtractionView::Mkv(c, p)) == extraction_next(ExtractionView::Mkv(c, next)),
        drained(ExtractionView::Mkv(c, p)) == drained(ExtractionView::Mkv(c, next)),
        read_when_drained(ExtractionView::Mkv(c, p), before) == read_when_drained(
            ExtractionView::Mkv(c, next),
            counted(before, advanced_reads(c, p.source)),
        ),
{
    let x = ExtractionView::Mkv(c, p);
    let y = ExtractionView::Mkv(c, next);
    assert(mkv_next(c, p) == mkv_next(c, next));
    assert(read_after(x, before) == read_after(y, counted(before, advanced_reads(c, p.source))));
}

proof fn lemma_read_along(
    c: MkvConfig,
    p: MkvProgress,
    cues: Seq<PgsCuePoint>,
    index: int,
    visited: Set<u64>,
    before: u64,
)
    requires
        along_index(p, cues, index, visited),
        came_to(c, cues, index, visited),
        drained(ExtractionView::Mkv(c, p)) is Ok,
    ensures
        left_to_read(c, cues, index) >= 0,
        read_when_drained(ExtractionView::Mkv(c, p), before) == counted(
            before,
            left_to_read(c, cues, index),
        ),
        cues_blocks(c.bytes, cues, c.active) is Ok,
    decreases cues.len() - index, p.pending.len(),
{
    let x = ExtractionView::Mkv(c, p);
    if p.pending.len() > 0 {
        let popped = MkvProgress { pending: p.pending.skip(1), ..p };
        let y = ExtractionView::Mkv(c, popped);
        assert(extraction_next(x).0 matches Some(Ok(_)));
        assert(extraction_next(x).1 == y);
        assert(read_after(x, before) == before);
        assert(drained(y) is Ok);
        lemma_read_along(c, popped, cues, index, visited, before);
    } else if index < cues.len() {
        match cue_blocks(c.bytes, cues[index], c.active, visited) {
            Ok((blocks, seen)) => {
                lemma_entry(c, cues, index, visited);
                let next = with_blocks(
                    c,
                    p,
                    blocks,
                    SourceView::Cues { cues, index: index + 1, visited: seen },
                );
                assert(advanced(c, p) == Ok::<Option<MkvProgress>, ErrorView>(Some(next)));
                assert(mkv_next(c, p) == mkv_next(c, next));
                assert(extraction_next(x) == extraction_next(ExtractionView::Mkv(c, next)));
                assert(!(extraction_next(x).0 matches Some(Err(_))));
                lemma_next_reads(c, next, cues, index + 1, seen);
                lemma_entry_first(c, p, next, before);
                lemma_read_along(
                    c,
                    next,
                    cues,
                    index + 1,
                    seen,
                    counted(before, advanced_reads(c, p.source)),
                );
            },
            Err(e) => {
                assert(advanced(c, p) == Err::<Option<MkvProgress>, ErrorView>(e));
                assert(extraction_next(x).0 matches Some(Err(_)));
            },
        }
    } else {
        assert(cues.take(index) =~= cues);
        assert(advanced(c, p) == Ok::<Option<MkvProgress>, ErrorView>(None));
        assert(extraction_next(x).0 is None);
        assert(read_after(x, before) == before);
    }
}

/// An extraction of all display sets along the index of a Matroska file reads,
/// behind what was read to open the file, what the wanted entries of the index
/// lead to: the data of their blocks, and at most 23 bytes for each element on
/// the way to them. The rest of the file is not read, however large it is.
pub proof fn indexed_extraction_reads_its_blocks(
    c: MkvConfig,
    p: MkvProgress,
    cues: Seq<PgsCuePoint>,
    before: u64,
)
    requires
        p.source is Uninitialized,
        p.pending.len() == 0,
        first_source(c) == Ok::<SourceView, ErrorView>(
            SourceView::Cues { cues, index: 0, visited: Set::empty() },
        ),
        drained(ExtractionView::Mkv(c, p)) is Ok,
    ensures
        read_when_drained(ExtractionView::Mkv(c, p), before) == counted(
            before,
            cues_reads(c.bytes, cues, c.active),
        ),
        cues_blocks(c.bytes, cues, c.active) matches Ok((blocks, _)) && 0 <= cues_reads(
            c.bytes,
            cues,
            c.active,
        ) <= 23 * cues_elements(c.bytes, cues, c.active) + data_total(blocks),
{
    let decided = MkvProgress {
        source: SourceView::Cues { cues, index: 0, visited: Set::empty() },
        ..p
    };
    let x = ExtractionView::Mkv(c, p);
    let y = ExtractionView::Mkv(c, decided);
    assert(extraction_next(x) == extraction_next(y));
    assert(read_after(x, before) == read_after(y, before));
    assert(drained(x) == drained(y));
    assert(read_when_drained(x, before) == read_when_drained(y, before));
    assert(cues.take(0) =~= Seq::<PgsCuePoint>::empty());
    lemma_read_along(c, decided, cues, 0, Set::empty(), before);
    index_reads_its_blocks_and_headers(c.bytes, cues, c.active);
}

} // verus!
