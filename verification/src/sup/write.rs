//! Writing raw PGS files, and what reading them gives back.
use vstd::prelude::*;
use crate::bytes::{be16, be32};
use crate::error::ErrorView;
use crate::pgs::display_set::{
    assembly_of_built, built, fresh_assembler, pushed, pushed_all, pushed_all_append,
    AssemblerView, BuilderView, DisplaySet, DisplaySetView,
};
use crate::pgs::segment::{
    segment_bytes, segment_fits, segment_parse_of_bytes, segment_views, SegmentView,
};
use crate::mkv::decode::set_views;
use crate::sup::count::{count_step, counts_from, no_counts, SupDisplaySetCounts};
use crate::sup::stream::{file_segment_at, sup_next};

verus! {

/// The bytes of segments, one after the other.
pub open spec fn segments_bytes(segments: Seq<SegmentView>) -> Seq<u8>
    decreases segments.len(),
{
    if segments.len() == 0 {
        Seq::empty()
    } else {
        segments_bytes(segments.drop_last()) + segment_bytes(segments.last())
    }
}

/// The bytes of display sets, one after the other.
pub open spec fn sets_bytes(sets: Seq<DisplaySetView>) -> Seq<u8>
    decreases sets.len(),
{
    if sets.len() == 0 {
        Seq::empty()
    } else {
        sets_bytes(sets.drop_last()) + segments_bytes(sets.last().segments)
    }
}

/// Appends the segments of a display set.
pub fn write_display_set(ds: &DisplaySet, buf: &mut Vec<u8>)
    ensures
        final(buf)@ == old(buf)@ + segments_bytes(ds@.segments),
{
    let ghost all = segment_views(ds.segments@);
    let mut i: usize = 0;
    assert(buf@ =~= old(buf)@ + segments_bytes(all.take(0)));
    while i < ds.segments.len()
        invariant
            i <= ds.segments@.len(),
            all == segment_views(ds.segments@),
            buf@ == old(buf)@ + segments_bytes(all.take(i as int)),
        decreases ds.segments@.len() - i,
    {
        ds.segments[i].write_to(buf);
        i += 1;
        proof {
            let some = all.take(i as int);
            assert(some.drop_last() =~= all.take(i - 1));
            assert(some.last() == ds.segments@[i - 1]@);
            assert(buf@ =~= old(buf)@ + segments_bytes(some));
        }
    }
    assert(all.take(i as int) =~= all);
}

/// The contents of a raw PGS file of display sets: their segments with full
/// headers, one after the other.
pub fn sup_file_bytes(display_sets: &[DisplaySet]) -> (r: Vec<u8>)
    ensures
        r@ == sets_bytes(set_views(display_sets@)),
{
    let ghost all = set_views(display_sets@);
    let mut buf: Vec<u8> = Vec::new();
    let mut i: usize = 0;
    assert(buf@ =~= sets_bytes(all.take(0)));
    while i < display_sets.len()
        invariant
            i <= display_sets@.len(),
            all == set_views(display_sets@),
            buf@ == sets_bytes(all.take(i as int)),
        decreases display_sets@.len() - i,
    {
        write_display_set(&display_sets[i], &mut buf);
        i += 1;
        proof {
            let some = all.take(i as int);
            assert(some.drop_last() =~= all.take(i - 1));
            assert(some.last() == display_sets@[i - 1]@);
        }
    }
    assert(all.take(i as int) =~= all);
    buf
}

/// All that reading on from `pos` with an assembler gives, up to an error or
/// the end of the file.
pub open spec fn sup_all(s: Seq<u8>, pos: int, a: AssemblerView) -> Seq<
    Result<DisplaySetView, ErrorView>,
>
    decreases s.len() - pos,
    via sup_all_decreases
{
    match sup_next(s, pos, a) {
        (Some(Ok(ds)), next, after) => seq![Ok::<DisplaySetView, ErrorView>(ds)] + sup_all(
            s,
            next,
            after,
        ),
        (Some(Err(e)), _, _) => seq![Err::<DisplaySetView, ErrorView>(e)],
        (None, _, _) => Seq::empty(),
    }
}

#[via_fn]
proof fn sup_all_decreases(s: Seq<u8>, pos: int, a: AssemblerView) {
    lemma_next_advances(s, pos, a);
}

pub(crate) proof fn lemma_next_advances(s: Seq<u8>, pos: int, a: AssemblerView)
    ensures
        sup_next(s, pos, a).0 matches Some(Ok(_)) ==> pos < sup_next(s, pos, a).1 <= s.len(),
    decreases s.len() - pos,
{
    match file_segment_at(s, pos) {
        Ok(Some((segment, next))) => {
            if next > pos && pushed(a, segment).1 is None {
                lemma_next_advances(s, next, pushed(a, segment).0);
            }
        },
        _ => {},
    }
}

/// Display sets as the outcomes of reading.
pub open spec fn all_read(sets: Seq<DisplaySetView>) -> Seq<Result<DisplaySetView, ErrorView>> {
    Seq::new(sets.len(), |i: int| Ok::<DisplaySetView, ErrorView>(sets[i]))
}

proof fn lemma_segments_append(first: Seq<SegmentView>, second: Seq<SegmentView>)
    ensures
        segments_bytes(first + second) == segments_bytes(first) + segments_bytes(second),
    decreases second.len(),
{
    if second.len() == 0 {
        assert(first + second =~= first);
        assert(segments_bytes(first) + segments_bytes(second) =~= segments_bytes(first));
    } else {
        lemma_segments_append(first, second.drop_last());
        assert((first + second).drop_last() =~= first + second.drop_last());
        assert(segments_bytes(first + second) =~= segments_bytes(first) + segments_bytes(second));
    }
}

pub(crate) proof fn lemma_segments_prepend(segments: Seq<SegmentView>)
    requires
        segments.len() > 0,
    ensures
        segments_bytes(segments) == segment_bytes(segments[0]) + segments_bytes(segments.skip(1)),
{
    let one = seq![segments[0]];
    let first = segment_bytes(segments[0]);
    assert(one + segments.skip(1) =~= segments);
    lemma_segments_append(one, segments.skip(1));
    assert(one.drop_last() =~= Seq::<SegmentView>::empty());
    assert(segments_bytes(Seq::<SegmentView>::empty()) == Seq::<u8>::empty());
    assert(segments_bytes(one) == segments_bytes(one.drop_last()) + first);
    assert(Seq::<u8>::empty() + first =~= first);
}

proof fn lemma_split(d: Seq<u8>, head: Seq<u8>, rest: Seq<u8>)
    requires
        d == head + rest,
    ensures
        d.skip(head.len() as int) == rest,
{
    assert(d.skip(head.len() as int) =~= rest);
}

/// The segment at a position where a written segment is.
proof fn lemma_file_segment(s: Seq<u8>, pos: int, v: SegmentView, rest: Seq<u8>)
    requires
        0 <= pos <= s.len(),
        segment_fits(v),
        s.skip(pos) == segment_bytes(v) + rest,
    ensures
        file_segment_at(s, pos) == Ok::<Option<(SegmentView, int)>, ErrorView>(
            Some((v, pos + segment_bytes(v).len())),
        ),
        s.skip(pos + segment_bytes(v).len()) == rest,
{
    let d = s.skip(pos);
    segment_parse_of_bytes(v, rest);
    let n = segment_bytes(v).len() as int;
    assert(d.len() == s.len() - pos);
    assert(forall|i: int| 0 <= i < d.len() ==> d[i] == s[pos + i]);
    assert(d[0] == s[pos] && d[1] == s[pos + 1] && d[10] == s[pos + 10]);
    assert(be32(d, 2) == be32(s, pos + 2));
    assert(be32(d, 6) == be32(s, pos + 6));
    assert(be16(d, 11) == be16(s, pos + 11));
    assert(s.subrange(pos + 13, pos + n) =~= d.subrange(13, n));
    lemma_split(d, segment_bytes(v), rest);
    assert(s.skip(pos + n) =~= d.skip(n));
}

proof fn lemma_read_segments(s: Seq<u8>, pos: int, a: AssemblerView, segments: Seq<SegmentView>)
    requires
        0 <= pos <= s.len(),
        s.skip(pos) == segments_bytes(segments),
        forall|i: int| 0 <= i < segments.len() ==> segment_fits(#[trigger] segments[i]),
    ensures
        sup_all(s, pos, a) == all_read(pushed_all(a, segments).1),
    decreases segments.len(),
{
    if segments.len() == 0 {
        assert(s.skip(pos).len() == 0);
        assert(sup_all(s, pos, a) =~= all_read(pushed_all(a, segments).1));
    } else {
        let first = segments[0];
        let tail = segments.skip(1);
        lemma_segments_prepend(segments);
        lemma_file_segment(s, pos, first, segments_bytes(tail));
        let next = pos + segment_bytes(first).len();
        let (after, set) = pushed(a, first);
        assert forall|i: int| 0 <= i < tail.len() implies segment_fits(#[trigger] tail[i]) by {
            assert(tail[i] == segments[i + 1]);
        }
        lemma_read_segments(s, next, after, tail);
        assert(seq![first] + tail =~= segments);
        pushed_all_append(a, seq![first], tail);
        assert(seq![first].drop_last() =~= Seq::<SegmentView>::empty());
        assert(pushed_all(a, Seq::<SegmentView>::empty()) == (a, Seq::<DisplaySetView>::empty()));
        assert(pushed_all(a, seq![first]).0 == after);
        match set {
            Some(ds) => {
                assert(pushed_all(a, seq![first]).1 =~= seq![ds]);
                assert(sup_all(s, pos, a) =~= all_read(pushed_all(a, segments).1));
            },
            None => {
                assert(pushed_all(a, seq![first]).1 =~= Seq::<DisplaySetView>::empty());
                assert(sup_next(s, pos, a) == sup_next(s, next, after));
                assert(sup_all(s, pos, a) == sup_all(s, next, after));
                assert(pushed_all(a, segments).1 =~= pushed_all(after, tail).1);
            },
        }
    }
}

/// Reading a file of written segments gives exactly the display sets that
/// pushing these segments completes, if their fields fit in their headers.
pub proof fn written_segments_are_read_back(segments: Seq<SegmentView>)
    requires
        forall|i: int| 0 <= i < segments.len() ==> segment_fits(#[trigger] segments[i]),
    ensures
        sup_all(segments_bytes(segments), 0, fresh_assembler()) == all_read(
            pushed_all(fresh_assembler(), segments).1,
        ),
{
    let s = segments_bytes(segments);
    assert(s.skip(0) =~= s);
    lemma_read_segments(s, 0, fresh_assembler(), segments);
}

/// The segments of display sets, one after the other.
pub open spec fn all_segments(sets: Seq<DisplaySetView>) -> Seq<SegmentView>
    decreases sets.len(),
{
    if sets.len() == 0 {
        Seq::empty()
    } else {
        all_segments(sets.drop_last()) + sets.last().segments
    }
}

pub(crate) proof fn lemma_sets_bytes(sets: Seq<DisplaySetView>)
    ensures
        sets_bytes(sets) == segments_bytes(all_segments(sets)),
    decreases sets.len(),
{
    if sets.len() > 0 {
        lemma_sets_bytes(sets.drop_last());
        lemma_segments_append(all_segments(sets.drop_last()), sets.last().segments);
    }
}

/// Whether a display set is one that a builder builds, with segments whose
/// fields fit in their headers.
pub open spec fn is_built(ds: DisplaySetView) -> bool {
    &&& exists|b: BuilderView| #[trigger] built(b) == Ok::<DisplaySetView, ErrorView>(ds)
    &&& forall|i: int| 0 <= i < ds.segments.len() ==> segment_fits(#[trigger] ds.segments[i])
}

proof fn lemma_push_set(a: AssemblerView, ds: DisplaySetView)
    requires
        is_built(ds),
    ensures
        pushed_all(a, ds.segments).1 == seq![ds],
{
    let b = choose|b: BuilderView| #[trigger] built(b) == Ok::<DisplaySetView, ErrorView>(ds);
    assembly_of_built(a, b);
}

proof fn lemma_push_sets(a: AssemblerView, sets: Seq<DisplaySetView>)
    requires
        forall|i: int| 0 <= i < sets.len() ==> is_built(#[trigger] sets[i]),
    ensures
        pushed_all(a, all_segments(sets)).1 == sets,
    decreases sets.len(),
{
    if sets.len() == 0 {
        assert(sets =~= Seq::<DisplaySetView>::empty());
    } else {
        let init = sets.drop_last();
        let ds = sets.last();
        assert(is_built(sets[sets.len() - 1]));
        assert forall|i: int| 0 <= i < init.len() implies is_built(#[trigger] init[i]) by {
            assert(is_built(sets[i]));
        }
        lemma_push_sets(a, init);
        let before = pushed_all(a, all_segments(init)).0;
        pushed_all_append(a, all_segments(init), ds.segments);
        lemma_push_set(before, ds);
        assert(init + seq![ds] =~= sets);
    }
}

proof fn lemma_sets_fit(sets: Seq<DisplaySetView>)
    requires
        forall|i: int| 0 <= i < sets.len() ==> is_built(#[trigger] sets[i]),
    ensures
        forall|i: int|
            0 <= i < all_segments(sets).len() ==> segment_fits(#[trigger] all_segments(sets)[i]),
    decreases sets.len(),
{
    if sets.len() > 0 {
        let init = sets.drop_last();
        let ds = sets.last();
        let some = all_segments(init);
        let all = all_segments(sets);
        assert(is_built(sets[sets.len() - 1]));
        assert forall|i: int| 0 <= i < init.len() implies is_built(#[trigger] init[i]) by {
            assert(is_built(sets[i]));
        }
        lemma_sets_fit(init);
        assert forall|i: int| 0 <= i < all.len() implies segment_fits(#[trigger] all[i]) by {
            if i < some.len() {
                assert(all[i] == some[i]);
            } else {
                assert(all[i] == ds.segments[i - some.len()]);
            }
        }
    }
}

/// A raw PGS file of built display sets gives these display sets back, all of
/// them and nothing else.
pub proof fn written_sets_are_read_back(sets: Seq<DisplaySetView>)
    requires
        forall|i: int| 0 <= i < sets.len() ==> is_built(#[trigger] sets[i]),
    ensures
        sup_all(sets_bytes(sets), 0, fresh_assembler()) == all_read(sets),
{
    lemma_push_sets(fresh_assembler(), sets);
    lemma_sets_fit(sets);
    lemma_sets_bytes(sets);
    written_segments_are_read_back(all_segments(sets));
}

/// The number of segments that satisfy a condition.
pub open spec fn number_of(segments: Seq<SegmentView>, cond: spec_fn(SegmentView) -> bool) -> nat
    decreases segments.len(),
{
    if segments.len() == 0 {
        0
    } else {
        (if cond(segments[0]) {
            1nat
        } else {
            0nat
        }) + number_of(segments.skip(1), cond)
    }
}

/// Whether a segment ends a display set.
pub open spec fn is_end(s: SegmentView) -> bool {
    s.segment_type is EndOfDisplaySet
}

/// Whether a segment is a composition with objects.
pub open spec fn is_content(s: SegmentView) -> bool {
    s.segment_type is PresentationComposition && s.payload[10] != 0
}

/// Whether a segment fits in its header and, if it is a composition, names its
/// objects.
pub open spec fn is_countable(s: SegmentView) -> bool {
    segment_fits(s) && (s.segment_type is PresentationComposition ==> s.payload.len() >= 11)
}

/// The number of end segments whose display set shows something, or does not,
/// by its last composition; `shows` says whether the one that is going on does.
pub open spec fn ends_that(segments: Seq<SegmentView>, shows: bool, visible: bool) -> nat
    decreases segments.len(),
{
    if segments.len() == 0 {
        0
    } else {
        let first = segments[0];
        let rest = segments.skip(1);
        if is_end(first) {
            (if shows == visible {
                1nat
            } else {
                0
            }) + ends_that(rest, false, visible)
        } else if first.segment_type is PresentationComposition {
            ends_that(rest, is_content(first), visible)
        } else {
            ends_that(rest, shows, visible)
        }
    }
}

proof fn lemma_ends(segments: Seq<SegmentView>, shows: bool)
    ensures
        ends_that(segments, shows, true) + ends_that(segments, shows, false) == number_of(
            segments,
            |x: SegmentView| is_end(x),
        ),
    decreases segments.len(),
{
    if segments.len() > 0 {
        let first = segments[0];
        lemma_ends(segments.skip(1), false);
        lemma_ends(segments.skip(1), shows);
        lemma_ends(segments.skip(1), is_content(first));
    }
}

proof fn lemma_counts(
    s: Seq<u8>,
    pos: int,
    c: SupDisplaySetCounts,
    shows: bool,
    segments: Seq<SegmentView>,
)
    requires
        0 <= pos <= s.len(),
        s.skip(pos) == segments_bytes(segments),
        forall|i: int| 0 <= i < segments.len() ==> is_countable(#[trigger] segments[i]),
        c.total + segments.len() <= u64::MAX,
        c.content + segments.len() <= u64::MAX,
        c.clear + segments.len() <= u64::MAX,
    ensures
        counts_from(s, pos, c, shows) == Ok::<SupDisplaySetCounts, ErrorView>(
            SupDisplaySetCounts {
                total: (c.total + number_of(segments, |x: SegmentView| is_end(x))) as u64,
                content: (c.content + ends_that(segments, shows, true)) as u64,
                clear: (c.clear + ends_that(segments, shows, false)) as u64,
            },
        ),
    decreases segments.len(),
{
    if segments.len() == 0 {
        assert(s.skip(pos).len() == 0);
    } else {
        let first = segments[0];
        let tail = segments.skip(1);
        lemma_segments_prepend(segments);
        assert(segment_fits(first));
        lemma_file_segment(s, pos, first, segments_bytes(tail));
        let next = pos + segment_bytes(first).len();
        let d = s.skip(pos);
        assert(first.payload == s.subrange(pos + 13, next));
        assert(first.payload.len() == be16(s, pos + 11));
        if first.segment_type is PresentationComposition {
            assert(is_countable(first));
            assert(first.payload[10] == s[pos + 23]);
        }
        let step = count_step(s, pos, c, shows);
        assert(step is Ok);
        assert forall|i: int| 0 <= i < tail.len() implies is_countable(#[trigger] tail[i]) by {
            assert(tail[i] == segments[i + 1]);
        }
        let (more, showing) = step->Ok_0;
        lemma_counts(s, next, more, showing, tail);
        lemma_ends(tail, showing);
        lemma_number_bound(tail, |x: SegmentView| is_end(x));
    }
}

/// Counting a file of written segments gives the number of end segments, and of
/// those whose display set shows something and does not.
pub proof fn written_segments_are_counted(segments: Seq<SegmentView>)
    requires
        forall|i: int| 0 <= i < segments.len() ==> is_countable(#[trigger] segments[i]),
        segments.len() <= u64::MAX,
    ensures
        counts_from(segments_bytes(segments), 0, no_counts(), false) == Ok::<
            SupDisplaySetCounts,
            ErrorView,
        >(
            SupDisplaySetCounts {
                total: number_of(segments, |x: SegmentView| is_end(x)) as u64,
                content: ends_that(segments, false, true) as u64,
                clear: ends_that(segments, false, false) as u64,
            },
        ),
{
    let s = segments_bytes(segments);
    assert(s.skip(0) =~= s);
    lemma_counts(s, 0, no_counts(), false, segments);
}

proof fn lemma_number_append(
    first: Seq<SegmentView>,
    second: Seq<SegmentView>,
    cond: spec_fn(SegmentView) -> bool,
)
    ensures
        number_of(first + second, cond) == number_of(first, cond) + number_of(second, cond),
    decreases first.len(),
{
    if first.len() == 0 {
        assert(first + second =~= second);
    } else {
        assert((first + second).skip(1) =~= first.skip(1) + second);
        lemma_number_append(first.skip(1), second, cond);
    }
}

/// Whether a display set consists of one composition, which names its objects,
/// an end segment, and other segments between them, all of which fit in their
/// headers.
pub open spec fn is_framed(ds: DisplaySetView) -> bool {
    let segments = ds.segments;
    &&& segments.len() >= 2
    &&& segments[0].segment_type is PresentationComposition
    &&& segments.last().segment_type is EndOfDisplaySet
    &&& forall|i: int|
        0 < i < segments.len() - 1 ==> !((#[trigger] segments[i]).segment_type
            is PresentationComposition) && !(segments[i].segment_type is EndOfDisplaySet)
    &&& forall|i: int| 0 <= i < segments.len() ==> is_countable(#[trigger] segments[i])
}

/// The number of display sets that start with a composition with objects.
pub open spec fn showing_sets(sets: Seq<DisplaySetView>) -> nat
    decreases sets.len(),
{
    if sets.len() == 0 {
        0
    } else {
        showing_sets(sets.drop_last()) + if is_content(sets.last().segments[0]) {
            1nat
        } else {
            0
        }
    }
}

proof fn lemma_ends_append(
    first: Seq<SegmentView>,
    second: Seq<SegmentView>,
    shows: bool,
    visible: bool,
)
    requires
        first.len() == 0 ==> !shows,
        first.len() > 0 ==> is_end(first.last()),
    ensures
        ends_that(first + second, shows, visible) == ends_that(first, shows, visible) + ends_that(
            second,
            false,
            visible,
        ),
    decreases first.len(),
{
    if first.len() == 0 {
        assert(first + second =~= second);
    } else {
        let rest = first.skip(1);
        assert((first + second).skip(1) =~= rest + second);
        if first.len() == 1 {
            assert(rest + second =~= second);
            assert(is_end(first[0]));
            assert(ends_that(rest, false, visible) == 0);
        } else {
            let showing = if is_end(first[0]) {
                false
            } else if first[0].segment_type is PresentationComposition {
                is_content(first[0])
            } else {
                shows
            };
            assert(rest.last() == first.last());
            lemma_ends_append(rest, second, showing, visible);
        }
    }
}

/// The end of a display set without further compositions is the only one.
proof fn lemma_framed_end(segments: Seq<SegmentView>, shows: bool, visible: bool)
    requires
        segments.len() >= 1,
        is_end(segments.last()),
        forall|i: int|
            0 <= i < segments.len() - 1 ==> !((#[trigger] segments[i]).segment_type
                is PresentationComposition) && !(segments[i].segment_type is EndOfDisplaySet),
    ensures
        ends_that(segments, shows, visible) == if shows == visible {
            1nat
        } else {
            0
        },
        number_of(segments, |x: SegmentView| is_end(x)) == 1,
    decreases segments.len(),
{
    let rest = segments.skip(1);
    if segments.len() == 1 {
        assert(ends_that(rest, false, visible) == 0);
        assert(number_of(rest, |x: SegmentView| is_end(x)) == 0);
    } else {
        assert(!(segments[0].segment_type is EndOfDisplaySet));
        assert(rest.last() == segments.last());
        assert forall|i: int| 0 <= i < rest.len() - 1 implies !((#[trigger] rest[i]).segment_type
            is PresentationComposition) && !(rest[i].segment_type is EndOfDisplaySet) by {
            assert(rest[i] == segments[i + 1]);
        }
        lemma_framed_end(rest, shows, visible);
    }
}

proof fn lemma_framed_set(ds: DisplaySetView, visible: bool)
    requires
        is_framed(ds),
    ensures
        ends_that(ds.segments, false, visible) == if is_content(ds.segments[0]) == visible {
            1nat
        } else {
            0
        },
        number_of(ds.segments, |x: SegmentView| is_end(x)) == 1,
{
    let segments = ds.segments;
    let rest = segments.skip(1);
    assert(rest.last() == segments.last());
    assert forall|i: int| 0 <= i < rest.len() - 1 implies !((#[trigger] rest[i]).segment_type
        is PresentationComposition) && !(rest[i].segment_type is EndOfDisplaySet) by {
        assert(rest[i] == segments[i + 1]);
    }
    lemma_framed_end(rest, is_content(segments[0]), visible);
}

proof fn lemma_sets_numbers(sets: Seq<DisplaySetView>)
    requires
        forall|i: int| 0 <= i < sets.len() ==> is_framed(#[trigger] sets[i]),
    ensures
        number_of(all_segments(sets), |x: SegmentView| is_end(x)) == sets.len(),
        ends_that(all_segments(sets), false, true) == showing_sets(sets),
        ends_that(all_segments(sets), false, false) == sets.len() - showing_sets(sets),
        sets.len() > 0 ==> all_segments(sets).len() > 0 && is_end(all_segments(sets).last()),
        sets.len() == 0 ==> all_segments(sets).len() == 0,
        forall|i: int|
            0 <= i < all_segments(sets).len() ==> is_countable(#[trigger] all_segments(sets)[i]),
    decreases sets.len(),
{
    if sets.len() > 0 {
        let init = sets.drop_last();
        let ds = sets.last();
        let some = all_segments(init);
        let all = all_segments(sets);
        assert(is_framed(sets[sets.len() - 1]));
        assert forall|i: int| 0 <= i < init.len() implies is_framed(#[trigger] init[i]) by {
            assert(is_framed(sets[i]));
        }
        lemma_sets_numbers(init);
        lemma_number_append(some, ds.segments, |x: SegmentView| is_end(x));
        lemma_ends_append(some, ds.segments, false, true);
        lemma_ends_append(some, ds.segments, false, false);
        lemma_framed_set(ds, true);
        lemma_framed_set(ds, false);
        assert(all.last() == ds.segments.last());
        assert forall|i: int| 0 <= i < all.len() implies is_countable(#[trigger] all[i]) by {
            if i < some.len() {
                assert(all[i] == some[i]);
            } else {
                assert(all[i] == ds.segments[i - some.len()]);
            }
        }
    }
}

/// Counting a file of complete display sets gives their number, the number of
/// those that show something, and that of the others.
pub proof fn written_sets_are_counted(sets: Seq<DisplaySetView>)
    requires
        forall|i: int| 0 <= i < sets.len() ==> is_framed(#[trigger] sets[i]),
        all_segments(sets).len() <= u64::MAX,
    ensures
        counts_from(sets_bytes(sets), 0, no_counts(), false) matches Ok(c) && c.total == sets.len()
            && c.content == showing_sets(sets) && c.clear == sets.len() - showing_sets(sets),
{
    lemma_sets_numbers(sets);
    lemma_sets_bytes(sets);
    written_segments_are_counted(all_segments(sets));
    lemma_number_bound(all_segments(sets), |x: SegmentView| is_end(x));
}

proof fn lemma_number_bound(segments: Seq<SegmentView>, cond: spec_fn(SegmentView) -> bool)
    ensures
        number_of(segments, cond) <= segments.len(),
    decreases segments.len(),
{
    if segments.len() > 0 {
        lemma_number_bound(segments.skip(1), cond);
    }
}

} // verus!
