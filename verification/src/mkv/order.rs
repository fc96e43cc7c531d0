//! Index entries in file order and blocks in time order.
use vstd::prelude::*;
use crate::mkv::cluster::{block_views, BlockView, PgsBlock};
use crate::mkv::cues::PgsCuePoint;
use crate::mkv::indexed::clusters_ascend;

verus! {

/// Whether `a` lies in front of `b` in the file.
pub open spec fn cue_less(a: PgsCuePoint, b: PgsCuePoint) -> bool {
    a.cluster_position < b.cluster_position || (a.cluster_position == b.cluster_position
        && relative_of(a) < relative_of(b))
}

/// The relative position of an entry, or 0 if it has none.
pub open spec fn relative_of(c: PgsCuePoint) -> u64 {
    match c.relative_position {
        Some(r) => r,
        None => 0,
    }
}

/// Whether `a` is shown before `b`, or at the same time on a lower track.
pub open spec fn block_less(a: BlockView, b: BlockView) -> bool {
    a.timestamp < b.timestamp || (a.timestamp == b.timestamp && a.track_number < b.track_number)
}

/// `sorted` with `x` in its place: behind everything that is not greater.
pub open spec fn inserted<T>(sorted: Seq<T>, x: T, less: spec_fn(T, T) -> bool) -> Seq<T>
    decreases sorted.len(),
{
    if sorted.len() > 0 && less(x, sorted.last()) {
        inserted(sorted.drop_last(), x, less).push(sorted.last())
    } else {
        sorted.push(x)
    }
}

/// `items` in order; items of the same rank keep their order.
pub open spec fn sorted<T>(items: Seq<T>, less: spec_fn(T, T) -> bool) -> Seq<T>
    decreases items.len(),
{
    if items.len() == 0 {
        Seq::empty()
    } else {
        inserted(sorted(items.drop_last(), less), items.last(), less)
    }
}

/// Index entries in file order.
pub open spec fn cues_in_order(cues: Seq<PgsCuePoint>) -> Seq<PgsCuePoint> {
    sorted(cues, |a: PgsCuePoint, b: PgsCuePoint| cue_less(a, b))
}

/// `cue` in its place among entries in file order.
pub open spec fn cue_inserted(cues: Seq<PgsCuePoint>, cue: PgsCuePoint) -> Seq<PgsCuePoint> {
    inserted(cues, cue, |a: PgsCuePoint, b: PgsCuePoint| cue_less(a, b))
}

/// Blocks in time order.
pub open spec fn blocks_in_order(blocks: Seq<BlockView>) -> Seq<BlockView> {
    sorted(blocks, |a: BlockView, b: BlockView| block_less(a, b))
}

/// `block` in its place among blocks in time order.
pub open spec fn block_inserted(blocks: Seq<BlockView>, block: BlockView) -> Seq<BlockView> {
    inserted(blocks, block, |a: BlockView, b: BlockView| block_less(a, b))
}

proof fn lemma_inserted_at<T>(s: Seq<T>, x: T, less: spec_fn(T, T) -> bool, p: int)
    requires
        0 <= p <= s.len(),
        forall|i: int| p <= i < s.len() ==> less(x, #[trigger] s[i]),
        p > 0 ==> !less(x, s[p - 1]),
    ensures
        inserted(s, x, less) == s.insert(p, x),
    decreases s.len(),
{
    if p == s.len() {
        if p > 0 {
            assert(s.last() == s[p - 1]);
        }
        assert(s.insert(p, x) =~= s.push(x));
    } else {
        assert(s.last() == s[s.len() - 1]);
        assert forall|i: int| p <= i < s.drop_last().len() implies less(
            x,
            #[trigger] s.drop_last()[i],
        ) by {
            assert(s.drop_last()[i] == s[i]);
        }
        lemma_inserted_at(s.drop_last(), x, less, p);
        assert(s.insert(p, x) =~= s.drop_last().insert(p, x).push(s.last()));
    }
}

fn cue_lt(a: &PgsCuePoint, b: &PgsCuePoint) -> (r: bool)
    ensures
        r == cue_less(*a, *b),
{
    let ra: u64 = match a.relative_position {
        Some(v) => v,
        None => 0,
    };
    let rb: u64 = match b.relative_position {
        Some(v) => v,
        None => 0,
    };
    a.cluster_position < b.cluster_position || (a.cluster_position == b.cluster_position && ra < rb)
}

/// Puts index entries in file order.
pub fn sort_cues(cues: &[PgsCuePoint]) -> (r: Vec<PgsCuePoint>)
    ensures
        r@ == cues_in_order(cues@),
{
    let mut out: Vec<PgsCuePoint> = Vec::new();
    let mut i: usize = 0;
    while i < cues.len()
        invariant
            i <= cues@.len(),
            out@ == cues_in_order(cues@.take(i as int)),
        decreases cues@.len() - i,
    {
        let cue = cues[i];
        let mut p: usize = out.len();
        while p > 0 && cue_lt(&cue, &out[p - 1])
            invariant
                p <= out@.len(),
                forall|k: int| p <= k < out@.len() ==> cue_less(cue, #[trigger] out@[k]),
            decreases p,
        {
            p -= 1;
        }
        proof {
            let less = |a: PgsCuePoint, b: PgsCuePoint| cue_less(a, b);
            lemma_inserted_at(out@, cue, less, p as int);
            assert(cue_inserted(out@, cue) == out@.insert(p as int, cue));
            let some = cues@.take(i + 1);
            assert(some.drop_last() =~= cues@.take(i as int));
            assert(some.last() == cue);
            assert(cues_in_order(some) == cue_inserted(cues_in_order(some.drop_last()), cue));
        }
        out.insert(p, cue);
        i += 1;
    }
    assert(cues@.take(i as int) =~= cues@);
    out
}

fn block_lt(a: &PgsBlock, b: &PgsBlock) -> (r: bool)
    ensures
        r == block_less(a@, b@),
{
    a.timestamp < b.timestamp || (a.timestamp == b.timestamp && a.track_number < b.track_number)
}

/// Puts blocks in time order.
pub fn sort_blocks(blocks: Vec<PgsBlock>) -> (r: Vec<PgsBlock>)
    ensures
        block_views(r@) == blocks_in_order(block_views(blocks@)),
{
    let ghost all = block_views(blocks@);
    let mut out: Vec<PgsBlock> = Vec::new();
    assert(block_views(out@) =~= blocks_in_order(all.take(0)));
    for block in it: blocks
        invariant
            all == block_views(it.seq()),
            block_views(out@) == blocks_in_order(all.take(it.index() as int)),
    {
        let ghost i = it.index() as int;
        let mut p: usize = out.len();
        while p > 0 && block_lt(&block, &out[p - 1])
            invariant
                p <= out@.len(),
                forall|k: int| p <= k < out@.len() ==> block_less(block@, (#[trigger] out@[k])@),
            decreases p,
        {
            p -= 1;
        }
        proof {
            let less = |a: BlockView, b: BlockView| block_less(a, b);
            let views = block_views(out@);
            assert forall|k: int| p <= k < views.len() implies less(
                block@,
                #[trigger] views[k],
            ) by {
                assert(views[k] == out@[k]@);
            }
            lemma_inserted_at(views, block@, less, p as int);
            assert(block_inserted(views, block@) == views.insert(p as int, block@));
            let some = all.take(i + 1);
            assert(some.drop_last() =~= all.take(i));
            assert(some.last() == block@);
            assert(blocks_in_order(some) == block_inserted(
                blocks_in_order(some.drop_last()),
                block@,
            ));
            assert(block_views(out@.insert(p as int, block)) =~= views.insert(p as int, block@));
        }
        out.insert(p, block);
    }
    assert(all.take(all.len() as int) =~= all);
    out
}

/// Whether every item is in front of, or of the same rank as, those behind it.
pub open spec fn is_sorted<T>(items: Seq<T>, less: spec_fn(T, T) -> bool) -> bool {
    forall|i: int, j: int|
        0 <= i < j < items.len() ==> !less(#[trigger] items[j], #[trigger] items[i])
}

/// Whether `less` is a strict order by some rank.
pub open spec fn is_ranking<T>(less: spec_fn(T, T) -> bool) -> bool {
    &&& forall|a: T, b: T| #[trigger] less(a, b) ==> !less(b, a)
    &&& forall|a: T, b: T, c: T|
        !(#[trigger] less(a, b)) && !(#[trigger] less(b, c)) ==> !less(a, c)
}

proof fn lemma_insert_into_sorted<T>(s: Seq<T>, x: T, less: spec_fn(T, T) -> bool)
    requires
        is_ranking(less),
        is_sorted(s, less),
    ensures
        is_sorted(inserted(s, x, less), less),
        inserted(s, x, less).to_multiset() == s.to_multiset().insert(x),
        forall|i: int|
            0 <= i < inserted(s, x, less).len() ==> (#[trigger] inserted(s, x, less)[i] == x
                || s.contains(inserted(s, x, less)[i])),
    decreases s.len(),
{
    broadcast use vstd::seq_lib::group_to_multiset_ensures;

    let r = inserted(s, x, less);
    if s.len() > 0 && less(x, s.last()) {
        let init = s.drop_last();
        let last = s.last();
        assert forall|i: int, j: int| 0 <= i < j < init.len() implies !less(
            #[trigger] init[j],
            #[trigger] init[i],
        ) by {
            assert(init[i] == s[i] && init[j] == s[j]);
        }
        lemma_insert_into_sorted(init, x, less);
        let q = inserted(init, x, less);
        assert(r == q.push(last));
        assert(s =~= init.push(last));
        assert(r.to_multiset() =~= s.to_multiset().insert(x));
        assert forall|i: int| 0 <= i < r.len() implies #[trigger] r[i] == x || s.contains(
            r[i],
        ) by {
            if i < q.len() {
                assert(r[i] == q[i]);
                if q[i] != x {
                    let k = choose|k: int| 0 <= k < init.len() && init[k] == q[i];
                    assert(s[k] == q[i]);
                }
            } else {
                assert(s[s.len() - 1] == r[i]);
            }
        }
        assert forall|i: int, j: int| 0 <= i < j < r.len() implies !less(
            #[trigger] r[j],
            #[trigger] r[i],
        ) by {
            if j < q.len() {
                assert(r[i] == q[i] && r[j] == q[j]);
            } else {
                assert(r[j] == last);
                assert(r[i] == q[i]);
                if q[i] == x {
                    assert(less(x, last));
                } else {
                    let k = choose|k: int| 0 <= k < init.len() && init[k] == q[i];
                    assert(s[k] == q[i]);
                    assert(s[s.len() - 1] == last);
                }
            }
        }
    } else {
        assert forall|i: int, j: int| 0 <= i < j < r.len() implies !less(
            #[trigger] r[j],
            #[trigger] r[i],
        ) by {
            if j < s.len() {
                assert(r[i] == s[i] && r[j] == s[j]);
            } else {
                assert(r[j] == x);
                assert(r[i] == s[i]);
                if i < s.len() - 1 {
                    assert(!less(s[s.len() - 1], s[i]));
                }
            }
        }
        assert forall|i: int| 0 <= i < r.len() implies #[trigger] r[i] == x || s.contains(
            r[i],
        ) by {
            if i < s.len() {
                assert(s[i] == r[i]);
            }
        }
    }
}

proof fn lemma_sorted<T>(items: Seq<T>, less: spec_fn(T, T) -> bool)
    requires
        is_ranking(less),
    ensures
        is_sorted(sorted(items, less), less),
        sorted(items, less).to_multiset() == items.to_multiset(),
    decreases items.len(),
{
    broadcast use vstd::seq_lib::group_to_multiset_ensures;

    if items.len() == 0 {
        assert(items =~= Seq::<T>::empty());
    } else {
        lemma_sorted(items.drop_last(), less);
        lemma_insert_into_sorted(sorted(items.drop_last(), less), items.last(), less);
        assert(items =~= items.drop_last().push(items.last()));
    }
}

/// Putting index entries in file order neither loses nor adds any, and leaves
/// none in front of one that belongs before it.
pub proof fn cues_in_order_is_sorted(cues: Seq<PgsCuePoint>)
    ensures
        forall|i: int, j: int|
            0 <= i < j < cues_in_order(cues).len() ==> !cue_less(
                #[trigger] cues_in_order(cues)[j],
                #[trigger] cues_in_order(cues)[i],
            ),
        cues_in_order(cues).to_multiset() == cues.to_multiset(),
{
    let less = |a: PgsCuePoint, b: PgsCuePoint| cue_less(a, b);
    lemma_sorted(cues, less);
    assert(is_sorted(cues_in_order(cues), less));
}

/// Index entries in file order are in the order of their clusters.
pub proof fn cues_in_order_ascend(cues: Seq<PgsCuePoint>)
    ensures
        clusters_ascend(cues_in_order(cues)),
{
    cues_in_order_is_sorted(cues);
}

/// Putting blocks in time order neither loses nor adds any, and leaves none in
/// front of one that belongs before it.
pub proof fn blocks_in_order_is_sorted(blocks: Seq<BlockView>)
    ensures
        forall|i: int, j: int|
            0 <= i < j < blocks_in_order(blocks).len() ==> !block_less(
                #[trigger] blocks_in_order(blocks)[j],
                #[trigger] blocks_in_order(blocks)[i],
            ),
        blocks_in_order(blocks).to_multiset() == blocks.to_multiset(),
{
    let less = |a: BlockView, b: BlockView| block_less(a, b);
    lemma_sorted(blocks, less);
    assert(is_sorted(blocks_in_order(blocks), less));
}

} // verus!
