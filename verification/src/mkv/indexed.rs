//! Extraction along the index.
use vstd::prelude::*;
use crate::ebml::children::{element_end, end_of};
use crate::ebml::ids;
use crate::ebml::vint::{
    element_at, element_header_reads, id_at, read_element_id, read_element_size, vint_stop, Element,
};
use crate::error::{ErrorView, PgsError};
use crate::io::reader::{counted, SeekBufReader, Source};
use crate::mkv::cluster::{
    block_views, cluster_blocks, cluster_reads, indexed_block, indexed_block_reads,
    read_block_at_position, scan_cluster_for_pgs,
    BlockView, PgsBlock,
};
use crate::mkv::cues::PgsCuePoint;
use std::collections::{HashMap, HashSet};

verus! {

/// The cluster at `pos`: nothing if another element is there.
pub open spec fn cluster_at(s: Seq<u8>, pos: int) -> Result<Option<Element>, ErrorView> {
    match id_at(s, pos) {
        None => Err(ErrorView::InvalidVint),
        Some(id) => if id.value != ids::CLUSTER {
            Ok(None)
        } else {
            match element_at(s, pos) {
                None => Err(ErrorView::InvalidVint),
                Some(e) => Ok(Some(e)),
            }
        },
    }
}

/// The blocks that an index entry leads to, and the clusters that have been
/// read whole after that.
///
/// An entry with a relative position leads to one block. Any other leads to all
/// blocks of the cluster, unless the cluster has been read already or its size
/// is unknown.
pub open spec fn cue_blocks(
    s: Seq<u8>,
    cue: PgsCuePoint,
    tracks: Seq<u64>,
    visited: Set<u64>,
) -> Result<(Seq<BlockView>, Set<u64>), ErrorView> {
    match cue.relative_position {
        Some(relative) => match cluster_at(s, cue.cluster_position as int) {
            Err(e) => Err(e),
            Ok(None) => Ok((Seq::empty(), visited)),
            Ok(Some(cluster)) => match end_of(cluster.data, relative) {
                Err(e) => Err(e),
                Ok(at) => match indexed_block(s, at, cue.time, tracks) {
                    Err(e) => Err(e),
                    Ok(Some(b)) => Ok((seq![b], visited)),
                    Ok(None) => Ok((Seq::empty(), visited)),
                },
            },
        },
        None => if visited.contains(cue.cluster_position) {
            Ok((Seq::empty(), visited))
        } else {
            let seen = visited.insert(cue.cluster_position);
            match cluster_at(s, cue.cluster_position as int) {
                Err(e) => Err(e),
                Ok(None) => Ok((Seq::empty(), seen)),
                Ok(Some(cluster)) => if cluster.size == u64::MAX {
                    Ok((Seq::empty(), seen))
                } else {
                    match cluster_blocks(
                        s,
                        cluster.data,
                        cluster.size,
                        cluster.data,
                        tracks,
                        false,
                    ) {
                        Err(e) => Err(e),
                        Ok((blocks, _)) => Ok((blocks, seen)),
                    }
                },
            }
        },
    }
}

/// The number of bytes that reading the header of the cluster at `pos` reads: the
/// identifier alone if another element is there.
pub open spec fn cluster_header_reads(s: Seq<u8>, pos: int) -> int {
    match id_at(s, pos) {
        None => vint_stop(s, pos, 4) - pos,
        Some(id) => if id.value != ids::CLUSTER {
            id.width as int
        } else {
            element_header_reads(s, pos)
        },
    }
}

/// The clusters whose headers are known after an index entry has been followed.
/// An entry with a relative position makes its cluster known.
pub open spec fn cue_known(s: Seq<u8>, cue: PgsCuePoint, known: Set<u64>) -> Set<u64> {
    if cue.relative_position is Some && cluster_at(s, cue.cluster_position as int) matches Ok(
        Some(_),
    ) {
        known.insert(cue.cluster_position)
    } else {
        known
    }
}

/// The number of bytes that following an index entry reads.
///
/// With a relative position these are the cluster's header, unless it is known,
/// and the block. Otherwise they are the cluster's header and what a scan of the
/// cluster reads, unless it has been read already or its size is unknown.
pub open spec fn cue_reads(
    s: Seq<u8>,
    cue: PgsCuePoint,
    tracks: Seq<u64>,
    visited: Set<u64>,
    known: Set<u64>,
) -> int {
    let pos = cue.cluster_position as int;
    match cue.relative_position {
        Some(relative) => (if known.contains(cue.cluster_position) {
            0
        } else {
            cluster_header_reads(s, pos)
        }) + match cluster_at(s, pos) {
            Ok(Some(cluster)) => match end_of(cluster.data, relative) {
                Err(_) => 0,
                Ok(at) => indexed_block_reads(s, at, tracks),
            },
            _ => 0,
        },
        None => if visited.contains(cue.cluster_position) {
            0
        } else {
            cluster_header_reads(s, pos) + match cluster_at(s, pos) {
                Ok(Some(cluster)) => if cluster.size == u64::MAX {
                    0
                } else {
                    cluster_reads(s, cluster.data, cluster.size, cluster.data, tracks, false)
                },
                _ => 0,
            }
        },
    }
}

/// The clusters whose headers are known after index entries have been followed.
pub open spec fn cues_known(s: Seq<u8>, cues: Seq<PgsCuePoint>) -> Set<u64>
    decreases cues.len(),
{
    if cues.len() == 0 {
        Set::empty()
    } else {
        cue_known(s, cues.last(), cues_known(s, cues.drop_last()))
    }
}

/// The number of bytes that following index entries reads, up to the first that
/// fails.
pub open spec fn cues_reads(s: Seq<u8>, cues: Seq<PgsCuePoint>, tracks: Seq<u64>) -> int
    decreases cues.len(),
{
    if cues.len() == 0 {
        0
    } else {
        let init = cues.drop_last();
        cues_reads(s, init, tracks) + match cues_blocks(s, init, tracks) {
            Err(_) => 0,
            Ok((_, visited)) => cue_reads(s, cues.last(), tracks, visited, cues_known(s, init)),
        }
    }
}

/// The blocks that the index entries lead to, one after the other, and the
/// clusters that have been read whole after that.
pub open spec fn cues_blocks(s: Seq<u8>, cues: Seq<PgsCuePoint>, tracks: Seq<u64>) -> Result<
    (Seq<BlockView>, Set<u64>),
    ErrorView,
>
    decreases cues.len(),
{
    if cues.len() == 0 {
        Ok((Seq::empty(), Set::empty()))
    } else {
        match cues_blocks(s, cues.drop_last(), tracks) {
            Err(e) => Err(e),
            Ok((blocks, visited)) => match cue_blocks(s, cues.last(), tracks, visited) {
                Err(e) => Err(e),
                Ok((more, seen)) => Ok((blocks + more, seen)),
            },
        }
    }
}

/// Whether remembered cluster data positions are right.
pub open spec fn cache_valid(s: Seq<u8>, cache: Map<u64, u64>) -> bool {
    forall|k: u64| #[trigger]
        cache.contains_key(k) ==> (cluster_at(s, k as int) matches Ok(Some(e)) && e.data
            == cache[k])
}

/// Reads the header of the cluster at a position. Returns the start and the
/// size of its data, or `None` if another element is there.
fn read_cluster_header<R: Source>(reader: &mut SeekBufReader<R>, position: u64) -> (r: Result<
    Option<(u64, u64)>,
    PgsError,
>)
    ensures
        final(reader).bytes() == old(reader).bytes(),
        final(reader).consumed() == counted(
            old(reader).consumed(),
            cluster_header_reads(old(reader).bytes(), position as int),
        ),
        cluster_header_reads(old(reader).bytes(), position as int) >= 0,
        match (r, cluster_at(old(reader).bytes(), position as int)) {
            (Ok(Some((data, size))), Ok(Some(e))) => data == e.data && size == e.size,
            (Ok(None), Ok(None)) => true,
            (Err(e), Err(v)) => e@ == v,
            _ => false,
        },
{
    let _ = reader.seek_to(position);
    let id = match read_element_id(reader) {
        Ok(id) => id,
        Err(e) => {
            return Err(e);
        },
    };
    if id.value != ids::CLUSTER {
        return Ok(None);
    }
    match read_element_size(reader) {
        Ok(size) => Ok(Some((reader.position(), size.value))),
        Err(e) => Err(e),
    }
}

/// Reads the blocks that an index entry leads to.
///
/// `cluster_header_cache` remembers where the data of clusters starts, and
/// `visited_clusters` which clusters have been read whole.
pub fn extract_blocks_for_cue_point<R: Source>(
    reader: &mut SeekBufReader<R>,
    cp: &PgsCuePoint,
    pgs_track_numbers: &[u64],
    cluster_header_cache: &mut HashMap<u64, u64>,
    visited_clusters: &mut HashSet<u64>,
) -> (r: Result<Vec<PgsBlock>, PgsError>)
    requires
        cache_valid(old(reader).bytes(), old(cluster_header_cache)@),
    ensures
        final(reader).bytes() == old(reader).bytes(),
        cache_valid(old(reader).bytes(), final(cluster_header_cache)@),
        final(cluster_header_cache)@.dom() == cue_known(
            old(reader).bytes(),
            *cp,
            old(cluster_header_cache)@.dom(),
        ),
        ({
            let reads = cue_reads(
                old(reader).bytes(),
                *cp,
                pgs_track_numbers@,
                old(visited_clusters)@,
                old(cluster_header_cache)@.dom(),
            );
            &&& final(reader).consumed() == counted(old(reader).consumed(), reads)
            &&& reads >= 0
        }),
        match (
            r,
            cue_blocks(old(reader).bytes(), *cp, pgs_track_numbers@, old(visited_clusters)@),
        ) {
            (Ok(blocks), Ok((v, seen))) => block_views(blocks@) == v && final(visited_clusters)@
                == seen,
            (Err(e), Err(v)) => e@ == v,
            _ => false,
        },
{
    broadcast use vstd::std_specs::hash::group_hash_axioms;

    let ghost s = reader.bytes();
    let mut blocks: Vec<PgsBlock> = Vec::new();
    assert(block_views(blocks@) =~= Seq::<BlockView>::empty());
    if let Some(relative) = cp.relative_position {
        let cached: Option<u64> = match cluster_header_cache.get(&cp.cluster_position) {
            Some(start) => Some(*start),
            None => None,
        };
        let data_start: u64 = match cached {
            Some(start) => start,
            None => match read_cluster_header(reader, cp.cluster_position) {
                Ok(Some((start, _))) => {
                    cluster_header_cache.insert(cp.cluster_position, start);
                    start
                },
                Ok(None) => {
                    return Ok(blocks);
                },
                Err(e) => {
                    return Err(e);
                },
            },
        };
        let at = match element_end(data_start, relative) {
            Ok(at) => at,
            Err(e) => {
                return Err(e);
            },
        };
        match read_block_at_position(reader, at, cp.time, pgs_track_numbers) {
            Ok(Some(b)) => {
                blocks.push(b);
                assert(block_views(blocks@) =~= seq![b@]);
                Ok(blocks)
            },
            Ok(None) => Ok(blocks),
            Err(e) => Err(e),
        }
    } else {
        if !visited_clusters.insert(cp.cluster_position) {
            assert(visited_clusters@ =~= old(visited_clusters)@);
            return Ok(blocks);
        }
        match read_cluster_header(reader, cp.cluster_position) {
            Ok(Some((start, size))) => {
                if size == u64::MAX {
                    return Ok(blocks);
                }
                scan_cluster_for_pgs(reader, start, size, pgs_track_numbers)
            },
            Ok(None) => Ok(blocks),
            Err(e) => Err(e),
        }
    }
}

/// Reads the blocks that index entries lead to, one after the other.
pub fn extract_blocks_for_cues<R: Source>(
    reader: &mut SeekBufReader<R>,
    cue_points: &[PgsCuePoint],
    pgs_track_numbers: &[u64],
) -> (r: Result<Vec<PgsBlock>, PgsError>)
    ensures
        final(reader).bytes() == old(reader).bytes(),
        final(reader).consumed() == counted(
            old(reader).consumed(),
            cues_reads(old(reader).bytes(), cue_points@, pgs_track_numbers@),
        ),
        match (r, cues_blocks(old(reader).bytes(), cue_points@, pgs_track_numbers@)) {
            (Ok(blocks), Ok((v, _))) => block_views(blocks@) == v,
            (Err(e), Err(v)) => e@ == v,
            _ => false,
        },
{
    let ghost s = reader.bytes();
    let ghost tracks = pgs_track_numbers@;
    let mut blocks: Vec<PgsBlock> = Vec::new();
    let mut visited: HashSet<u64> = HashSet::new();
    let mut cache: HashMap<u64, u64> = HashMap::new();
    let mut i: usize = 0;
    assert(block_views(blocks@) =~= Seq::<BlockView>::empty());
    assert(visited@ =~= Set::<u64>::empty());
    assert(cache@.dom() =~= Set::<u64>::empty());
    while i < cue_points.len()
        invariant
            i <= cue_points@.len(),
            reader.bytes() == s,
            ({
                let done = cues_reads(s, cue_points@.take(i as int), tracks);
                &&& reader.consumed() == counted(old(reader).consumed(), done)
                &&& done >= 0
            }),
            s == old(reader).bytes(),
            tracks == pgs_track_numbers@,
            cache_valid(s, cache@),
            cache@.dom() == cues_known(s, cue_points@.take(i as int)),
            cues_blocks(s, cue_points@.take(i as int), tracks) == Ok::<
                (Seq<BlockView>, Set<u64>),
                ErrorView,
            >((block_views(blocks@), visited@)),
        decreases cue_points@.len() - i,
    {
        let ghost some = cue_points@.take(i + 1);
        assert(some.drop_last() =~= cue_points@.take(i as int));
        match extract_blocks_for_cue_point(
            reader,
            &cue_points[i],
            pgs_track_numbers,
            &mut cache,
            &mut visited,
        ) {
            Ok(more) => {
                let mut more = more;
                let ghost before = block_views(blocks@);
                let ghost added = block_views(more@);
                blocks.append(&mut more);
                assert(block_views(blocks@) =~= before + added);
            },
            Err(e) => {
                proof {
                    lemma_error_stays(s, cue_points@, tracks, i + 1);
                }
                return Err(e);
            },
        }
        i += 1;
    }
    assert(cue_points@.take(i as int) =~= cue_points@);
    Ok(blocks)
}

proof fn lemma_error_stays(s: Seq<u8>, cues: Seq<PgsCuePoint>, tracks: Seq<u64>, n: int)
    requires
        0 <= n <= cues.len(),
        cues_blocks(s, cues.take(n), tracks) is Err,
    ensures
        cues_blocks(s, cues, tracks) == cues_blocks(s, cues.take(n), tracks),
        cues_reads(s, cues, tracks) == cues_reads(s, cues.take(n), tracks),
    decreases cues.len(),
{
    if n == cues.len() {
        assert(cues.take(n) =~= cues);
    } else {
        assert(cues.drop_last().take(n) =~= cues.take(n));
        lemma_error_stays(s, cues.drop_last(), tracks, n);
    }
}

/// The number of entries at the start of `cues` that are for one cluster.
pub open spec fn leading_group(cues: Seq<PgsCuePoint>, cluster: u64) -> nat
    decreases cues.len(),
{
    if cues.len() > 0 && cues[0].cluster_position == cluster {
        1 + leading_group(cues.skip(1), cluster)
    } else {
        0
    }
}

/// The chunks that remaining entries come to behind a chunk that has been
/// started. Consecutive entries for one cluster stay together. A chunk is
/// closed when it has `target` entries, unless it is the last one allowed.
pub open spec fn chunks_from(
    cues: Seq<PgsCuePoint>,
    current: Seq<PgsCuePoint>,
    closed: nat,
    target: nat,
    workers: nat,
) -> Seq<Seq<PgsCuePoint>>
    decreases cues.len(),
    via chunks_from_decreases
{
    if cues.len() == 0 {
        if current.len() == 0 {
            Seq::empty()
        } else {
            seq![current]
        }
    } else {
        let n = leading_group(cues, cues[0].cluster_position) as int;
        let more = current + cues.take(n);
        if more.len() >= target && closed + 1 < workers {
            seq![more] + chunks_from(cues.skip(n), Seq::empty(), closed + 1, target, workers)
        } else {
            chunks_from(cues.skip(n), more, closed, target, workers)
        }
    }
}

#[via_fn]
proof fn chunks_from_decreases(
    cues: Seq<PgsCuePoint>,
    current: Seq<PgsCuePoint>,
    closed: nat,
    target: nat,
    workers: nat,
) {
    if cues.len() > 0 {
        lemma_leading_group(cues, cues[0].cluster_position);
    }
}

pub(crate) proof fn lemma_leading_group(cues: Seq<PgsCuePoint>, cluster: u64)
    ensures
        leading_group(cues, cluster) <= cues.len(),
        cues.len() > 0 && cues[0].cluster_position == cluster ==> leading_group(cues, cluster) > 0,
        forall|i: int|
            0 <= i < leading_group(cues, cluster) ==> (#[trigger] cues[i]).cluster_position
                == cluster,
        leading_group(cues, cluster) < cues.len() ==> cues[leading_group(
            cues,
            cluster,
        ) as int].cluster_position != cluster,
    decreases cues.len(),
{
    if cues.len() > 0 && cues[0].cluster_position == cluster {
        lemma_leading_group(cues.skip(1), cluster);
        assert forall|i: int| 0 <= i < leading_group(cues, cluster) implies (
        #[trigger] cues[i]).cluster_position == cluster by {
            if i > 0 {
                assert(cues[i] == cues.skip(1)[i - 1]);
            }
        }
    }
}

/// The number of entries per worker, rounded up.
pub open spec fn per_worker(n: nat, workers: nat) -> nat {
    ((n + workers - 1) / workers as int) as nat
}

proof fn lemma_per_worker(n: int, w: int)
    requires
        n >= 0,
        w > 0,
    ensures
        (n + w - 1) / w == n / w + if n % w > 0 {
            1int
        } else {
            0
        },
        n % w > 0 ==> n / w < n,
{
    let q = n / w;
    let r = n % w;
    vstd::arithmetic::div_mod::lemma_fundamental_div_mod(n, w);
    assert(0 <= r < w && n == w * q + r && q >= 0) by (nonlinear_arith)
        requires
            n >= 0,
            w > 0,
            q == n / w,
            r == n % w,
            n == w * (n / w) + n % w,
    ;
    if r > 0 {
        assert(n + w - 1 == (q + 1) * w + (r - 1)) by (nonlinear_arith)
            requires
                n == w * q + r,
        ;
        vstd::arithmetic::div_mod::lemma_fundamental_div_mod_converse(n + w - 1, w, q + 1, r - 1);
        assert(q < n) by (nonlinear_arith)
            requires
                n == w * q + r,
                r > 0,
                w > 0,
                q >= 0,
        ;
    } else {
        assert(n + w - 1 == q * w + (w - 1)) by (nonlinear_arith)
            requires
                n == w * q + r,
                r == 0,
        ;
        vstd::arithmetic::div_mod::lemma_fundamental_div_mod_converse(n + w - 1, w, q, w - 1);
    }
}

/// Entries, shared out among workers.
pub open spec fn partitioned(cues: Seq<PgsCuePoint>, workers: nat) -> Seq<Seq<PgsCuePoint>> {
    chunks_from(cues, Seq::empty(), 0, per_worker(cues.len(), workers), workers)
}

/// The views of chunks.
pub open spec fn chunk_views(chunks: Seq<Vec<PgsCuePoint>>) -> Seq<Seq<PgsCuePoint>> {
    Seq::new(chunks.len(), |i: int| chunks[i]@)
}

/// Shares index entries out among workers. Consecutive entries for one cluster
/// stay together.
pub fn partition_by_cluster(sorted_cues: &[PgsCuePoint], num_workers: usize) -> (r: Vec<
    Vec<PgsCuePoint>,
>)
    requires
        num_workers > 0,
    ensures
        chunk_views(r@) == partitioned(sorted_cues@, num_workers as nat),
{
    let total: usize = sorted_cues.len();
    proof {
        lemma_per_worker(total as int, num_workers as int);
    }
    let target: usize = total / num_workers + if total % num_workers > 0 { 1 } else { 0 };
    let ghost goal = partitioned(sorted_cues@, num_workers as nat);
    let mut chunks: Vec<Vec<PgsCuePoint>> = Vec::new();
    let mut current: Vec<PgsCuePoint> = Vec::new();
    let mut i: usize = 0;
    assert(sorted_cues@.skip(0) =~= sorted_cues@);
    assert(chunk_views(chunks@) + goal =~= goal);
    while i < total
        invariant
            i <= total == sorted_cues@.len(),
            chunks@.len() < num_workers,
            goal == chunk_views(chunks@) + chunks_from(
                sorted_cues@.skip(i as int),
                current@,
                chunks@.len(),
                target as nat,
                num_workers as nat,
            ),
        decreases total - i,
    {
        let ghost rest = sorted_cues@.skip(i as int);
        let ghost before = current@;
        let cluster: u64 = sorted_cues[i].cluster_position;
        let start: usize = i;
        proof {
            lemma_leading_group(rest, cluster);
        }
        while i < total && sorted_cues[i].cluster_position == cluster
            invariant
                start <= i <= total == sorted_cues@.len(),
                rest == sorted_cues@.skip(start as int),
                i - start <= leading_group(rest, cluster),
                leading_group(rest, cluster) <= rest.len(),
                leading_group(rest, cluster) < rest.len() ==> rest[leading_group(
                    rest,
                    cluster,
                ) as int].cluster_position != cluster,
                forall|k: int|
                    0 <= k < leading_group(rest, cluster) ==> (#[trigger] rest[k]).cluster_position
                        == cluster,
                current@ == before + rest.take(i - start),
            decreases total - i,
        {
            proof {
                if i - start == leading_group(rest, cluster) {
                    assert(rest[i - start] == sorted_cues@[i as int]);
                }
            }
            current.push(sorted_cues[i]);
            i += 1;
            assert(current@ =~= before + rest.take(i - start));
        }
        proof {
            if i - start < leading_group(rest, cluster) {
                assert(rest[i - start] == sorted_cues@[i as int]);
            }
        }
        assert(rest.skip(i - start) =~= sorted_cues@.skip(i as int));
        if current.len() >= target && chunks.len() + 1 < num_workers {
            let ghost done = chunk_views(chunks@);
            let ghost full = current@;
            let ghost tail = chunks_from(
                sorted_cues@.skip(i as int),
                Seq::empty(),
                chunks@.len() + 1,
                target as nat,
                num_workers as nat,
            );
            chunks.push(current);
            current = Vec::new();
            proof {
                assert(chunk_views(chunks@) =~= done.push(full));
                assert(done + (seq![full] + tail) =~= chunk_views(chunks@) + tail);
                assert(current@ =~= Seq::<PgsCuePoint>::empty());
            }
        }
    }
    if current.len() > 0 {
        let ghost done = chunk_views(chunks@);
        let ghost last = current@;
        chunks.push(current);
        assert(chunk_views(chunks@) =~= done.push(last));
        assert(goal =~= chunk_views(chunks@));
    } else {
        assert(goal =~= chunk_views(chunks@));
    }
    chunks
}

/// Chunks, joined.
pub open spec fn joined_chunks(chunks: Seq<Seq<PgsCuePoint>>) -> Seq<PgsCuePoint>
    decreases chunks.len(),
{
    if chunks.len() == 0 {
        Seq::empty()
    } else {
        chunks[0] + joined_chunks(chunks.skip(1))
    }
}

proof fn lemma_chunks(
    cues: Seq<PgsCuePoint>,
    current: Seq<PgsCuePoint>,
    closed: nat,
    target: nat,
    workers: nat,
)
    requires
        target > 0,
        closed < workers,
        current.len() > 0 && cues.len() > 0 ==> current.last().cluster_position
            != cues[0].cluster_position,
    ensures
        ({
            let chunks = chunks_from(cues, current, closed, target, workers);
            &&& joined_chunks(chunks) == current + cues
            &&& chunks.len() + closed <= workers
            &&& forall|i: int| 0 <= i < chunks.len() ==> (#[trigger] chunks[i]).len() > 0
            &&& forall|i: int|
                0 <= i < chunks.len() - 1 ==> (#[trigger] chunks[i]).last().cluster_position
                    != chunks[i + 1][0].cluster_position
            &&& chunks.len() > 0 ==> chunks[0].len() > 0 && chunks[0][0] == (current + cues)[0]
        }),
    decreases cues.len(),
{
    let chunks = chunks_from(cues, current, closed, target, workers);
    if cues.len() == 0 {
        if current.len() == 0 {
            assert(joined_chunks(chunks) =~= current + cues);
        } else {
            assert(chunks.skip(1) =~= Seq::<Seq<PgsCuePoint>>::empty());
            assert(joined_chunks(chunks.skip(1)) =~= Seq::<PgsCuePoint>::empty());
            assert(joined_chunks(chunks) =~= current + cues);
        }
    } else {
        let cluster = cues[0].cluster_position;
        lemma_leading_group(cues, cluster);
        let n = leading_group(cues, cluster) as int;
        let more = current + cues.take(n);
        let rest = cues.skip(n);
        assert(more.last() == cues[n - 1]);
        assert(more + rest =~= current + cues);
        if more.len() >= target && closed + 1 < workers {
            let tail = chunks_from(rest, Seq::empty(), closed + 1, target, workers);
            lemma_chunks(rest, Seq::empty(), closed + 1, target, workers);
            assert(chunks.skip(1) =~= tail);
            assert(Seq::<PgsCuePoint>::empty() + rest =~= rest);
            assert forall|i: int| 0 <= i < chunks.len() implies (#[trigger] chunks[i]).len() > 0 by {
                if i > 0 {
                    assert(chunks[i] == tail[i - 1]);
                }
            }
            assert forall|i: int| 0 <= i < chunks.len() - 1 implies (
            #[trigger] chunks[i]).last().cluster_position != chunks[i + 1][0].cluster_position by {
                assert(chunks[i + 1] == tail[i]);
                if i > 0 {
                    assert(chunks[i] == tail[i - 1]);
                } else {
                    assert(tail[0][0] == rest[0]);
                }
            }
        } else {
            lemma_chunks(rest, more, closed, target, workers);
        }
    }
}

/// Sharing entries out loses none and keeps their order: the chunks, joined,
/// are the entries. There are at most as many chunks as workers, none is empty,
/// and no cluster is split between neighbouring chunks.
pub proof fn partition_keeps_clusters_together(cues: Seq<PgsCuePoint>, workers: nat)
    requires
        workers > 0,
    ensures
        joined_chunks(partitioned(cues, workers)) == cues,
        partitioned(cues, workers).len() <= workers,
        forall|i: int|
            0 <= i < partitioned(cues, workers).len() ==> (#[trigger] partitioned(
                cues,
                workers,
            )[i]).len() > 0,
        forall|i: int|
            0 <= i < partitioned(cues, workers).len() - 1 ==> (#[trigger] partitioned(
                cues,
                workers,
            )[i]).last().cluster_position != partitioned(cues, workers)[i + 1][0].cluster_position,
{
    if cues.len() == 0 {
        assert(joined_chunks(partitioned(cues, workers)) =~= cues);
    } else {
        let target = per_worker(cues.len(), workers);
        assert(target > 0) by (nonlinear_arith)
            requires
                target == (cues.len() + workers - 1) / (workers as int),
                cues.len() > 0,
                workers > 0,
        ;
        lemma_chunks(cues, Seq::empty(), 0, target, workers);
        assert(Seq::<PgsCuePoint>::empty() + cues =~= cues);
    }
}

/// Whether entries are in the order of their clusters.
pub open spec fn clusters_ascend(cues: Seq<PgsCuePoint>) -> bool {
    forall|i: int, j: int|
        0 <= i < j < cues.len() ==> (#[trigger] cues[i]).cluster_position <= (
        #[trigger] cues[j]).cluster_position
}

/// The blocks that the entries of several parts lead to, each part on its own.
pub open spec fn parts_blocks(s: Seq<u8>, parts: Seq<Seq<PgsCuePoint>>, tracks: Seq<u64>) -> Result<
    Seq<BlockView>,
    ErrorView,
>
    decreases parts.len(),
{
    if parts.len() == 0 {
        Ok(Seq::empty())
    } else {
        match cues_blocks(s, parts[0], tracks) {
            Err(e) => Err(e),
            Ok((blocks, _)) => match parts_blocks(s, parts.skip(1), tracks) {
                Err(e) => Err(e),
                Ok(more) => Ok(blocks + more),
            },
        }
    }
}

/// Only clusters of the entries are read whole.
proof fn lemma_visited(s: Seq<u8>, cues: Seq<PgsCuePoint>, tracks: Seq<u64>, cluster: u64)
    requires
        cues_blocks(s, cues, tracks) matches Ok((_, visited)) && visited.contains(cluster),
    ensures
        exists|i: int| 0 <= i < cues.len() && (#[trigger] cues[i]).cluster_position == cluster,
    decreases cues.len(),
{
    if cues.len() > 0 {
        let before = cues_blocks(s, cues.drop_last(), tracks)->Ok_0.1;
        if before.contains(cluster) {
            lemma_visited(s, cues.drop_last(), tracks, cluster);
            let i = choose|i: int|
                0 <= i < cues.drop_last().len() && (
                #[trigger] cues.drop_last()[i]).cluster_position == cluster;
            assert(cues[i].cluster_position == cluster);
        } else {
            assert(cues[cues.len() - 1].cluster_position == cluster);
        }
    }
}

/// Clusters other than an entry's make no difference to it.
proof fn lemma_independent(
    s: Seq<u8>,
    c: PgsCuePoint,
    tracks: Seq<u64>,
    visited: Set<u64>,
    seen: Set<u64>,
)
    requires
        !visited.contains(c.cluster_position),
    ensures
        match (cue_blocks(s, c, tracks, visited.union(seen)), cue_blocks(s, c, tracks, seen)) {
            (Ok((a, v)), Ok((b, w))) => a == b && v == visited.union(w),
            (Err(e), Err(f)) => e == f,
            _ => false,
        },
{
    assert(visited.union(seen).insert(c.cluster_position) =~= visited.union(
        seen.insert(c.cluster_position),
    ));
}

/// Whether no cluster has entries in both.
#[verifier::opaque]
spec fn apart(a: Seq<PgsCuePoint>, b: Seq<PgsCuePoint>) -> bool {
    forall|i: int, j: int|
        0 <= i < a.len() && 0 <= j < b.len() ==> (#[trigger] a[i]).cluster_position != (
        #[trigger] b[j]).cluster_position
}

proof fn lemma_apart(s: Seq<u8>, a: Seq<PgsCuePoint>, b: Seq<PgsCuePoint>, tracks: Seq<u64>)
    requires
        cues_blocks(s, a, tracks) is Ok,
        apart(a, b),
        b.len() > 0,
    ensures
        apart(a, b.drop_last()),
        !cues_blocks(s, a, tracks)->Ok_0.1.contains(b.last().cluster_position),
{
    reveal(apart);
    assert forall|i: int, j: int| 0 <= i < a.len() && 0 <= j < b.drop_last().len() implies (
    #[trigger] a[i]).cluster_position != (#[trigger] b.drop_last()[j]).cluster_position by {
        assert(b.drop_last()[j] == b[j]);
    }
    let cluster = b.last().cluster_position;
    if cues_blocks(s, a, tracks)->Ok_0.1.contains(cluster) {
        lemma_visited(s, a, tracks, cluster);
        let i = choose|i: int|
            0 <= i < a.len() && (#[trigger] a[i]).cluster_position == cluster;
        assert(a[i].cluster_position != b[b.len() - 1].cluster_position);
    }
}

/// What one more entry adds to the blocks and to the clusters read whole.
spec fn joined_with(
    before: Result<(Seq<BlockView>, Set<u64>), ErrorView>,
    one: Result<(Seq<BlockView>, Set<u64>), ErrorView>,
) -> Result<(Seq<BlockView>, Set<u64>), ErrorView> {
    match (before, one) {
        (Err(e), _) => Err(e),
        (_, Err(e)) => Err(e),
        (Ok((blocks, _)), Ok((more, seen))) => Ok((blocks + more, seen)),
    }
}

proof fn lemma_one_more(s: Seq<u8>, cues: Seq<PgsCuePoint>, tracks: Seq<u64>)
    requires
        cues.len() > 0,
    ensures
        cues_blocks(s, cues.drop_last(), tracks) matches Err(e) ==> cues_blocks(s, cues, tracks)
            == Err::<(Seq<BlockView>, Set<u64>), ErrorView>(e),
        cues_blocks(s, cues.drop_last(), tracks) matches Ok((_, visited)) ==> cues_blocks(
            s,
            cues,
            tracks,
        ) == joined_with(
            cues_blocks(s, cues.drop_last(), tracks),
            cue_blocks(s, cues.last(), tracks, visited),
        ),
{
}

/// What entries lead to behind others that have led to `first`.
spec fn led_behind(
    first: (Seq<BlockView>, Set<u64>),
    second: Result<(Seq<BlockView>, Set<u64>), ErrorView>,
) -> Result<(Seq<BlockView>, Set<u64>), ErrorView> {
    match second {
        Ok((more, seen)) => Ok((first.0 + more, first.1.union(seen))),
        Err(e) => Err(e),
    }
}

/// Adding an entry to the second of two parts is adding it to both.
proof fn lemma_behind_step(
    first: (Seq<BlockView>, Set<u64>),
    second: (Seq<BlockView>, Set<u64>),
    one: Result<(Seq<BlockView>, Set<u64>), ErrorView>,
    alone: Result<(Seq<BlockView>, Set<u64>), ErrorView>,
)
    requires
        match (one, alone) {
            (Ok((a, v)), Ok((b, w))) => a == b && v == first.1.union(w),
            (Err(e), Err(f)) => e == f,
            _ => false,
        },
    ensures
        joined_with(led_behind(first, Ok(second)), one) == led_behind(
            first,
            joined_with(Ok(second), alone),
        ),
{
    if let Ok((last, _)) = alone {
        assert((first.0 + second.0) + last =~= first.0 + (second.0 + last));
    }
}

/// Entries behind others, for other clusters, lead to the same blocks as on
/// their own.
proof fn lemma_split(s: Seq<u8>, a: Seq<PgsCuePoint>, b: Seq<PgsCuePoint>, tracks: Seq<u64>)
    requires
        cues_blocks(s, a, tracks) is Ok,
        apart(a, b),
    ensures
        cues_blocks(s, a + b, tracks) == led_behind(
            cues_blocks(s, a, tracks)->Ok_0,
            cues_blocks(s, b, tracks),
        ),
    decreases b.len(),
{
    let first = cues_blocks(s, a, tracks)->Ok_0;
    let all = a + b;
    if b.len() == 0 {
        assert(all =~= a);
        assert(first.0 + Seq::<BlockView>::empty() =~= first.0);
        assert(first.1.union(Set::empty()) =~= first.1);
    } else {
        let c = b.last();
        lemma_apart(s, a, b, tracks);
        lemma_split(s, a, b.drop_last(), tracks);
        assert(all.drop_last() =~= a + b.drop_last());
        assert(all.last() == c);
        lemma_one_more(s, all, tracks);
        lemma_one_more(s, b, tracks);
        if let Ok(second) = cues_blocks(s, b.drop_last(), tracks) {
            lemma_independent(s, c, tracks, first.1, second.1);
            lemma_behind_step(
                first,
                second,
                cue_blocks(s, c, tracks, first.1.union(second.1)),
                cue_blocks(s, c, tracks, second.1),
            );
        }
    }
}

#[verifier::rlimit(60)]
proof fn lemma_parts(s: Seq<u8>, parts: Seq<Seq<PgsCuePoint>>, tracks: Seq<u64>)
    requires
        clusters_ascend(joined_chunks(parts)),
        forall|i: int| 0 <= i < parts.len() ==> (#[trigger] parts[i]).len() > 0,
        forall|i: int|
            0 <= i < parts.len() - 1 ==> (#[trigger] parts[i]).last().cluster_position != parts[i
                + 1][0].cluster_position,
    ensures
        match (cues_blocks(s, joined_chunks(parts), tracks), parts_blocks(s, parts, tracks)) {
            (Ok((blocks, _)), Ok(v)) => blocks == v,
            (Err(e), Err(f)) => e == f,
            _ => false,
        },
    decreases parts.len(),
{
    if parts.len() > 0 {
        let first = parts[0];
        let later = parts.skip(1);
        let rest = joined_chunks(later);
        let all = joined_chunks(parts);
        assert forall|i: int, j: int| 0 <= i < j < rest.len() implies (
        #[trigger] rest[i]).cluster_position <= (#[trigger] rest[j]).cluster_position by {
            assert(rest[i] == all[first.len() + i]);
            assert(rest[j] == all[first.len() + j]);
        }
        assert forall|i: int| 0 <= i < later.len() implies (#[trigger] later[i]).len() > 0 by {
            assert(later[i] == parts[i + 1]);
        }
        assert forall|i: int| 0 <= i < later.len() - 1 implies (
        #[trigger] later[i]).last().cluster_position != later[i + 1][0].cluster_position by {
            assert(later[i] == parts[i + 1]);
            assert(later[i + 1] == parts[i + 2]);
        }
        lemma_parts(s, later, tracks);
        assert forall|i: int, j: int| 0 <= i < first.len() && 0 <= j < rest.len() implies (
        #[trigger] first[i]).cluster_position != (#[trigger] rest[j]).cluster_position by {
            assert(first[i] == all[i]);
            assert(rest[j] == all[first.len() + j]);
            let end = first.len() - 1;
            assert(first.last() == all[end]);
            assert(later.len() > 0 && later[0] == parts[1]);
            assert(rest[0] == later[0][0]);
            assert(rest[0] == all[first.len() as int]);
            assert(all[end].cluster_position <= all[first.len() as int].cluster_position);
            assert(parts[0].last().cluster_position != parts[1][0].cluster_position);
        }
        match cues_blocks(s, first, tracks) {
            Ok(_) => {
                reveal(apart);
                lemma_split(s, first, rest, tracks);
            },
            Err(_) => {
                assert(all.take(first.len() as int) =~= first);
                lemma_error_stays(s, all, tracks, first.len() as int);
            },
        }
    }
}

/// Reading the parts of an index separately gives the blocks that reading it as
/// a whole gives, and fails if and as that does.
pub proof fn parts_make_up_the_whole(
    s: Seq<u8>,
    cues: Seq<PgsCuePoint>,
    workers: nat,
    tracks: Seq<u64>,
)
    requires
        workers > 0,
        clusters_ascend(cues),
    ensures
        match (cues_blocks(s, cues, tracks), parts_blocks(s, partitioned(cues, workers), tracks)) {
            (Ok((blocks, _)), Ok(v)) => blocks == v,
            (Err(e), Err(f)) => e == f,
            _ => false,
        },
{
    partition_keeps_clusters_together(cues, workers);
    lemma_parts(s, partitioned(cues, workers), tracks);
}

} // verus!
