//! Sparse probing for the regions of a transport stream that hold PGS data.
use vstd::prelude::*;
use crate::error::{ErrorView, IoError, PgsError};
use crate::io::reader::{counted, SeekBufReader, Source};
use crate::lists::contains_u16;
use crate::m2ts::ts_packet::{
    find_sync_start, first_pair_is_first, pid_from, pid_of, sync_start, PacketFormat, SYNC_BYTE,
};

verus! {

/// What probing a file has found.
pub struct ProbeResult {
    /// The regions with PGS data: their start and end positions.
    pub active_regions: Vec<(u64, u64)>,
}

/// How a file is probed.
#[derive(Clone, Copy)]
pub struct ProbeParams {
    /// The size of a chunk.
    pub chunk_size: u64,
    /// The number of probes in a chunk.
    pub num_probes: u64,
    /// The size of a probe.
    pub sub_probe_bytes: u64,
}

/// How a file of a given size is probed: the larger the file, the sparser the
/// PGS data and the larger the probes.
pub open spec fn params_for(file_size: u64) -> ProbeParams {
    if file_size > 5_000_000_000 {
        ProbeParams { chunk_size: 16777216, num_probes: 2, sub_probe_bytes: 2097152 }
    } else {
        ProbeParams { chunk_size: 2097152, num_probes: 4, sub_probe_bytes: 65536 }
    }
}

fn probe_params(file_size: u64) -> (r: ProbeParams)
    ensures
        r == params_for(file_size),
{
    if file_size > 5_000_000_000 {
        ProbeParams { chunk_size: 16777216, num_probes: 2, sub_probe_bytes: 2097152 }
    } else {
        ProbeParams { chunk_size: 2097152, num_probes: 4, sub_probe_bytes: 65536 }
    }
}

/// Whether a buffer holds a packet of one of the identifiers, from the packet
/// at `offset` on. Where the sync is lost, packets are looked for again.
pub open spec fn holds_from(
    data: Seq<u8>,
    offset: int,
    format: PacketFormat,
    pids: Seq<u16>,
) -> bool
    decreases
            (if offset < data.len() {
                data.len() - offset
            } else {
                0
            }),
    via holds_from_decreases
{
    let at = offset + format.sync();
    if offset < 0 || at + 4 > data.len() {
        false
    } else if data[at] != SYNC_BYTE {
        match sync_start(data.skip(offset + 1), format) {
            None => false,
            Some(i) => holds_from(data, offset + 1 + i, format, pids),
        }
    } else {
        pids.contains(pid_of(data[at + 1], data[at + 2])) || holds_from(
            data,
            offset + format.size(),
            format,
            pids,
        )
    }
}

#[via_fn]
proof fn holds_from_decreases(data: Seq<u8>, offset: int, format: PacketFormat, pids: Seq<u16>) {
    if 0 <= offset < data.len() {
        lemma_sync_start(data.skip(offset + 1), format);
    }
}

proof fn lemma_sync_start(data: Seq<u8>, format: PacketFormat)
    ensures
        sync_start(data, format) matches Some(p) ==> 0 <= p < data.len(),
{
    let last = data.len() - format.sync() - format.size();
    let hi = if last < format.size() {
        last
    } else {
        format.size()
    };
    first_pair_is_first(data, 0, hi, format);
}

/// Whether a buffer holds a packet of one of the identifiers.
pub open spec fn holds_pgs(data: Seq<u8>, format: PacketFormat, pids: Seq<u16>) -> bool {
    match sync_start(data, format) {
        None => false,
        Some(i) => holds_from(data, i, format, pids),
    }
}

/// Whether a buffer holds a packet of one of the identifiers.
pub fn scan_probe_for_pgs(data: &[u8], format: PacketFormat, pgs_pids: &[u16]) -> (r: bool)
    ensures
        r == holds_pgs(data@, format, pgs_pids@),
{
    let packet_size: usize = format.packet_size();
    let sync: usize = format.sync_offset();
    let ghost goal = holds_pgs(data@, format, pgs_pids@);
    let len: usize = data.len();
    let mut offset: usize = match find_sync_start(data, format) {
        Some(i) => i,
        None => {
            return false;
        },
    };
    while offset <= len && len - offset >= sync + 4
        invariant
            len == data@.len(),
            packet_size == format.size(),
            sync == format.sync(),
            goal == holds_pgs(data@, format, pgs_pids@),
            goal == holds_from(data@, offset as int, format, pgs_pids@),
        decreases
                (if offset <= len {
                    len - offset
                } else {
                    0
                }),
    {
        let at: usize = offset + sync;
        if data[at] != SYNC_BYTE {
            let rest = vstd::slice::slice_subrange(data, offset + 1, len);
            assert(rest@ =~= data@.skip(offset + 1));
            match find_sync_start(rest, format) {
                Some(i) => {
                    offset = offset + 1 + i;
                },
                None => {
                    return false;
                },
            }
        } else {
            if contains_u16(pgs_pids, pid_from(data[at + 1], data[at + 2])) {
                return true;
            }
            if len - offset < packet_size {
                assert(!holds_from(data@, offset + packet_size, format, pgs_pids@));
                return false;
            }
            offset += packet_size;
        }
    }
    false
}

/// Whether one of the probes from `k` on finds PGS data in the chunk from
/// `start` to `end`. The probes are spread evenly over the chunk.
pub open spec fn chunk_holds_from(
    s: Seq<u8>,
    start: int,
    end: int,
    k: nat,
    params: ProbeParams,
    format: PacketFormat,
    pids: Seq<u16>,
) -> Result<bool, ErrorView>
    decreases params.num_probes - k,
{
    if k >= params.num_probes {
        Ok(false)
    } else {
        let at = start + ((end - start) * k) / params.num_probes as int;
        let n = if params.sub_probe_bytes < end - at {
            params.sub_probe_bytes as int
        } else {
            end - at
        };
        if n <= 0 {
            chunk_holds_from(s, start, end, k + 1, params, format, pids)
        } else if at + n > s.len() {
            Err(ErrorView::Io(IoError::UnexpectedEof))
        } else if holds_pgs(s.subrange(at, at + n), format, pids) {
            Ok(true)
        } else {
            chunk_holds_from(s, start, end, k + 1, params, format, pids)
        }
    }
}

/// The number of bytes that the probes from `k` on in the chunk from `start` to
/// `end` read, up to the first that finds PGS data.
pub open spec fn chunk_reads_from(
    s: Seq<u8>,
    start: int,
    end: int,
    k: nat,
    params: ProbeParams,
    format: PacketFormat,
    pids: Seq<u16>,
) -> int
    decreases params.num_probes - k,
{
    if k >= params.num_probes {
        0
    } else {
        let at = start + ((end - start) * k) / params.num_probes as int;
        let n = if params.sub_probe_bytes < end - at {
            params.sub_probe_bytes as int
        } else {
            end - at
        };
        if n <= 0 {
            chunk_reads_from(s, start, end, k + 1, params, format, pids)
        } else if at + n > s.len() {
            0
        } else if holds_pgs(s.subrange(at, at + n), format, pids) {
            n
        } else {
            n + chunk_reads_from(s, start, end, k + 1, params, format, pids)
        }
    }
}

/// The end of a chunk of a file.
pub open spec fn chunk_end(i: int, chunk_size: int, file_size: int) -> int {
    if (i + 1) * chunk_size < file_size {
        (i + 1) * chunk_size
    } else {
        file_size
    }
}

/// The number of chunks of a file.
pub open spec fn chunk_count(file_size: int, chunk_size: int) -> int {
    (file_size + chunk_size - 1) / chunk_size
}

/// The first `n` chunks of a file in which probes find PGS data.
pub open spec fn active_among(
    s: Seq<u8>,
    n: nat,
    file_size: int,
    params: ProbeParams,
    format: PacketFormat,
    pids: Seq<u16>,
) -> Result<Seq<u64>, ErrorView>
    decreases n,
{
    if n == 0 {
        Ok(Seq::empty())
    } else {
        let i = n - 1;
        match active_among(s, i as nat, file_size, params, format, pids) {
            Err(e) => Err(e),
            Ok(before) => match chunk_holds_from(
                s,
                i * params.chunk_size,
                chunk_end(i, params.chunk_size as int, file_size),
                0,
                params,
                format,
                pids,
            ) {
                Err(e) => Err(e),
                Ok(true) => Ok(before.push(i as u64)),
                Ok(false) => Ok(before),
            },
        }
    }
}

/// The number of bytes that probing the first `n` chunks of a file reads, up to
/// the first that fails.
pub open spec fn probing_reads(
    s: Seq<u8>,
    n: nat,
    file_size: int,
    params: ProbeParams,
    format: PacketFormat,
    pids: Seq<u16>,
) -> int
    decreases n,
{
    if n == 0 {
        0
    } else {
        let i = n - 1;
        probing_reads(s, i as nat, file_size, params, format, pids) + match active_among(
            s,
            i as nat,
            file_size,
            params,
            format,
            pids,
        ) {
            Err(_) => 0,
            Ok(_) => chunk_reads_from(
                s,
                i * params.chunk_size,
                chunk_end(i, params.chunk_size as int, file_size),
                0,
                params,
                format,
                pids,
            ),
        }
    }
}

/// `list`, which is ascending, with `x` in its place if it is not there yet.
pub open spec fn placed(list: Seq<u64>, x: u64) -> Seq<u64>
    decreases list.len(),
{
    if list.len() == 0 || list.last() < x {
        list.push(x)
    } else if list.last() == x {
        list
    } else {
        placed(list.drop_last(), x).push(list.last())
    }
}

/// The list with a chunk and its neighbours.
pub open spec fn with_neighbours(list: Seq<u64>, i: u64, num_chunks: u64) -> Seq<u64> {
    let below = if i > 0 {
        placed(list, (i - 1) as u64)
    } else {
        list
    };
    let here = placed(below, i);
    if i + 1 < num_chunks {
        placed(here, (i + 1) as u64)
    } else {
        here
    }
}

/// The active chunks and their neighbours, ascending and each once.
pub open spec fn expanded(active: Seq<u64>, num_chunks: u64) -> Seq<u64>
    decreases active.len(),
{
    if active.len() == 0 {
        Seq::empty()
    } else {
        with_neighbours(expanded(active.drop_last(), num_chunks), active.last(), num_chunks)
    }
}

/// The regions that chunks form, of which `(start, end)` is the one before the
/// chunk at `k`. A chunk that starts within or at the end of a region extends
/// it.
pub open spec fn regions_from(
    chunks: Seq<u64>,
    k: int,
    start: int,
    end: int,
    chunk_size: int,
    file_size: int,
) -> Seq<(u64, u64)>
    decreases chunks.len() - k,
{
    if k < 0 || k >= chunks.len() {
        seq![(start as u64, end as u64)]
    } else {
        let chunk_start = chunks[k] * chunk_size;
        let stop = chunk_end(chunks[k] as int, chunk_size, file_size);
        if chunk_start <= end {
            regions_from(chunks, k + 1, start, stop, chunk_size, file_size)
        } else {
            seq![(start as u64, end as u64)] + regions_from(
                chunks,
                k + 1,
                chunk_start,
                stop,
                chunk_size,
                file_size,
            )
        }
    }
}

/// The regions that active chunks and their neighbours form.
pub open spec fn merged(active: Seq<u64>, num_chunks: u64, file_size: int, chunk_size: int) -> Seq<
    (u64, u64),
> {
    let chunks = expanded(active, num_chunks);
    if active.len() == 0 {
        Seq::empty()
    } else {
        regions_from(
            chunks,
            1,
            chunks[0] * chunk_size,
            chunk_end(chunks[0] as int, chunk_size, file_size),
            chunk_size,
            file_size,
        )
    }
}

proof fn lemma_placed(list: Seq<u64>, x: u64)
    requires
        forall|i: int, j: int| 0 <= i < j < list.len() ==> list[i] < list[j],
    ensures
        forall|i: int, j: int|
            0 <= i < j < placed(list, x).len() ==> placed(list, x)[i] < placed(list, x)[j],
        forall|y: u64| #[trigger] placed(list, x).contains(y) <==> list.contains(y) || y == x,
        placed(list, x).len() > 0,
        list.len() > 0 && list.last() >= x ==> placed(list, x).last() == list.last(),
    decreases list.len(),
{
    let r = placed(list, x);
    if list.len() == 0 || list.last() < x {
        assert(r[r.len() - 1] == x);
        assert forall|y: u64| #[trigger] r.contains(y) <==> list.contains(y) || y == x by {
            if list.contains(y) {
                let k = choose|k: int| 0 <= k < list.len() && list[k] == y;
                assert(r[k] == y);
            }
        }
        assert forall|i: int, j: int| 0 <= i < j < r.len() implies r[i] < r[j] by {
            if j == list.len() {
                assert(list[i] <= list.last());
            }
        }
    } else if list.last() == x {
        assert(list[list.len() - 1] == x);
    } else {
        let init = list.drop_last();
        let last = list.last();
        lemma_placed(init, x);
        let q = placed(init, x);
        assert forall|y: u64| #[trigger] r.contains(y) <==> list.contains(y) || y == x by {
            if list.contains(y) {
                let k = choose|k: int| 0 <= k < list.len() && list[k] == y;
                if k < init.len() {
                    assert(init[k] == y);
                    assert(q.contains(y));
                    let m = choose|m: int| 0 <= m < q.len() && q[m] == y;
                    assert(r[m] == y);
                } else {
                    assert(r[r.len() - 1] == y);
                }
            }
            if y == x {
                assert(q.contains(x));
                let m = choose|m: int| 0 <= m < q.len() && q[m] == x;
                assert(r[m] == x);
            }
            if r.contains(y) {
                let m = choose|m: int| 0 <= m < r.len() && r[m] == y;
                if m < q.len() {
                    assert(q[m] == y);
                    assert(q.contains(y));
                    if init.contains(y) {
                        let k = choose|k: int| 0 <= k < init.len() && init[k] == y;
                        assert(list[k] == y);
                    }
                } else {
                    assert(list[list.len() - 1] == y);
                }
            }
        }
        assert forall|i: int, j: int| 0 <= i < j < r.len() implies r[i] < r[j] by {
            if j < q.len() {
                assert(q[i] < q[j]);
            } else {
                assert(r[j] == last);
                assert(r[i] == q[i]);
                assert(q.contains(q[i]));
                if q[i] != x {
                    let k = choose|k: int| 0 <= k < init.len() && init[k] == q[i];
                    assert(list[k] < list[list.len() - 1]);
                }
            }
        }
    }
}

/// Puts a chunk into an ascending list.
fn place(list: &mut Vec<u64>, x: u64)
    ensures
        final(list)@ == placed(old(list)@, x),
{
    let mut p: usize = list.len();
    let ghost all = list@;
    assert(all.take(p as int) =~= all);
    assert(all.skip(p as int) =~= Seq::<u64>::empty());
    assert(placed(all, x) + all.skip(p as int) =~= placed(all, x));
    while p > 0 && list[p - 1] > x
        invariant
            list@ == all,
            all == old(list)@,
            p <= all.len(),
            placed(all, x) == placed(all.take(p as int), x) + all.skip(p as int),
        decreases p,
    {
        proof {
            let t = all.take(p as int);
            assert(t.drop_last() =~= all.take(p - 1));
            assert(t.last() == all[p - 1]);
            assert(placed(t, x) == placed(all.take(p - 1), x).push(all[p - 1]));
            assert(placed(t, x) + all.skip(p as int) =~= placed(all.take(p - 1), x) + all.skip(
                p - 1,
            ));
        }
        p -= 1;
    }
    if p > 0 && list[p - 1] == x {
        assert(all.take(p as int) + all.skip(p as int) =~= all);
        return ;
    }
    assert(placed(all.take(p as int), x) == all.take(p as int).push(x));
    assert(all.insert(p as int, x) =~= all.take(p as int).push(x) + all.skip(p as int));
    list.insert(p, x);
}

pub(crate) proof fn lemma_expanded(active: Seq<u64>, num_chunks: u64)
    ensures
        forall|i: int, j: int|
            0 <= i < j < expanded(active, num_chunks).len() ==> expanded(active, num_chunks)[i]
                < expanded(active, num_chunks)[j],
        active.len() > 0 ==> expanded(active, num_chunks).len() > 0,
        forall|y: u64| #[trigger]
            expanded(active, num_chunks).contains(y) <==> exists|k: int|
                0 <= k < active.len() && is_near(#[trigger] active[k], y, num_chunks),
    decreases active.len(),
{
    let r = expanded(active, num_chunks);
    if active.len() > 0 {
        let init = active.drop_last();
        let x = active.last();
        lemma_expanded(init, num_chunks);
        let e = expanded(init, num_chunks);
        let below = if x > 0 {
            placed(e, (x - 1) as u64)
        } else {
            e
        };
        if x > 0 {
            lemma_placed(e, (x - 1) as u64);
        }
        let here = placed(below, x);
        lemma_placed(below, x);
        if x + 1 < num_chunks {
            lemma_placed(here, (x + 1) as u64);
        }
        assert forall|y: u64| #[trigger] r.contains(y) <==> exists|k: int|
            0 <= k < active.len() && is_near(#[trigger] active[k], y, num_chunks) by {
            if e.contains(y) {
                let k = choose|k: int|
                    0 <= k < init.len() && is_near(#[trigger] init[k], y, num_chunks);
                assert(active[k] == init[k]);
            }
            if is_near(x, y, num_chunks) {
                assert(active[active.len() - 1] == x);
            }
            if exists|k: int| 0 <= k < active.len() && is_near(#[trigger] active[k], y, num_chunks) {
                let k = choose|k: int|
                    0 <= k < active.len() && is_near(#[trigger] active[k], y, num_chunks);
                if k < init.len() {
                    assert(init[k] == active[k]);
                    assert(e.contains(y));
                }
            }
        }
    }
}

/// Whether `y` is the chunk `x` or a neighbour of it within the file.
pub open spec fn is_near(x: u64, y: u64, num_chunks: u64) -> bool {
    y == x || y + 1 == x || (y == x + 1 && y < num_chunks)
}

/// Whether the positions of chunks can be represented.
pub open spec fn chunks_fit(chunks: Seq<u64>, chunk_size: u64) -> bool {
    forall|k: int| 0 <= k < chunks.len() ==> (#[trigger] chunks[k] + 1) * chunk_size <= u64::MAX
}

/// Extends active chunks to their neighbours and merges them into regions.
pub fn merge_active_chunks(active: &[u64], num_chunks: u64, file_size: u64, chunk_size: u64) -> (r:
    Vec<(u64, u64)>)
    requires
        chunks_fit(expanded(active@, num_chunks), chunk_size),
        forall|k: int| 0 <= k < active@.len() ==> active@[k] < u64::MAX,
    ensures
        r@ == merged(active@, num_chunks, file_size as int, chunk_size as int),
{
    let mut regions: Vec<(u64, u64)> = Vec::new();
    if active.len() == 0 {
        return regions;
    }
    let mut chunks: Vec<u64> = Vec::new();
    let mut i: usize = 0;
    while i < active.len()
        invariant
            i <= active@.len(),
            forall|k: int| 0 <= k < active@.len() ==> active@[k] < u64::MAX,
            chunks@ == expanded(active@.take(i as int), num_chunks),
        decreases active@.len() - i,
    {
        let x: u64 = active[i];
        let ghost some = active@.take(i + 1);
        assert(some.drop_last() =~= active@.take(i as int));
        assert(some.last() == x);
        if x > 0 {
            place(&mut chunks, x - 1);
        }
        place(&mut chunks, x);
        if x + 1 < num_chunks {
            place(&mut chunks, x + 1);
        }
        i += 1;
    }
    assert(active@.take(i as int) =~= active@);
    proof {
        lemma_expanded(active@, num_chunks);
    }
    let ghost goal = merged(active@, num_chunks, file_size as int, chunk_size as int);
    let (mut start, mut end) = chunk_range(chunks[0], chunk_size, file_size);
    let mut k: usize = 1;
    assert(regions@ + goal =~= goal);
    while k < chunks.len()
        invariant
            1 <= k <= chunks@.len(),
            chunks_fit(chunks@, chunk_size),
            goal == regions@ + regions_from(
                chunks@,
                k as int,
                start as int,
                end as int,
                chunk_size as int,
                file_size as int,
            ),
        decreases chunks@.len() - k,
    {
        let (chunk_start, stop) = chunk_range(chunks[k], chunk_size, file_size);
        if chunk_start <= end {
            end = stop;
        } else {
            let ghost before = regions@;
            let ghost rest = regions_from(
                chunks@,
                k + 1,
                chunk_start as int,
                stop as int,
                chunk_size as int,
                file_size as int,
            );
            regions.push((start, end));
            assert(before + (seq![(start, end)] + rest) =~= regions@ + rest);
            start = chunk_start;
            end = stop;
        }
        k += 1;
    }
    regions.push((start, end));
    assert(regions@ =~= goal);
    regions
}

/// The start and the end of a chunk.
fn chunk_range(i: u64, chunk_size: u64, file_size: u64) -> (r: (u64, u64))
    requires
        (i + 1) * chunk_size <= u64::MAX,
    ensures
        r.0 == i * chunk_size,
        r.1 == chunk_end(i as int, chunk_size as int, file_size as int),
{
    assert((i + 1) * chunk_size == i * chunk_size + chunk_size) by (nonlinear_arith);
    assert(i * chunk_size >= 0) by (nonlinear_arith)
        requires
            i >= 0,
            chunk_size >= 0,
    ;
    let start: u64 = i * chunk_size;
    let stop: u64 = start + chunk_size;
    (start, if stop < file_size { stop } else { file_size })
}

/// The regions with PGS data that probing a file of a given size finds.
pub open spec fn probed_regions(
    s: Seq<u8>,
    file_size: u64,
    format: PacketFormat,
    pids: Seq<u16>,
) -> Result<Seq<(u64, u64)>, ErrorView> {
    let params = params_for(file_size);
    let n = chunk_count(file_size as int, params.chunk_size as int);
    match active_among(s, n as nat, file_size as int, params, format, pids) {
        Err(e) => Err(e),
        Ok(active) => Ok(
            merged(active, n as u64, file_size as int, params.chunk_size as int),
        ),
    }
}

/// Whether a probe finds PGS data in the chunk from `start` to `end`.
fn probe_chunk<R: Source>(
    reader: &mut SeekBufReader<R>,
    start: u64,
    end: u64,
    params: ProbeParams,
    format: PacketFormat,
    pgs_pids: &[u16],
) -> (r: Result<bool, PgsError>)
    requires
        start <= end,
        end - start <= 16777216,
        0 < params.num_probes <= 4,
        params.sub_probe_bytes <= 2097152,
    ensures
        final(reader).bytes() == old(reader).bytes(),
        ({
            let reads = chunk_reads_from(
                old(reader).bytes(),
                start as int,
                end as int,
                0,
                params,
                format,
                pgs_pids@,
            );
            &&& final(reader).consumed() == counted(old(reader).consumed(), reads)
            &&& reads >= 0
        }),
        match (
            r,
            chunk_holds_from(
                old(reader).bytes(),
                start as int,
                end as int,
                0,
                params,
                format,
                pgs_pids@,
            ),
        ) {
            (Ok(b), Ok(v)) => b == v,
            (Err(e), Err(v)) => e@ == v,
            _ => false,
        },
{
    let ghost s = reader.bytes();
    let ghost pids = pgs_pids@;
    let ghost goal = chunk_holds_from(s, start as int, end as int, 0, params, format, pids);
    let ghost reads = chunk_reads_from(s, start as int, end as int, 0, params, format, pids);
    let ghost mut done: int = 0;
    let len: u64 = end - start;
    let mut k: u64 = 0;
    while k < params.num_probes
        invariant
            reader.bytes() == s,
            done >= 0,
            reader.consumed() == counted(old(reader).consumed(), done),
            reads == chunk_reads_from(s, start as int, end as int, 0, params, format, pids),
            reads == done + chunk_reads_from(
                s,
                start as int,
                end as int,
                k as nat,
                params,
                format,
                pids,
            ),
            s == old(reader).bytes(),
            pids == pgs_pids@,
            start <= end,
            len == end - start,
            len <= 16777216,
            0 < params.num_probes <= 4,
            k <= params.num_probes,
            goal == chunk_holds_from(s, start as int, end as int, 0, params, format, pids),
            goal == chunk_holds_from(s, start as int, end as int, k as nat, params, format, pids),
        decreases params.num_probes - k,
    {
        assert(0 <= len * k <= 16777216 * 4 && (len * k) / params.num_probes as int <= len)
            by (nonlinear_arith)
            requires
                0 <= len <= 16777216,
                0 <= k < params.num_probes,
                0 < params.num_probes <= 4,
        ;
        let at: u64 = start + len * k / params.num_probes;
        let left: u64 = end - at;
        let n: u64 = if params.sub_probe_bytes < left { params.sub_probe_bytes } else { left };
        k += 1;
        if n > 0 {
            let _ = reader.seek_to(at);
            let data = match reader.read_bytes(n) {
                Ok(data) => data,
                Err(e) => {
                    return Err(e);
                },
            };
            proof {
                done = done + n;
            }
            if scan_probe_for_pgs(data.as_slice(), format, pgs_pids) {
                return Ok(true);
            }
        }
    }
    Ok(false)
}

/// Probes a file for the regions that hold PGS data.
///
/// Each chunk of the file is probed at evenly spread positions. Chunks with PGS
/// data are extended to their neighbours, so that packets at their edges are
/// there as a whole.
pub fn probe_for_pgs<R: Source>(
    reader: &mut SeekBufReader<R>,
    format: PacketFormat,
    pgs_pids: &[u16],
    file_size: u64,
) -> (r: Result<ProbeResult, PgsError>)
    requires
        file_size <= i64::MAX,
    ensures
        final(reader).bytes() == old(reader).bytes(),
        ({
            let reads = probing_reads(
                old(reader).bytes(),
                chunk_count(file_size as int, params_for(file_size).chunk_size as int) as nat,
                file_size as int,
                params_for(file_size),
                format,
                pgs_pids@,
            );
            &&& final(reader).consumed() == counted(old(reader).consumed(), reads)
            &&& reads >= 0
        }),
        match (r, probed_regions(old(reader).bytes(), file_size, format, pgs_pids@)) {
            (Ok(p), Ok(v)) => p.active_regions@ == v,
            (Err(e), Err(v)) => e@ == v,
            _ => false,
        },
{
    let ghost s = reader.bytes();
    let ghost pids = pgs_pids@;
    let params = probe_params(file_size);
    let num_chunks: u64 = (file_size + params.chunk_size - 1) / params.chunk_size;
    let ghost goal = active_among(
        s,
        num_chunks as nat,
        file_size as int,
        params,
        format,
        pids,
    );
    let mut active: Vec<u64> = Vec::new();
    let mut i: u64 = 0;
    while i < num_chunks
        invariant
            reader.bytes() == s,
            ({
                let done = probing_reads(s, i as nat, file_size as int, params, format, pids);
                &&& reader.consumed() == counted(old(reader).consumed(), done)
                &&& done >= 0
            }),
            s == old(reader).bytes(),
            pids == pgs_pids@,
            params == params_for(file_size),
            num_chunks == chunk_count(file_size as int, params.chunk_size as int),
            file_size <= i64::MAX,
            i <= num_chunks,
            goal == active_among(
                s,
                num_chunks as nat,
                file_size as int,
                params,
                format,
                pids,
            ),
            active_among(s, i as nat, file_size as int, params, format, pids) == Ok::<
                Seq<u64>,
                ErrorView,
            >(active@),
            forall|k: int| 0 <= k < active@.len() ==> active@[k] < i,
        decreases num_chunks - i,
    {
        proof {
            lemma_chunk_fits(i as int, params.chunk_size as int, file_size as int);
        }
        let (start, end) = chunk_range(i, params.chunk_size, file_size);
        match probe_chunk(reader, start, end, params, format, pgs_pids) {
            Ok(true) => {
                active.push(i);
            },
            Ok(false) => {},
            Err(e) => {
                proof {
                    lemma_active_error(
                        s,
                        (i + 1) as nat,
                        num_chunks as nat,
                        file_size as int,
                        params,
                        format,
                        pids,
                    );
                }
                return Err(e);
            },
        }
        i += 1;
    }
    proof {
        lemma_expanded(active@, num_chunks);
        let all = expanded(active@, num_chunks);
        assert forall|k: int| 0 <= k < all.len() implies (#[trigger] all[k] + 1)
            * params.chunk_size <= u64::MAX by {
            assert(all.contains(all[k]));
            let m = choose|m: int|
                0 <= m < active@.len() && is_near(#[trigger] active@[m], all[k], num_chunks);
            assert(all[k] < num_chunks);
            lemma_chunk_fits(all[k] as int, params.chunk_size as int, file_size as int);
        }
    }
    let active_regions = merge_active_chunks(
        active.as_slice(),
        num_chunks,
        file_size,
        params.chunk_size,
    );
    Ok(ProbeResult { active_regions })
}

proof fn lemma_chunk_fits(i: int, chunk_size: int, file_size: int)
    requires
        0 <= i < chunk_count(file_size, chunk_size),
        chunk_size == 16777216 || chunk_size == 2097152,
        0 <= file_size <= i64::MAX,
    ensures
        (i + 1) * chunk_size <= u64::MAX,
        i * chunk_size < file_size,
        chunk_end(i, chunk_size, file_size) - i * chunk_size <= chunk_size,
        i * chunk_size <= chunk_end(i, chunk_size, file_size),
{
    if chunk_size == 16777216 {
        assert(i < (file_size + 16777215) / 16777216);
        assert(i * 16777216 < file_size);
        assert((i + 1) * 16777216 == i * 16777216 + 16777216);
    } else {
        assert(i < (file_size + 2097151) / 2097152);
        assert(i * 2097152 < file_size);
        assert((i + 1) * 2097152 == i * 2097152 + 2097152);
    }
}

proof fn lemma_active_error(
    s: Seq<u8>,
    m: nat,
    n: nat,
    file_size: int,
    params: ProbeParams,
    format: PacketFormat,
    pids: Seq<u16>,
)
    requires
        m <= n,
        active_among(s, m, file_size, params, format, pids) is Err,
    ensures
        active_among(s, n, file_size, params, format, pids) == active_among(
            s,
            m,
            file_size,
            params,
            format,
            pids,
        ),
        probing_reads(s, n, file_size, params, format, pids) == probing_reads(
            s,
            m,
            file_size,
            params,
            format,
            pids,
        ),
    decreases n,
{
    if m < n {
        lemma_active_error(s, m, (n - 1) as nat, file_size, params, format, pids);
    }
}

/// Whether a region covers a chunk.
pub open spec fn covers(region: (u64, u64), i: int, chunk_size: int, file_size: int) -> bool {
    region.0 <= i * chunk_size && chunk_end(i, chunk_size, file_size) <= region.1
}

pub(crate) proof fn lemma_chunk_order(a: int, b: int, chunk_size: int, file_size: int)
    requires
        0 <= a <= b,
        chunk_size >= 0,
    ensures
        a * chunk_size <= b * chunk_size,
        chunk_end(a, chunk_size, file_size) <= chunk_end(b, chunk_size, file_size),
{
    assert(a * chunk_size <= b * chunk_size && (a + 1) * chunk_size <= (b + 1) * chunk_size)
        by (nonlinear_arith)
        requires
            0 <= a <= b,
            chunk_size >= 0,
    ;
}

proof fn lemma_regions(
    chunks: Seq<u64>,
    k: int,
    start: int,
    end: int,
    chunk_size: int,
    file_size: int,
)
    requires
        1 <= k <= chunks.len(),
        forall|i: int, j: int| 0 <= i < j < chunks.len() ==> chunks[i] < chunks[j],
        forall|j: int|
            0 <= j < chunks.len() ==> (#[trigger] chunks[j]) * chunk_size < file_size,
        0 < chunk_size,
        file_size <= u64::MAX,
        0 <= start <= end,
        end == chunk_end(chunks[k - 1] as int, chunk_size, file_size),
        start <= chunks[k - 1] * chunk_size,
    ensures
        ({
            let rs = regions_from(chunks, k, start, end, chunk_size, file_size);
            &&& rs.len() > 0
            &&& rs[0].0 == start
            &&& rs[0].1 >= end
            &&& forall|m: int| 0 <= m < rs.len() ==> (#[trigger] rs[m]).0 <= rs[m].1
            &&& forall|m: int| 0 <= m < rs.len() - 1 ==> (#[trigger] rs[m]).1 < rs[m + 1].0
            &&& forall|j: int|
                k - 1 <= j < chunks.len() ==> exists|m: int|
                    0 <= m < rs.len() && covers(
                        #[trigger] rs[m],
                        #[trigger] chunks[j] as int,
                        chunk_size,
                        file_size,
                    )
        }),
    decreases chunks.len() - k,
{
    let rs = regions_from(chunks, k, start, end, chunk_size, file_size);
    assert(chunks[k - 1] * chunk_size < file_size);
    assert(end <= file_size);
    if k == chunks.len() {
        assert(covers(rs[0], chunks[k - 1] as int, chunk_size, file_size));
    } else {
        let c = chunks[k] as int;
        let chunk_start = c * chunk_size;
        let stop = chunk_end(c, chunk_size, file_size);
        assert(chunks[k] * chunk_size < file_size);
        assert(chunks[k - 1] < chunks[k]);
        lemma_chunk_order(chunks[k - 1] as int, c, chunk_size, file_size);
        assert((c + 1) * chunk_size == c * chunk_size + chunk_size) by (nonlinear_arith);
        assert(0 <= chunk_start) by (nonlinear_arith)
            requires
                c >= 0,
                chunk_size > 0,
                chunk_start == c * chunk_size,
        ;
        if chunk_start <= end {
            lemma_regions(chunks, k + 1, start, stop, chunk_size, file_size);
            assert forall|j: int| k - 1 <= j < chunks.len() implies exists|m: int|
                0 <= m < rs.len() && covers(
                    #[trigger] rs[m],
                    #[trigger] chunks[j] as int,
                    chunk_size,
                    file_size,
                ) by {
                if j == k - 1 {
                    assert(covers(rs[0], chunks[j] as int, chunk_size, file_size));
                }
            }
        } else {
            let tail = regions_from(chunks, k + 1, chunk_start, stop, chunk_size, file_size);
            lemma_regions(chunks, k + 1, chunk_start, stop, chunk_size, file_size);
            assert(rs[0] == (start as u64, end as u64));
            assert forall|m: int| 0 < m < rs.len() implies #[trigger] rs[m] == tail[m - 1] by {}
            assert forall|m: int| 0 <= m < rs.len() implies (#[trigger] rs[m]).0 <= rs[m].1 by {
                if m > 0 {
                    assert(rs[m] == tail[m - 1]);
                }
            }
            assert forall|m: int| 0 <= m < rs.len() - 1 implies (#[trigger] rs[m]).1 < rs[m
                + 1].0 by {
                assert(rs[m + 1] == tail[m]);
                if m > 0 {
                    assert(rs[m] == tail[m - 1]);
                }
            }
            assert forall|j: int| k - 1 <= j < chunks.len() implies exists|m: int|
                0 <= m < rs.len() && covers(
                    #[trigger] rs[m],
                    #[trigger] chunks[j] as int,
                    chunk_size,
                    file_size,
                ) by {
                if j == k - 1 {
                    assert(covers(rs[0], chunks[j] as int, chunk_size, file_size));
                } else {
                    let m = choose|m: int|
                        0 <= m < tail.len() && covers(
                            #[trigger] tail[m],
                            chunks[j] as int,
                            chunk_size,
                            file_size,
                        );
                    assert(rs[m + 1] == tail[m]);
                }
            }
        }
    }
}

/// The regions lie apart and in ascending order, and every active chunk lies in
/// one of them together with its neighbours within the file.
pub proof fn regions_cover_active_chunks(
    active: Seq<u64>,
    num_chunks: u64,
    file_size: u64,
    chunk_size: u64,
)
    requires
        chunk_size > 0,
        forall|k: int| 0 <= k < active.len() ==> (#[trigger] active[k]) < num_chunks,
        forall|i: int| 0 <= i < num_chunks ==> #[trigger] (i * chunk_size) < file_size,
    ensures
        ({
            let rs = merged(active, num_chunks, file_size as int, chunk_size as int);
            &&& forall|m: int| 0 <= m < rs.len() ==> (#[trigger] rs[m]).0 <= rs[m].1
            &&& forall|m: int| 0 <= m < rs.len() - 1 ==> (#[trigger] rs[m]).1 < rs[m + 1].0
            &&& forall|k: int, y: u64|
                0 <= k < active.len() && #[trigger] is_near(active[k], y, num_chunks) ==> exists|
                    m: int,
                |
                    0 <= m < rs.len() && covers(
                        #[trigger] rs[m],
                        y as int,
                        chunk_size as int,
                        file_size as int,
                    )
        }),
{
    if active.len() > 0 {
        let chunks = expanded(active, num_chunks);
        let rs = merged(active, num_chunks, file_size as int, chunk_size as int);
        lemma_expanded(active, num_chunks);
        assert forall|j: int| 0 <= j < chunks.len() implies (#[trigger] chunks[j])
            * chunk_size < file_size by {
            assert(chunks.contains(chunks[j]));
            let m = choose|m: int|
                0 <= m < active.len() && is_near(#[trigger] active[m], chunks[j], num_chunks);
            assert(active[m] < num_chunks);
            assert((chunks[j] as int) * chunk_size < file_size);
        }
        let c = chunks[0] as int;
        assert(chunks[0] * chunk_size < file_size);
        assert(0 <= c * chunk_size && (c + 1) * chunk_size == c * chunk_size + chunk_size)
            by (nonlinear_arith)
            requires
                c >= 0,
                chunk_size > 0,
        ;
        lemma_regions(
            chunks,
            1,
            c * chunk_size,
            chunk_end(c, chunk_size as int, file_size as int),
            chunk_size as int,
            file_size as int,
        );
        assert forall|k: int, y: u64|
            0 <= k < active.len() && #[trigger] is_near(active[k], y, num_chunks) implies exists|
            m: int,
        |
            0 <= m < rs.len() && covers(
                #[trigger] rs[m],
                y as int,
                chunk_size as int,
                file_size as int,
            ) by {
            assert(chunks.contains(y));
            let j = choose|j: int| 0 <= j < chunks.len() && chunks[j] == y;
            let m = choose|m: int|
                0 <= m < rs.len() && covers(
                    #[trigger] rs[m],
                    chunks[j] as int,
                    chunk_size as int,
                    file_size as int,
                );
            assert(covers(rs[m], y as int, chunk_size as int, file_size as int));
        }
    }
}

} // verus!
