//! The run-length encoding of PGS bitmaps.
//!
//! A bitmap is a flat buffer of palette indices, one byte per pixel, in
//! row-major order. Its encoding is a sequence of runs; each row ends with an
//! end-of-line marker.
use vstd::prelude::*;

verus! {

/// The longest run that one code can express.
pub const MAX_RUN: usize = 16383;

/// One code of an encoded bitmap.
pub enum RleCode {
    /// `len` pixels of one color; the code takes `size` bytes.
    Run { color: u8, len: nat, size: nat },
    /// The end of a row; the code takes two bytes.
    EndOfLine,
    /// A code whose length or color bytes are missing.
    Truncated,
}

/// The code that `data` starts with; `data` is not empty.
pub open spec fn first_code(data: Seq<u8>) -> RleCode {
    if data[0] != 0 {
        RleCode::Run { color: data[0], len: 1, size: 1 }
    } else if data.len() == 1 {
        RleCode::Truncated
    } else if data[1] == 0 {
        RleCode::EndOfLine
    } else if data[1] < 0x40 {
        RleCode::Run { color: 0, len: data[1] as nat, size: 2 }
    } else if data[1] < 0x80 {
        if data.len() < 3 {
            RleCode::Truncated
        } else {
            RleCode::Run { color: 0, len: ((data[1] - 0x40) * 256 + data[2]) as nat, size: 3 }
        }
    } else if data[1] < 0xC0 {
        if data.len() < 3 {
            RleCode::Truncated
        } else {
            RleCode::Run { color: data[2], len: (data[1] - 0x80) as nat, size: 3 }
        }
    } else {
        if data.len() < 4 {
            RleCode::Truncated
        } else {
            RleCode::Run {
                color: data[3],
                len: ((data[1] - 0xC0) * 256 + data[2]) as nat,
                size: 4,
            }
        }
    }
}

/// `n` pixels of color `color`.
pub open spec fn pixel_run(color: u8, n: nat) -> Seq<u8> {
    Seq::new(n, |i: int| color)
}

/// The number of pixels of a run of `n` that still fit in front of `limit`.
pub open spec fn fitting(n: nat, have: nat, limit: nat) -> nat {
    if have + n <= limit {
        n
    } else if have <= limit {
        (limit - have) as nat
    } else {
        0
    }
}

/// `out` filled up with color 0 to `total` pixels.
pub open spec fn padded(out: Seq<u8>, total: nat) -> Seq<u8> {
    out + pixel_run(0, fitting(total, out.len(), total))
}

/// The bitmap of `total` pixels in rows of `width` that `data` describes when
/// `out` has been decoded already and the current row holds `col` pixels.
///
/// What the data does not cover is color 0, and a row that ends early is filled
/// up. Data with a truncated code describes no bitmap, nor does data with runs
/// of more pixels than the bitmap has.
pub open spec fn decoded_from(
    data: Seq<u8>,
    out: Seq<u8>,
    col: nat,
    width: nat,
    total: nat,
) -> Option<Seq<u8>>
    decreases data.len(),
{
    if data.len() == 0 {
        Some(padded(out, total))
    } else {
        match first_code(data) {
            RleCode::Truncated => None,
            RleCode::EndOfLine => {
                let n = fitting(if col < width { (width - col) as nat } else { 0 }, out.len(), total);
                decoded_from(data.skip(2), out + pixel_run(0, n), 0, width, total)
            },
            RleCode::Run { color, len, size } => if out.len() + len > total {
                None
            } else {
                decoded_from(
                    data.skip(size as int),
                    out + pixel_run(color, len),
                    col + len,
                    width,
                    total,
                )
            },
        }
    }
}

/// The bitmap that the data describes, if it is well-formed.
pub open spec fn decoded(data: Seq<u8>, width: nat, height: nat) -> Option<Seq<u8>> {
    decoded_from(data, Seq::empty(), 0, width, width * height)
}

/// The code for a run of 1 to `MAX_RUN` pixels.
pub open spec fn run_code(color: u8, n: nat) -> Seq<u8> {
    if color == 0 {
        if n <= 63 {
            seq![0u8, n as u8]
        } else {
            seq![0u8, (0x40 + n / 256) as u8, (n % 256) as u8]
        }
    } else if n == 1 {
        seq![color]
    } else if n == 2 {
        seq![color, color]
    } else if n <= 63 {
        seq![0u8, (0x80 + n) as u8, color]
    } else {
        seq![0u8, (0xC0 + n / 256) as u8, (n % 256) as u8, color]
    }
}

/// The codes for a run of any length, the longest possible codes first.
pub open spec fn encoded_run(color: u8, n: nat) -> Seq<u8>
    decreases n,
{
    if n == 0 {
        Seq::empty()
    } else if n <= MAX_RUN {
        run_code(color, n)
    } else {
        run_code(color, MAX_RUN as nat) + encoded_run(color, (n - MAX_RUN) as nat)
    }
}

/// The number of pixels at the start of `row` that have color `color`.
pub open spec fn leading_run(row: Seq<u8>, color: u8) -> nat
    decreases row.len(),
{
    if row.len() > 0 && row[0] == color {
        1 + leading_run(row.skip(1), color)
    } else {
        0
    }
}

/// The encoding of the pixels of one row, without its end-of-line marker.
pub open spec fn encoded_row(row: Seq<u8>) -> Seq<u8>
    decreases row.len(),
    via encoded_row_decreases
{
    if row.len() == 0 {
        Seq::empty()
    } else {
        let n = leading_run(row, row[0]);
        encoded_run(row[0], n) + encoded_row(row.skip(n as int))
    }
}

#[via_fn]
proof fn encoded_row_decreases(row: Seq<u8>) {
    if row.len() > 0 {
        lemma_leading_run(row, row[0]);
    }
}

/// The encoding of the rows of `pixels`, each `width` pixels wide and followed
/// by an end-of-line marker.
pub open spec fn encoded_rows(pixels: Seq<u8>, width: nat) -> Seq<u8>
    decreases pixels.len(),
{
    if width == 0 || pixels.len() < width {
        Seq::empty()
    } else {
        encoded_row(pixels.take(width as int)) + seq![0u8, 0u8]
            + encoded_rows(pixels.skip(width as int), width)
    }
}

proof fn lemma_leading_run(row: Seq<u8>, color: u8)
    ensures
        leading_run(row, color) <= row.len(),
        row.len() > 0 && row[0] == color ==> leading_run(row, color) > 0,
        forall|i: int| 0 <= i < leading_run(row, color) ==> row[i] == color,
        leading_run(row, color) < row.len() ==> row[leading_run(row, color) as int] != color,
    decreases row.len(),
{
    if row.len() > 0 && row[0] == color {
        lemma_leading_run(row.skip(1), color);
        assert forall|i: int| 0 <= i < leading_run(row, color) implies row[i] == color by {
            if i > 0 {
                assert(row[i] == row.skip(1)[i - 1]);
            }
        }
    }
}

/// Appends `n` pixels of color `color`, but no more than fit below `limit`.
/// Returns how many were appended.
fn push_run(pixels: &mut Vec<u8>, color: u8, n: usize, limit: usize) -> (pushed: usize)
    ensures
        pushed == fitting(n as nat, old(pixels)@.len(), limit as nat),
        final(pixels)@ == old(pixels)@ + pixel_run(color, pushed as nat),
{
    let mut done: usize = 0;
    while done < n && pixels.len() < limit
        invariant
            done <= n,
            done == 0 || old(pixels)@.len() + done <= limit,
            pixels@ == old(pixels)@ + pixel_run(color, done as nat),
        decreases n - done,
    {
        pixels.push(color);
        done += 1;
        assert(pixels@ =~= old(pixels)@ + pixel_run(color, done as nat));
    }
    done
}

/// Encodes a bitmap of `width` by `height` palette indices.
///
/// Returns `None` if the buffer does not hold `width * height` pixels.
pub fn encode_rle(pixels: &[u8], width: u16, height: u16) -> (r: Option<Vec<u8>>)
    ensures
        r is Some <==> pixels@.len() == width * height,
        r matches Some(v) ==> v@ == encoded_rows(pixels@, width as nat),
{
    let w: usize = width as usize;
    assert(0 <= width * height <= 0xFFFF * 0xFFFF) by (nonlinear_arith)
        requires
            0 <= width <= 0xFFFF,
            0 <= height <= 0xFFFF,
    ;
    let total: usize = w * (height as usize);
    if pixels.len() != total {
        return None;
    }
    let mut buf: Vec<u8> = Vec::new();
    if total == 0 {
        return Some(buf);
    }
    assert(w > 0 && height > 0) by (nonlinear_arith)
        requires
            w * height > 0,
            w >= 0,
            height >= 0,
    ;
    let mut start: usize = 0;
    let ghost mut row: int = 0;
    proof {
        assert(pixels@.skip(0) =~= pixels@);
    }
    while start < total
        invariant
            w > 0,
            total == pixels@.len(),
            w == width,
            total == w * height,
            start == row * w,
            0 <= row <= height,
            start <= total,
            encoded_rows(pixels@, w as nat) == buf@ + encoded_rows(
                pixels@.skip(start as int),
                w as nat,
            ),
        decreases total - start,
    {
        assert(row + 1 <= height && start + w <= total) by (nonlinear_arith)
            requires
                start == row * w,
                start < total,
                total == w * height,
                w > 0,
                row >= 0,
        ;
        assert((row + 1) * w == row * w + w) by (nonlinear_arith);
        let ghost before = buf@;
        let ghost line = pixels@.subrange(start as int, start + w);
        push_row(&mut buf, pixels, start, w);
        buf.push(0);
        buf.push(0);
        proof {
            assert(pixels@.skip(start as int).take(w as int) =~= line);
            assert(pixels@.skip(start as int).skip(w as int) =~= pixels@.skip(start + w));
            assert(buf@ =~= before + (encoded_row(line) + seq![0u8, 0u8]));
            assert(buf@ + encoded_rows(pixels@.skip(start + w), w as nat) =~= before + (
            encoded_row(line) + seq![0u8, 0u8] + encoded_rows(pixels@.skip(start + w), w as nat)));
            row = row + 1;
        }
        start += w;
    }
    assert(buf@ + encoded_rows(pixels@.skip(start as int), w as nat) =~= buf@);
    Some(buf)
}

/// Appends the encoding of the `w` pixels that start at `start`.
fn push_row(buf: &mut Vec<u8>, pixels: &[u8], start: usize, w: usize)
    requires
        start + w <= pixels@.len(),
    ensures
        final(buf)@ == old(buf)@ + encoded_row(pixels@.subrange(start as int, start + w)),
{
    let ghost line = pixels@.subrange(start as int, start + w);
    let end: usize = pixels.len();
    let mut col: usize = 0;
    assert(line.skip(0) =~= line);
    while col < w
        invariant
            start + w <= end == pixels@.len(),
            col <= w,
            line == pixels@.subrange(start as int, start + w),
            old(buf)@ + encoded_row(line) == buf@ + encoded_row(line.skip(col as int)),
        decreases w - col,
    {
        let color = pixels[start + col];
        let ghost rest = line.skip(col as int);
        let mut run: usize = 1;
        proof {
            reveal_with_fuel(leading_run, 2);
            assert(rest.skip(1) =~= line.skip(col + 1));
        }
        while col + run < w && pixels[start + col + run] == color
            invariant
                start + w <= end == pixels@.len(),
                line == pixels@.subrange(start as int, start + w),
                rest == line.skip(col as int),
                1 <= run,
                col + run <= w,
                leading_run(rest, color) == run + leading_run(line.skip(col + run), color),
            decreases w - run,
        {
            assert(line.skip(col + run).skip(1) =~= line.skip(col + run + 1));
            run += 1;
        }
        assert(leading_run(rest, color) == run);
        let ghost before = buf@;
        push_encoded_run(buf, color, run);
        proof {
            assert(rest.skip(run as int) =~= line.skip(col + run));
            assert(before + (encoded_run(color, run as nat) + encoded_row(line.skip(col + run)))
                =~= buf@ + encoded_row(line.skip(col + run)));
        }
        col += run;
    }
    assert(buf@ + encoded_row(line.skip(col as int)) =~= buf@);
}

/// Appends the codes of a run, splitting it where it is too long for one code.
fn push_encoded_run(buf: &mut Vec<u8>, color: u8, run: usize)
    ensures
        final(buf)@ == old(buf)@ + encoded_run(color, run as nat),
{
    let mut remaining: usize = run;
    while remaining > 0
        invariant
            remaining <= run,
            old(buf)@ + encoded_run(color, run as nat) == buf@ + encoded_run(
                color,
                remaining as nat,
            ),
        decreases remaining,
    {
        let chunk: usize = if remaining <= MAX_RUN { remaining } else { MAX_RUN };
        let ghost before = buf@;
        if color == 0 {
            buf.push(0x00);
            if chunk <= 63 {
                buf.push(chunk as u8);
            } else {
                buf.push((0x40 + chunk / 256) as u8);
                buf.push((chunk % 256) as u8);
            }
        } else if chunk == 1 {
            buf.push(color);
        } else if chunk == 2 {
            buf.push(color);
            buf.push(color);
        } else if chunk <= 63 {
            buf.push(0x00);
            buf.push((0x80 + chunk) as u8);
            buf.push(color);
        } else {
            buf.push(0x00);
            buf.push((0xC0 + chunk / 256) as u8);
            buf.push((chunk % 256) as u8);
            buf.push(color);
        }
        proof {
            assert(buf@ =~= before + run_code(color, chunk as nat));
            let rest = (remaining - chunk) as nat;
            assert(buf@ + encoded_run(color, rest) =~= before + (run_code(color, chunk as nat)
                + encoded_run(color, rest)));
            assert(run_code(color, chunk as nat) + Seq::<u8>::empty() =~= run_code(
                color,
                chunk as nat,
            ));
        }
        remaining -= chunk;
    }
    assert(buf@ + encoded_run(color, 0) =~= buf@);
}

/// Decodes an encoded bitmap of `width` by `height` pixels.
///
/// Returns one palette index per pixel. Pixels that the data does not cover are
/// of color 0. Returns `None` if a code lacks its length or color bytes, or if the
/// data has more than `width * height` pixels.
pub fn decode_rle(rle_data: &[u8], width: u16, height: u16) -> (r: Option<Vec<u8>>)
    ensures
        r is Some <==> decoded(rle_data@, width as nat, height as nat) is Some,
        r matches Some(v) ==> decoded(rle_data@, width as nat, height as nat) == Some(v@)
            && v@.len() == width * height,
{
    let w: usize = width as usize;
    assert(0 <= width * height <= 0xFFFF * 0xFFFF) by (nonlinear_arith)
        requires
            0 <= width <= 0xFFFF,
            0 <= height <= 0xFFFF,
    ;
    let total: usize = w * (height as usize);
    let mut pixels: Vec<u8> = Vec::new();
    let len: usize = rle_data.len();
    let mut i: usize = 0;
    let mut col: usize = 0;
    let ghost goal = decoded(rle_data@, width as nat, height as nat);
    assert(rle_data@.skip(0) =~= rle_data@);
    while i < len
        invariant
            len == rle_data@.len(),
            i <= len,
            w == width,
            pixels@.len() <= total,
            col <= pixels@.len(),
            goal == decoded_from(
                rle_data@.skip(i as int),
                pixels@,
                col as nat,
                w as nat,
                total as nat,
            ),
            goal == decoded(rle_data@, width as nat, height as nat),
        decreases len - i,
    {
        let ghost rest = rle_data@.skip(i as int);
        let byte = rle_data[i];
        let color: u8;
        let run: usize;
        let size: usize;
        if byte != 0x00 {
            color = byte;
            run = 1;
            size = 1;
        } else if len - i < 2 {
            return None;
        } else {
            let flag = rle_data[i + 1];
            if flag == 0x00 {
                let missing: usize = if col < w { w - col } else { 0 };
                push_run(&mut pixels, 0, missing, total);
                col = 0;
                i += 2;
                assert(rest.skip(2) =~= rle_data@.skip(i as int));
                continue;
            } else if flag < 0x40 {
                color = 0;
                run = flag as usize;
                size = 2;
            } else if flag < 0x80 {
                if len - i < 3 {
                    return None;
                }
                color = 0;
                run = (flag - 0x40) as usize * 256 + rle_data[i + 2] as usize;
                size = 3;
            } else if flag < 0xC0 {
                if len - i < 3 {
                    return None;
                }
                color = rle_data[i + 2];
                run = (flag - 0x80) as usize;
                size = 3;
            } else {
                if len - i < 4 {
                    return None;
                }
                color = rle_data[i + 3];
                run = (flag - 0xC0) as usize * 256 + rle_data[i + 2] as usize;
                size = 4;
            }
        }
        assert(first_code(rest) == (RleCode::Run { color, len: run as nat, size: size as nat }));
        if run > total - pixels.len() {
            return None;
        }
        push_run(&mut pixels, color, run, total);
        col += run;
        i += size;
        assert(rest.skip(size as int) =~= rle_data@.skip(i as int));
    }
    push_run(&mut pixels, 0, total, total);
    Some(pixels)
}

proof fn lemma_one_run(
    color: u8,
    n: nat,
    rest: Seq<u8>,
    out: Seq<u8>,
    col: nat,
    width: nat,
    total: nat,
)
    requires
        1 <= n <= MAX_RUN,
        out.len() + n <= total,
    ensures
        decoded_from(run_code(color, n) + rest, out, col, width, total) == decoded_from(
            rest,
            out + pixel_run(color, n),
            col + n,
            width,
            total,
        ),
{
    let data = run_code(color, n) + rest;
    if color != 0 && n == 2 {
        let after = data.skip(1);
        assert(after[0] == color);
        assert(after.skip(1) =~= rest);
        assert(out + pixel_run(color, 1) + pixel_run(color, 1) =~= out + pixel_run(color, 2));
        reveal_with_fuel(decoded_from, 3);
    } else {
        let size = run_code(color, n).len();
        assert(data.skip(size as int) =~= rest);
        assert(first_code(data) == (RleCode::Run { color, len: n, size }));
    }
}

proof fn lemma_run(color: u8, n: nat, rest: Seq<u8>, out: Seq<u8>, col: nat, width: nat, total: nat)
    requires
        out.len() + n <= total,
    ensures
        decoded_from(encoded_run(color, n) + rest, out, col, width, total) == decoded_from(
            rest,
            out + pixel_run(color, n),
            col + n,
            width,
            total,
        ),
    decreases n,
{
    if n == 0 {
        assert(encoded_run(color, n) + rest =~= rest);
        assert(out + pixel_run(color, 0) =~= out);
    } else if n <= MAX_RUN {
        lemma_one_run(color, n, rest, out, col, width, total);
    } else {
        let m = (n - MAX_RUN) as nat;
        let full = MAX_RUN as nat;
        assert(encoded_run(color, n) + rest =~= run_code(color, full) + (encoded_run(color, m)
            + rest));
        lemma_one_run(color, full, encoded_run(color, m) + rest, out, col, width, total);
        lemma_run(color, m, rest, out + pixel_run(color, full), col + full, width, total);
        assert(out + pixel_run(color, full) + pixel_run(color, m) =~= out + pixel_run(color, n));
    }
}

proof fn lemma_row(row: Seq<u8>, rest: Seq<u8>, out: Seq<u8>, col: nat, width: nat, total: nat)
    requires
        out.len() + row.len() <= total,
    ensures
        decoded_from(encoded_row(row) + rest, out, col, width, total) == decoded_from(
            rest,
            out + row,
            col + row.len(),
            width,
            total,
        ),
    decreases row.len(),
{
    if row.len() == 0 {
        assert(encoded_row(row) + rest =~= rest);
        assert(out + row =~= out);
    } else {
        let color = row[0];
        let n = leading_run(row, color);
        lemma_leading_run(row, color);
        let tail = row.skip(n as int);
        assert(encoded_row(row) + rest =~= encoded_run(color, n) + (encoded_row(tail) + rest));
        lemma_run(color, n, encoded_row(tail) + rest, out, col, width, total);
        lemma_row(tail, rest, out + pixel_run(color, n), col + n, width, total);
        assert(out + pixel_run(color, n) + tail =~= out + row);
    }
}

proof fn lemma_rows(pixels: Seq<u8>, rows: nat, out: Seq<u8>, width: nat, total: nat)
    requires
        width > 0,
        pixels.len() == rows * width,
        out.len() + pixels.len() == total,
    ensures
        decoded_from(encoded_rows(pixels, width), out, 0, width, total) == Some(out + pixels),
    decreases rows,
{
    if rows == 0 {
        assert(pixels.len() == 0) by (nonlinear_arith)
            requires
                pixels.len() == rows * width,
                rows == 0,
        ;
        assert(encoded_rows(pixels, width) =~= Seq::<u8>::empty());
        assert(padded(out, total) =~= out + pixels);
    } else {
        assert(pixels.len() >= width && pixels.len() - width == (rows - 1) * width)
            by (nonlinear_arith)
            requires
                pixels.len() == rows * width,
                rows >= 1,
                width > 0,
        ;
        let row = pixels.take(width as int);
        let tail = pixels.skip(width as int);
        let after = encoded_rows(tail, width);
        let eol = seq![0u8, 0u8];
        assert(encoded_rows(pixels, width) =~= encoded_row(row) + (eol + after));
        lemma_row(row, eol + after, out, 0, width, total);
        assert(out + row + tail =~= out + pixels);
        assert((eol + after).skip(2) =~= after);
        assert(first_code(eol + after) == RleCode::EndOfLine);
        assert(out + row + pixel_run(0, 0) =~= out + row);
        lemma_rows(tail, (rows - 1) as nat, out + row, width, total);
    }
}

/// Decoding an encoded bitmap gives the bitmap back.
pub proof fn decode_of_encode(pixels: Seq<u8>, width: nat, height: nat)
    requires
        pixels.len() == width * height,
    ensures
        decoded(encoded_rows(pixels, width), width, height) == Some(pixels),
{
    if width == 0 {
        assert(pixels.len() == 0) by (nonlinear_arith)
            requires
                pixels.len() == width * height,
                width == 0,
        ;
        assert(padded(Seq::<u8>::empty(), 0) =~= pixels);
    } else {
        assert(height * width == width * height) by (nonlinear_arith);
        lemma_rows(pixels, height, Seq::empty(), width, width * height);
        assert(Seq::<u8>::empty() + pixels =~= pixels);
    }
}

/// Whatever the data, a decoded bitmap has `width * height` pixels.
pub proof fn decoded_size(data: Seq<u8>, width: nat, height: nat)
    ensures
        decoded(data, width, height) matches Some(pixels) ==> pixels.len() == width * height,
{
    assert(width * height >= 0) by (nonlinear_arith);
    lemma_decoded_len(data, Seq::empty(), 0, width, width * height);
}

proof fn lemma_decoded_len(data: Seq<u8>, out: Seq<u8>, col: nat, width: nat, total: nat)
    requires
        out.len() <= total,
    ensures
        decoded_from(data, out, col, width, total) matches Some(pixels) ==> pixels.len() == total,
    decreases data.len(),
{
    if data.len() > 0 {
        match first_code(data) {
            RleCode::EndOfLine => {
                let n = fitting(if col < width { (width - col) as nat } else { 0 }, out.len(), total);
                lemma_decoded_len(data.skip(2), out + pixel_run(0, n), 0, width, total);
            },
            RleCode::Run { color, len, size } => {
                if out.len() + len <= total {
                    lemma_decoded_len(
                        data.skip(size as int),
                        out + pixel_run(color, len),
                        col + len,
                        width,
                        total,
                    );
                }
            },
            RleCode::Truncated => {},
        }
    }
}

} // verus!
