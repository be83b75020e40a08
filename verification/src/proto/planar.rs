//! The codec a 32-bit session compresses its bitmaps with.
//!
//! RDP 6.0 bitmap compression, which everyone calls the planar codec because of what
//! it does first: it splits a rectangle into one plane per channel, so that a run of
//! pixels that share a colour becomes a run of equal bytes in each of three places
//! rather than an interleaved pattern no run-length coder can see.
//!
//! Each plane is then coded on its own, row by row, in two steps:
//!
//! 1. **Delta.** Every row but the first is replaced by its difference from the row
//!    above, zig-zagged so that a small negative difference is a small byte. A flat
//!    region becomes a plane of zeroes.
//! 2. **Run length.** Each row is a run of segments, each a control byte saying how
//!    many bytes follow literally and how many times the last of them repeats.
//!
//! # What a server may send, and what it may not
//!
//! The format header can also ask for two things this client did not claim: the
//! planes as luma and chroma rather than red, green and blue, and chroma at half
//! resolution. Both are lossy, both are gated on `DRAW_ALLOW_DYNAMIC_COLOR_FIDELITY`
//! and `DRAW_ALLOW_COLOR_SUBSAMPLING` in the Bitmap capability, and this client claims
//! neither, so they are refused here by name rather than decoded into a desktop whose
//! colours are quietly wrong.
//!
//! [MS-RDPEGDI] 2.2.2.5.1 and 3.1.9.

use vstd::prelude::*;
use vstd::slice::slice_subrange;

use super::wire::{cursor, Cursor, Malformed, Reader, Step};

verus! {

pub const WHAT: &'static str = "an RDP planar bitmap";

/// The bottom three bits of the format header: the colour loss level. Zero means the
/// planes are red, green and blue; anything else means luma and chroma, with that
/// many bits shifted out of the chroma on the way.
pub const COLOR_LOSS: u8 = 0x07;

/// `CS`: the chroma planes are half size in each direction.
pub const SUBSAMPLED: u8 = 0x08;

/// `RLE`: the planes are run-length coded and delta-coded. Without it they are plain
/// bytes, and a padding byte follows them.
pub const RLE: u8 = 0x10;

/// `NA`: there is no alpha plane. The Bitmap capability's `DRAW_ALLOW_SKIP_ALPHA`
/// asked for that, and a server that sends one anyway is answered by reading it and
/// throwing it away: a desktop has no transparency to carry.
pub const NO_ALPHA: u8 = 0x20;

/// What a zig-zagged byte adds: the bottom bit is the sign, so that a difference of
/// minus one is 1 rather than 255 and stays a small byte for the run-length coder.
pub open spec fn zigzag(v: u8) -> int {
    if v % 2 == 1 { -((v + 1) / 2) } else { v as int / 2 }
}

/// A row put back from the difference it was coded as.
pub open spec fn undelta_spec(above: Seq<u8>, row: Seq<u8>) -> Seq<u8> {
    Seq::new(row.len(), |i: int| ((above[i] + zigzag(row[i])) % 0x100) as u8)
}

/// What a control byte says: how many literal bytes, and how many of the last of them
/// after that. A run field of one or two is the long form: the literal count it would
/// otherwise hold is added to the run instead, and there are no literals.
pub open spec fn segment(control: u8) -> (nat, nat) {
    let (high, low) = ((control / 16) as nat, (control % 16) as nat);
    if low == 1 {
        (0, 16 + high)
    } else if low == 2 {
        (0, 32 + high)
    } else {
        (high, low)
    }
}

pub open spec fn repeated(value: u8, n: nat) -> Seq<u8> {
    Seq::new(n, |i: int| value)
}

/// The rest of a row of `width`, and how much of the stream the row takes. A run repeats
/// `last`, which is the last literal byte of the row so far.
pub open spec fn row_spec(c: Cursor, out: Seq<u8>, last: u8, width: nat) -> Result<
    (Seq<u8>, int),
    Malformed,
>
    decreases width - out.len(),
{
    if out.len() >= width {
        Ok((out, c.at))
    } else {
        match c.u8() {
            Step::Stop(e) => Err(e),
            Step::Got(control, c) => if control == 0 {
                Err(c.refused("a segment of no length", control as u64))
            } else {
                let (literals, run) = segment(control);
                if out.len() + literals + run > width {
                    Err(c.refused("a segment that runs past its row", control as u64))
                } else {
                    match c.bytes(literals as int) {
                        Step::Stop(e) => Err(e),
                        Step::Got(bytes, c) => {
                            let last = if literals > 0 { bytes[literals - 1] } else { last };
                            let next = out + bytes + repeated(last, run);
                            if out.len() < next.len() <= width {
                                row_spec(c, next, last, width)
                            } else {
                                Ok((out, c.at))
                            }
                        },
                    }
                }
            },
        }
    }
}

/// The first `n` rows of a plane, and how much of the stream they take: every row coded
/// on its own, and every row but the first a difference from the row above it.
pub open spec fn rows_spec(src: Seq<u8>, width: nat, n: nat) -> Result<(Seq<u8>, int), Malformed>
    decreases n,
{
    if n == 0 {
        Ok((seq![], 0))
    } else {
        match rows_spec(src, width, (n - 1) as nat) {
            Err(e) => Err(e),
            Ok((above, at)) => match row_spec(cursor(WHAT, src.skip(at)), seq![], 0, width) {
                Err(e) => Err(e),
                Ok((row, taken)) => Ok(
                    (
                        above + if n > 1 {
                            undelta_spec(above.skip(above.len() - width), row)
                        } else {
                            row
                        },
                        at + taken,
                    ),
                ),
            },
        }
    }
}

/// Four numbers that stand for planes one after another in a stream.
pub open spec fn planes_spec(body: Seq<u8>, width: nat, height: nat, n: nat) -> Result<
    (Seq<u8>, int),
    Malformed,
>
    decreases n,
{
    if n == 0 {
        Ok((seq![], 0))
    } else {
        match planes_spec(body, width, height, (n - 1) as nat) {
            Err(e) => Err(e),
            Ok((before, at)) => match rows_spec(body.skip(at), width, height) {
                Err(e) => Err(e),
                Ok((plane, taken)) => Ok((before + plane, at + taken)),
            },
        }
    }
}

/// Three planes (red, green and blue) woven back into `BGRX32` pixels.
pub open spec fn composed(colors: Seq<u8>, plane: nat) -> Seq<u8> {
    Seq::new(
        4 * plane,
        |j: int|
            if j % 4 == 0 {
                colors[2 * plane + j / 4]
            } else if j % 4 == 1 {
                colors[plane + j / 4]
            } else if j % 4 == 2 {
                colors[j / 4]
            } else {
                0u8
            },
    )
}

/// The three colour planes of a bitmap, the alpha plane dropped where there is one.
pub open spec fn colors_spec(src: Seq<u8>, width: nat, height: nat) -> Result<Seq<u8>, Malformed> {
    let plane = width * height;
    match cursor(WHAT, src).u8() {
        Step::Stop(e) => Err(e),
        Step::Got(header, c) => {
            let body = c.rest();
            let skipped = if header & NO_ALPHA == 0 { plane } else { 0 };
            if header & COLOR_LOSS != 0 {
                Err(c.refused("a colour loss level", (header & COLOR_LOSS) as u64))
            } else if header & SUBSAMPLED != 0 {
                Err(c.refused("subsampled chroma", header as u64))
            } else if header & RLE != 0 {
                match planes_spec(body, width, height, if header & NO_ALPHA == 0 { 4 } else { 3 }) {
                    Err(e) => Err(e),
                    Ok((planes, _)) => Ok(planes.skip(skipped as int)),
                }
            } else if body.len() < skipped + 3 * plane + 1 {
                Err(c.short(skipped + 3 * plane + 1int))
            } else {
                Ok(body.subrange(skipped as int, skipped as int + 3 * plane))
            }
        },
    }
}

/// A whole bitmap as `BGRX32`, in the order its rows arrive.
pub open spec fn decompress_spec(src: Seq<u8>, width: nat, height: nat) -> Result<Seq<u8>, Malformed> {
    match colors_spec(src, width, height) {
        Err(e) => Err(e),
        Ok(colors) => Ok(composed(colors, width * height)),
    }
}

/// One row, as segments of literal bytes and runs of the last of them.
fn scanline(src: &[u8], width: usize) -> (res: Result<(Vec<u8>, usize), Malformed>)
    requires
        width <= 0xFFFF,
    ensures
        match res {
            Ok((row, taken)) => {
                &&& row_spec(cursor(WHAT, src@), seq![], 0, width as nat) == Ok::<(Seq<u8>, int), Malformed>(
                    (row@, taken as int),
                )
                &&& row@.len() == width
                &&& taken <= src@.len()
            },
            Err(e) => row_spec(cursor(WHAT, src@), seq![], 0, width as nat) == Err::<
                (Seq<u8>, int),
                Malformed,
            >(e),
        },
{
    let mut r = Reader::new(WHAT, src);
    let ghost start = r@;
    // A row that opens with a run repeats zero, because each row starts afresh.
    let mut last: u8 = 0;
    let mut row: Vec<u8> = Vec::new();
    assert(row@ =~= seq![]);
    while row.len() < width
        invariant
            width <= 0xFFFF,
            row@.len() <= width,
            r@.within(),
            r@.bytes == src@,
            start == cursor(WHAT, src@),
            row_spec(start, seq![], 0, width as nat) == row_spec(r@, row@, last, width as nat),
        decreases width - row.len(),
    {
        let control = r.u8()?;
        if control == 0 {
            return Err(r.refuse("a segment of no length", control as u64));
        }
        let high: usize = (control / 16) as usize;
        let low: usize = (control % 16) as usize;
        let (literals, run): (usize, usize) = if low == 1 {
            (0, 16 + high)
        } else if low == 2 {
            (0, 32 + high)
        } else {
            (high, low)
        };
        if row.len() + literals + run > width {
            return Err(r.refuse("a segment that runs past its row", control as u64));
        }
        let bytes = r.bytes(literals)?;
        let ghost before = row@;
        row.extend_from_slice(bytes);
        if literals > 0 {
            last = bytes[literals - 1];
        }
        push_repeated(&mut row, last, run);
        assert(row@ =~= before + bytes@ + repeated(last, run as nat));
    }
    Ok((row, r.at()))
}

fn push_repeated(out: &mut Vec<u8>, value: u8, n: usize)
    ensures
        final(out)@ == old(out)@ + repeated(value, n as nat),
{
    for i in 0..n
        invariant
            out@ == old(out)@ + repeated(value, i as nat),
    {
        out.push(value);
        assert(out@ =~= old(out)@ + repeated(value, (i + 1) as nat));
    }
    assert(out@ =~= old(out)@ + repeated(value, n as nat));
}

/// A byte moved by what a zig-zagged byte adds, round the byte.
fn undelta_byte(above: u8, v: u8) -> (r: u8)
    ensures
        r == (above + zigzag(v)) % 0x100,
{
    let sum: i32 = if v % 2 == 1 { above as i32 - (v as i32 + 1) / 2 } else { above as i32 + v as i32 / 2 };
    if sum < 0 {
        (sum + 0x100) as u8
    } else if sum >= 0x100 {
        (sum - 0x100) as u8
    } else {
        sum as u8
    }
}

/// One whole plane, appended to those before it.
fn scanlines(src: &[u8], width: usize, height: usize, out: &mut Vec<u8>) -> (res: Result<usize, Malformed>)
    requires
        width <= 0xFFFF,
        height <= 0xFFFF,
    ensures
        match res {
            Ok(taken) => {
                &&& rows_spec(src@, width as nat, height as nat) matches Ok((plane, at)) && at == taken
                    && final(out)@ == old(out)@ + plane && plane.len() == width * height
                &&& taken <= src@.len()
            },
            Err(e) => rows_spec(src@, width as nat, height as nat) == Err::<(Seq<u8>, int), Malformed>(e),
        },
{
    let mut at: usize = 0;
    let ghost held = out@;
    let ghost mut plane: Seq<u8> = seq![];
    assert(out@ =~= held + plane);
    assert(0 * width == 0) by (nonlinear_arith);
    for n in 0..height
        invariant
            width <= 0xFFFF,
            height <= 0xFFFF,
            at <= src@.len(),
            held == old(out)@,
            out@ == held + plane,
            plane.len() == n * width,
            rows_spec(src@, width as nat, n as nat) == Ok::<(Seq<u8>, int), Malformed>((plane, at as int)),
            forall|k: nat| #![trigger rows_spec(src@, width as nat, k)] k < n ==> rows_spec(
                src@,
                width as nat,
                k,
            ) is Ok,
    {
        let rest = slice_subrange(src, at, src.len());
        assert(rest@ =~= src@.skip(at as int));
        let ghost bad = rows_spec(src@, width as nat, (n + 1) as nat);
        let (row, taken) = match scanline(rest, width) {
            Ok(found) => found,
            Err(e) => {
                proof { rows_stop(src@, width as nat, (n + 1) as nat, height as nat, e); }
                return Err(e);
            },
        };
        let ghost above = plane;
        let ghost before = out@;
        proof {
            assert((n + 1) * width == n * width + width) by (nonlinear_arith);
            if n > 0 {
                assert(n * width >= width) by (nonlinear_arith)
                    requires
                        n >= 1,
                        width >= 0,
                ;
            }
        }
        if n == 0 {
            out.extend_from_slice(row.as_slice());
            proof {
                plane = above + row@;
                assert(out@ =~= held + plane);
            }
        } else {
            let have: usize = out.len();
            let start: usize = have - width;
            for i in 0..width
                invariant
                    row@.len() == width,
                    before.len() >= width,
                    have == before.len(),
                    start == before.len() - width,
                    out@.len() == before.len() + i,
                    forall|j: int| 0 <= j < before.len() ==> out@[j] == before[j],
                    forall|j: int| 0 <= j < i ==> out@[before.len() + j] == (before[start + j] + zigzag(row@[j])) % 0x100,
            {
                let value: u8 = undelta_byte(out[start + i], row[i]);
                out.push(value);
            }
            proof {
                let undone = undelta_spec(above.skip(above.len() - width), row@);
                plane = above + undone;
                assert forall|j: int| 0 <= j < width implies out@[before.len() + j] == undone[j] by {
                    assert(before[start + j] == above.skip(above.len() - width)[j]);
                }
                assert forall|k: int| 0 <= k < out@.len() implies out@[k] == (held + plane)[k] by {
                    if k >= before.len() {
                        let j = k - before.len();
                        assert(out@[before.len() + j] == undone[j]);
                    } else {
                        assert(before[k] == (held + above)[k]);
                    }
                }
                assert(out@ =~= held + plane);
            }
        }
        at = at + taken;
    }
    assert(height * width == width * height) by (nonlinear_arith);
    Ok(at)
}

/// A row that cannot be read stops its plane.
proof fn rows_stop(src: Seq<u8>, width: nat, n: nat, height: nat, e: Malformed)
    requires
        n <= height,
        rows_spec(src, width, n) == Err::<(Seq<u8>, int), Malformed>(e),
    ensures
        rows_spec(src, width, height) == Err::<(Seq<u8>, int), Malformed>(e),
    decreases height - n,
{
    if n < height {
        rows_stop(src, width, n + 1, height, e);
    }
}

/// The colour planes of a run-length coded bitmap.
fn unpack(body: &[u8], alpha: bool, width: usize, height: usize) -> (res: Result<Vec<u8>, Malformed>)
    requires
        width <= 0xFFFF,
        height <= 0xFFFF,
    ensures
        match planes_spec(body@, width as nat, height as nat, if alpha { 4 } else { 3 }) {
            Ok((planes, _)) => res matches Ok(v) && v@ == planes.skip(
                if alpha { width * height } else { 0 },
            ) && v@.len() == 3 * (width * height),
            Err(e) => res == Err::<Vec<u8>, Malformed>(e),
        },
{
    let count: usize = if alpha { 4 } else { 3 };
    let mut out: Vec<u8> = Vec::new();
    let mut at: usize = 0;
    let ghost mut planes: Seq<u8> = seq![];
    let ghost size = width * height;
    assert(0 * size == 0 && 3 * size == size + size + size && 4 * size == 3 * size + size) by (nonlinear_arith);
    for n in 0..count
        invariant
            width <= 0xFFFF,
            height <= 0xFFFF,
            count == (if alpha { 4int } else { 3int }),
            at <= body@.len(),
            planes_spec(body@, width as nat, height as nat, n as nat) == Ok::<(Seq<u8>, int), Malformed>(
                (planes, at as int),
            ),
            planes.len() == n * (width * height),
            out@ == (if alpha && n > 0 { planes.skip(width * height) } else { planes }),
    {
        let rest = slice_subrange(body, at, body.len());
        assert(rest@ =~= body@.skip(at as int));
        let mut plane: Vec<u8> = Vec::new();
        let taken: usize = match scanlines(rest, width, height, &mut plane) {
            Ok(taken) => taken,
            Err(e) => {
                proof {
                    planes_stop(body@, width as nat, height as nat, (n + 1) as nat, count as nat, e);
                }
                return Err(e);
            },
        };
        let ghost before = planes;
        let ghost held = out@;
        // How long a coded plane is can only be learnt by decoding it, the alpha plane's
        // too.
        if !(alpha && n == 0) {
            out.extend_from_slice(plane.as_slice());
        }
        proof {
            planes = before + plane@;
            assert((n + 1) * (width * height) == n * (width * height) + width * height) by (nonlinear_arith);
            if alpha && n > 0 {
                assert(n * (width * height) >= width * height) by (nonlinear_arith)
                    requires
                        n >= 1,
                        width * height >= 0,
                ;
            }
            assert(width * height >= 0) by (nonlinear_arith);
            assert(out@ =~= (if alpha { planes.skip(width * height) } else { planes }));
        }
        at = at + taken;
    }
    assert(planes.skip(0) =~= planes);
    assert(alpha ==> count * size == 4 * size);
    assert(!alpha ==> count * size == 3 * size);
    Ok(out)
}

/// A plane that cannot be read stops its bitmap.
proof fn planes_stop(body: Seq<u8>, width: nat, height: nat, n: nat, count: nat, e: Malformed)
    requires
        n <= count,
        planes_spec(body, width, height, n) == Err::<(Seq<u8>, int), Malformed>(e),
    ensures
        planes_spec(body, width, height, count) == Err::<(Seq<u8>, int), Malformed>(e),
    decreases count - n,
{
    if n < count {
        planes_stop(body, width, height, n + 1, count, e);
    }
}

/// The three planes, woven back into pixels.
fn compose(colors: &[u8], pixels: &mut Vec<u8>, plane: u64)
    requires
        colors@.len() == 3 * plane,
        plane <= 0xFFFF * 0xFFFF,
    ensures
        final(pixels)@ == composed(colors@, plane as nat),
{
    let len: usize = colors.len();
    let size: usize = plane as usize;
    pixels.clear();
    for at in 0..size
        invariant
            len == colors@.len(),
            len == 3 * size,
            size == plane,
            pixels@.len() == 4 * at,
            forall|j: int| 0 <= j < pixels@.len() ==> pixels@[j] == composed(colors@, plane as nat)[j],
    {
        pixels.push(colors[2 * size + at]);
        pixels.push(colors[size + at]);
        pixels.push(colors[at]);
        pixels.push(0);
    }
    assert(pixels@ =~= composed(colors@, plane as nat));
}

/// Decompress one bitmap into `pixels`, as `BGRX32` and bottom row first: the shape
/// an uncompressed bitmap already arrives in, so that everything above this sees one
/// layout.
///
/// `planes` is working space: where the planes of a coded bitmap are put.
pub fn decompress(src: &[u8], planes: &mut Vec<u8>, pixels: &mut Vec<u8>, width: u16, height: u16) -> (res:
    Result<(), Malformed>)
    ensures
        match decompress_spec(src@, width as nat, height as nat) {
            Ok(want) => res is Ok && final(pixels)@ == want,
            Err(e) => res == Err::<(), Malformed>(e) && final(pixels)@ == old(pixels)@ && final(planes)@
                == old(planes)@,
        },
        res is Ok ==> final(pixels)@.len() == 4 * (width * height),
{
    let mut r = Reader::new(WHAT, src);
    let header = r.u8()?;
    if header & COLOR_LOSS != 0 {
        return Err(r.refuse("a colour loss level", (header & COLOR_LOSS) as u64));
    }
    if header & SUBSAMPLED != 0 {
        return Err(r.refuse("subsampled chroma", header as u64));
    }
    let alpha = header & NO_ALPHA == 0;
    proof {
        assert(0 <= width * height <= 0xFFFF * 0xFFFF) by (nonlinear_arith)
            requires
                0 <= width <= 0xFFFF,
                0 <= height <= 0xFFFF,
        ;
    }
    let plane: u64 = width as u64 * height as u64;
    let body = r.rest();
    if header & RLE != 0 {
        let colors = unpack(body, alpha, width as usize, height as usize)?;
        *planes = colors;
        compose(planes.as_slice(), pixels, plane);
    } else {
        // The alpha plane comes first and is not wanted; the padding byte after the
        // colour planes is not wanted either, and is what tells a length check that
        // the whole stream arrived.
        let skipped: u64 = if alpha { plane } else { 0 };
        let need: u64 = skipped + plane * 3 + 1;
        if (body.len() as u64) < need {
            return Err(
                Malformed::Short { what: WHAT, len: src.len(), at: r.at(), need: need as usize },
            );
        }
        let colors = slice_subrange(body, skipped as usize, (skipped + plane * 3) as usize);
        compose(colors, pixels, plane);
    }
    Ok(())
}

/// A row coded as no difference at all repeats the row above it.
pub proof fn no_difference_repeats_the_row_above(above: Seq<u8>)
    ensures
        undelta_spec(above, repeated(0, above.len())) == above,
{
    assert(undelta_spec(above, repeated(0, above.len())) =~= above);
}

/// Every difference between two bytes has a zig-zagged byte that stands for it.
pub proof fn every_difference_can_be_coded(above: u8, below: u8)
    ensures
        exists|v: u8| (above + #[trigger] zigzag(v)) % 0x100 == below,
{
    let d = below - above;
    let v: u8 = if 0 <= d < 0x80 {
        (2 * d) as u8
    } else if d >= 0x80 {
        (2 * (0x100 - d) - 1) as u8
    } else if d >= -0x80 {
        (-2 * d - 1) as u8
    } else {
        (2 * (d + 0x100)) as u8
    };
    assert((above + zigzag(v)) % 0x100 == below);
}

/// A desktop has no transparency: a stream with an alpha plane shows what it shows without
/// one.
pub proof fn an_alpha_plane_is_stepped_over(alpha: Seq<u8>, colors: Seq<u8>, end: u8, width: nat, height: nat)
    requires
        alpha.len() == width * height,
        colors.len() == 3 * (width * height),
    ensures
        decompress_spec(seq![0u8] + alpha + colors.push(end), width, height) == decompress_spec(
            seq![NO_ALPHA] + colors.push(end),
            width,
            height,
        ),
        decompress_spec(seq![NO_ALPHA] + colors.push(end), width, height) == Ok::<Seq<u8>, Malformed>(
            composed(colors, width * height),
        ),
{
    assert(0u8 & 0x20u8 == 0 && 0u8 & 0x07u8 == 0 && 0u8 & 0x08u8 == 0 && 0u8 & 0x10u8 == 0 && 0x20u8 & 0x20u8
        == 0x20u8 && 0x20u8 & 0x07u8 == 0 && 0x20u8 & 0x08u8 == 0 && 0x20u8 & 0x10u8 == 0) by (bit_vector);
    let plane = width * height;
    let with = seq![0u8] + alpha + colors.push(end);
    let without = seq![NO_ALPHA] + colors.push(end);
    let body = with.skip(1);
    assert(cursor(WHAT, with).plus(1).rest() =~= body);
    assert(cursor(WHAT, without).plus(1).rest() =~= without.skip(1));
    assert(body.subrange(plane as int, plane as int + 3 * plane) =~= colors);
    assert(without.skip(1).subrange(0, 3 * plane as int) =~= colors);
}

/// One segment of a row as it is written: bytes as they are, and then how many more times
/// the last of the row's bytes so far that were written as they are is repeated.
pub struct Segment {
    pub literals: Seq<u8>,
    pub run: nat,
}

impl Segment {
    /// Whether a segment can be written: up to fifteen bytes and a run of three to fifteen,
    /// or no bytes and a run of sixteen to forty-seven.
    pub open spec fn fits(self) -> bool {
        if self.run < 16 {
            self.literals.len() <= 15 && self.run != 1 && self.run != 2 && self.literals.len() + self.run > 0
        } else {
            self.literals.len() == 0 && self.run <= 47
        }
    }

    /// The segment in the stream: a byte that counts, and the bytes that stand as they are.
    pub open spec fn bytes(self) -> Seq<u8> {
        seq![
            (if self.run >= 32 {
                16 * (self.run - 32) + 2
            } else if self.run >= 16 {
                16 * (self.run - 16) + 1
            } else {
                16int * self.literals.len() + self.run
            }) as u8,
        ] + self.literals
    }

    /// The byte that is repeated after it, with this the one before it.
    pub open spec fn last(self, last: u8) -> u8 {
        if self.literals.len() > 0 { self.literals[self.literals.len() - 1] } else { last }
    }

    /// What it stands for.
    pub open spec fn shown(self, last: u8) -> Seq<u8> {
        self.literals + Seq::new(self.run, |i: int| self.last(last))
    }
}

pub open spec fn segments_fit(segments: Seq<Segment>) -> bool {
    forall|i: int| 0 <= i < segments.len() ==> (#[trigger] segments[i]).fits()
}

/// Segments in the stream, one after another.
pub open spec fn segment_bytes(segments: Seq<Segment>) -> Seq<u8>
    decreases segments.len(),
{
    if segments.len() == 0 { seq![] } else { segments[0].bytes() + segment_bytes(segments.skip(1)) }
}

/// What segments stand for, one after another.
pub open spec fn segments_shown(segments: Seq<Segment>, last: u8) -> Seq<u8>
    decreases segments.len(),
{
    if segments.len() == 0 {
        seq![]
    } else {
        segments[0].shown(last) + segments_shown(segments.skip(1), segments[0].last(last))
    }
}

proof fn segments_are_read_in_turn(c: Cursor, out: Seq<u8>, last: u8, segments: Seq<Segment>, width: nat)
    requires
        segments_fit(segments),
        c.faces(segment_bytes(segments)),
        out.len() + segments_shown(segments, last).len() == width,
    ensures
        row_spec(c, out, last, width) == Ok::<(Seq<u8>, int), Malformed>(
            (out + segments_shown(segments, last), c.at + segment_bytes(segments).len()),
        ),
    decreases segments.len(),
{
    if segments.len() == 0 {
        assert(out + segments_shown(segments, last) =~= out);
    } else {
        let (s, rest) = (segments[0], segments.skip(1));
        assert(s.fits());
        let n = s.literals.len();
        super::wire::facing_both(c, s.bytes(), segment_bytes(rest));
        super::wire::facing(c, s.bytes());
        let control = s.bytes()[0];
        assert(c.bytes[c.at + 0] == control);
        assert(control != 0);
        if s.run >= 32 {
            assert(control / 16 == s.run - 32 && control % 16 == 2);
        } else if s.run >= 16 {
            assert(control / 16 == s.run - 16 && control % 16 == 1);
        } else {
            assert(control / 16 == n && control % 16 == s.run);
        }
        assert(segment(control) == (n, s.run));
        let d = c.plus(1);
        let got = d.bytes.subrange(d.at, d.at + n);
        assert forall|i: int| 0 <= i < n implies #[trigger] got[i] == s.literals[i] by {
            assert(s.bytes()[1 + i] == s.literals[i]);
            assert(c.bytes[c.at + (1 + i)] == s.bytes()[1 + i]);
        }
        assert(got =~= s.literals);
        let shown = s.shown(last);
        let next = out + got + repeated(s.last(last), s.run);
        assert(next =~= out + shown);
        assert(d.plus(n as int) == c.plus(s.bytes().len() as int));
        assert forall|i: int| 0 <= i < rest.len() implies (#[trigger] rest[i]).fits() by {
            assert(rest[i] == segments[i + 1]);
        }
        segments_are_read_in_turn(d.plus(n as int), next, s.last(last), rest, width);
        assert(next + segments_shown(rest, s.last(last)) =~= out + segments_shown(segments, last));
    }
}

/// A row reads back as what its segments stand for, and takes as much of the stream as they
/// do: bytes as they are, and each run as long as it was written, up to fifteen beside the
/// bytes and up to forty-seven on its own.
pub proof fn a_row_reads_back(segments: Seq<Segment>, more: Seq<u8>)
    requires
        segments_fit(segments),
    ensures
        ({
            let row = segments_shown(segments, 0);
            row_spec(cursor(WHAT, segment_bytes(segments) + more), seq![], 0, row.len()) == Ok::<
                (Seq<u8>, int),
                Malformed,
            >((row, segment_bytes(segments).len() as int))
        }),
{
    let row = segments_shown(segments, 0);
    let src = segment_bytes(segments) + more;
    let c = cursor(WHAT, src);
    assert(src.subrange(0, segment_bytes(segments).len() as int) =~= segment_bytes(segments));
    assert(seq![] + row =~= row);
    segments_are_read_in_turn(c, seq![], 0, segments, row.len());
}

/// The byte that stands for what a byte differs by from the one above it: twice a rise, and
/// one less than twice a fall, taken the short way round the byte.
pub open spec fn difference(above: u8, below: u8) -> u8 {
    let d = (below - above) % 0x100;
    (if d < 0x80 { 2 * d } else { 2 * (0x100 - d) - 1 }) as u8
}

/// A byte comes back from the byte above it and what it differs by.
pub proof fn a_difference_reads_back(above: u8, below: u8)
    ensures
        undelta_spec(seq![above], seq![difference(above, below)]) == seq![below],
{
    let v = difference(above, below);
    assert((above + zigzag(v)) % 0x100 == below as int);
    assert(undelta_spec(seq![above], seq![v]) =~= seq![below]);
}

/// A plane as it is written: the segments of each of its rows.
pub type Coded = Seq<Seq<Segment>>;

/// The rows of a plane in the stream, one after another.
pub open spec fn coded_bytes(rows: Coded) -> Seq<u8>
    decreases rows.len(),
{
    if rows.len() == 0 { seq![] } else { coded_bytes(rows.drop_last()) + segment_bytes(rows.last()) }
}

/// The segments stand for these rows: the first as it is, and every other as what it differs
/// by from the one above it.
pub open spec fn codes(rows: Coded, plane: Seq<Seq<u8>>, width: nat) -> bool {
    &&& rows.len() == plane.len()
    &&& forall|y: int|
        #![trigger plane[y]]
        #![trigger rows[y]]
        0 <= y < plane.len() ==> {
            &&& plane[y].len() == width
            &&& segments_fit(rows[y])
            &&& segments_shown(rows[y], 0) == if y == 0 {
                plane[0]
            } else {
                Seq::new(width, |x: int| difference(plane[y - 1][x], plane[y][x]))
            }
        }
}

/// Rows one after another.
pub open spec fn flattened(plane: Seq<Seq<u8>>) -> Seq<u8>
    decreases plane.len(),
{
    if plane.len() == 0 { seq![] } else { flattened(plane.drop_last()) + plane.last() }
}

proof fn rows_are_this_long(plane: Seq<Seq<u8>>, width: nat)
    requires
        forall|y: int| 0 <= y < plane.len() ==> (#[trigger] plane[y]).len() == width,
    ensures
        flattened(plane).len() == plane.len() * width,
    decreases plane.len(),
{
    if plane.len() == 0 {
        assert(plane.len() * width == 0) by (nonlinear_arith)
            requires
                plane.len() == 0,
        ;
    } else {
        let before = plane.drop_last();
        let n = before.len();
        assert forall|y: int| 0 <= y < n implies (#[trigger] before[y]).len() == width by {
            assert(before[y] == plane[y]);
        }
        rows_are_this_long(before, width);
        assert(plane[plane.len() - 1].len() == width);
        assert(plane.len() * width == n * width + width) by (nonlinear_arith)
            requires
                plane.len() == n + 1,
        ;
    }
}

proof fn a_byte_stands_in_its_place(plane: Seq<Seq<u8>>, width: nat, x: int, y: int)
    requires
        forall|y: int| 0 <= y < plane.len() ==> (#[trigger] plane[y]).len() == width,
        0 <= y < plane.len(),
        0 <= x < width,
    ensures
        0 <= y * width + x < plane.len() * width,
        flattened(plane).len() == plane.len() * width,
        flattened(plane)[y * width + x] == plane[y][x],
    decreases plane.len(),
{
    let before = plane.drop_last();
    let n = before.len();
    assert forall|y: int| 0 <= y < n implies (#[trigger] before[y]).len() == width by {
        assert(before[y] == plane[y]);
    }
    rows_are_this_long(before, width);
    rows_are_this_long(plane, width);
    assert(plane.len() * width == n * width + width) by (nonlinear_arith)
        requires
            plane.len() == n + 1,
    ;
    if y < n {
        a_byte_stands_in_its_place(before, width, x, y);
    } else {
        assert(y * width == n * width && n * width >= 0) by (nonlinear_arith)
            requires
                y == n,
                n >= 0,
                width >= 0,
        ;
    }
}

/// A plane reads back as the rows that were written.
proof fn a_plane_reads_back(rows: Coded, plane: Seq<Seq<u8>>, width: nat, more: Seq<u8>)
    requires
        codes(rows, plane, width),
    ensures
        rows_spec(coded_bytes(rows) + more, width, plane.len()) == Ok::<(Seq<u8>, int), Malformed>(
            (flattened(plane), coded_bytes(rows).len() as int),
        ),
    decreases plane.len(),
{
    let src = coded_bytes(rows) + more;
    if plane.len() > 0 {
        let n = plane.len();
        let (rows1, plane1) = (rows.drop_last(), plane.drop_last());
        assert forall|y: int|
            #![trigger plane1[y]]
            #![trigger rows1[y]]
            0 <= y < plane1.len() implies {
            &&& plane1[y].len() == width
            &&& segments_fit(rows1[y])
            &&& segments_shown(rows1[y], 0) == if y == 0 {
                plane1[0]
            } else {
                Seq::new(width, |x: int| difference(plane1[y - 1][x], plane1[y][x]))
            }
        } by {
            assert(plane1[y] == plane[y] && rows1[y] == rows[y]);
            if y > 0 {
                assert(plane1[y - 1] == plane[y - 1]);
            } else {
                assert(plane1[0] == plane[0]);
            }
        }
        let (last, rest) = (rows[n - 1], segment_bytes(rows[n - 1]) + more);
        a_plane_reads_back(rows1, plane1, width, rest);
        assert(coded_bytes(rows1) + rest =~= src);
        let at = coded_bytes(rows1).len() as int;
        assert(src.skip(at) =~= rest);
        assert(plane[n - 1].len() == width);
        let row = segments_shown(last, 0);
        a_row_reads_back(last, more);
        assert(row.len() == width);
        assert forall|y: int| 0 <= y < plane1.len() implies (#[trigger] plane1[y]).len() == width by {
            assert(plane1[y] == plane[y]);
        }
        rows_are_this_long(plane1, width);
        let above = flattened(plane1);
        if n > 1 {
            let up = above.skip(above.len() - width);
            assert((n - 2) * width + width == (n - 1) * width) by (nonlinear_arith);
            assert((n - 2) * width >= 0) by (nonlinear_arith)
                requires
                    n >= 2,
            ;
            assert forall|x: int| 0 <= x < width implies #[trigger] undelta_spec(up, row)[x] == plane[n - 1][x] by {
                a_byte_stands_in_its_place(plane1, width, x, n - 2);
                assert(up[x] == plane[n - 2][x]);
                let (a, b) = (plane[n - 2][x], plane[n - 1][x]);
                a_difference_reads_back(a, b);
                assert(undelta_spec(seq![a], seq![difference(a, b)])[0] == b);
                assert(row[x] == difference(a, b));
            }
            assert(undelta_spec(up, row) =~= plane[n - 1]);
        } else {
            assert(row == plane[0]);
        }
    }
}

/// A bitmap sent as coded planes of red, green and blue shows the rows that were written:
/// blue first in every pixel, row after row in the order they were sent.
pub proof fn a_coded_bitmap_reads_back(
    red: Coded,
    green: Coded,
    blue: Coded,
    r: Seq<Seq<u8>>,
    g: Seq<Seq<u8>>,
    b: Seq<Seq<u8>>,
    width: nat,
    height: nat,
    x: int,
    y: int,
)
    requires
        codes(red, r, width),
        codes(green, g, width),
        codes(blue, b, width),
        r.len() == height,
        g.len() == height,
        b.len() == height,
        0 <= x < width,
        0 <= y < height,
    ensures
        ({
            let src = seq![0x30u8] + coded_bytes(red) + coded_bytes(green) + coded_bytes(blue);
            match decompress_spec(src, width, height) {
                Ok(pixels) => {
                    let at = 4 * (y * width + x);
                    &&& pixels.len() == 4 * (width * height)
                    &&& 0 <= at && at + 4 <= pixels.len()
                    &&& pixels.subrange(at, at + 4) == seq![b[y][x], g[y][x], r[y][x], 0u8]
                },
                Err(_) => false,
            }
        }),
{
    assert(0x30u8 & 0x20u8 == 0x20 && 0x30u8 & 0x07u8 == 0 && 0x30u8 & 0x08u8 == 0 && 0x30u8 & 0x10u8 == 0x10)
        by (bit_vector);
    let (cr, cg, cb) = (coded_bytes(red), coded_bytes(green), coded_bytes(blue));
    let src = seq![0x30u8] + cr + cg + cb;
    let body = cr + cg + cb;
    assert(cursor(WHAT, src).plus(1).rest() =~= body);
    three_planes_read_back(red, green, blue, r, g, b, width, height);
    let (fr, fg, fb) = (flattened(r), flattened(g), flattened(b));
    let plane = width * height;
    assert(height * width == plane) by (nonlinear_arith)
        requires
            plane == width * height,
    ;
    assert forall|y: int| 0 <= y < height implies (#[trigger] r[y]).len() == width by {}
    assert forall|y: int| 0 <= y < height implies (#[trigger] g[y]).len() == width by {}
    assert forall|y: int| 0 <= y < height implies (#[trigger] b[y]).len() == width by {}
    a_byte_stands_in_its_place(r, width, x, y);
    a_byte_stands_in_its_place(g, width, x, y);
    a_byte_stands_in_its_place(b, width, x, y);
    let colors = (fr + fg + fb).skip(0);
    assert(colors =~= fr + fg + fb);
    pixels_are_woven(fr, fg, fb, plane, y * width + x);
}

proof fn pixels_are_woven(red: Seq<u8>, green: Seq<u8>, blue: Seq<u8>, plane: nat, i: int)
    requires
        red.len() == plane,
        green.len() == plane,
        blue.len() == plane,
        0 <= i < plane,
    ensures
        composed(red + green + blue, plane).len() == 4 * plane,
        composed(red + green + blue, plane).subrange(4 * i, 4 * i + 4) == seq![
            blue[i],
            green[i],
            red[i],
            0u8,
        ],
{
    assert(composed(red + green + blue, plane).subrange(4 * i, 4 * i + 4) =~= seq![
        blue[i],
        green[i],
        red[i],
        0u8,
    ]);
}

#[verifier::rlimit(60)]
proof fn three_planes_read_back(
    red: Coded,
    green: Coded,
    blue: Coded,
    r: Seq<Seq<u8>>,
    g: Seq<Seq<u8>>,
    b: Seq<Seq<u8>>,
    width: nat,
    height: nat,
)
    requires
        codes(red, r, width),
        codes(green, g, width),
        codes(blue, b, width),
        r.len() == height,
        g.len() == height,
        b.len() == height,
    ensures
        planes_spec(coded_bytes(red) + coded_bytes(green) + coded_bytes(blue), width, height, 3) matches Ok(
            (planes, _),
        ) && planes == flattened(r) + flattened(g) + flattened(b),
{
    let (cr, cg, cb) = (coded_bytes(red), coded_bytes(green), coded_bytes(blue));
    let body = cr + cg + cb;
    let (fr, fg, fb) = (flattened(r), flattened(g), flattened(b));
    a_plane_reads_back(red, r, width, cg + cb);
    a_plane_reads_back(green, g, width, cb);
    a_plane_reads_back(blue, b, width, seq![]);
    assert(body.skip(0) =~= cr + (cg + cb));
    assert(planes_spec(body, width, height, 0) == Ok::<(Seq<u8>, int), Malformed>((seq![], 0)));
    assert(seq![] + fr =~= fr);
    assert(planes_spec(body, width, height, 1) == Ok::<(Seq<u8>, int), Malformed>((fr, cr.len() as int)));
    assert(body.skip(cr.len() as int) =~= cg + cb);
    assert(planes_spec(body, width, height, 2) == Ok::<(Seq<u8>, int), Malformed>(
        (fr + fg, (cr.len() + cg.len()) as int),
    ));
    assert(body.skip((cr.len() + cg.len()) as int) =~= cb + seq![]);
}

/// A bitmap sent as plain planes shows their bytes: red, then green, then blue, with alpha
/// before them where there is one, and blue first in every pixel.
pub proof fn plain_planes_show_their_bytes(
    alpha: Seq<u8>,
    red: Seq<u8>,
    green: Seq<u8>,
    blue: Seq<u8>,
    end: u8,
    width: nat,
    height: nat,
    i: int,
)
    requires
        alpha.len() == width * height,
        red.len() == width * height,
        green.len() == width * height,
        blue.len() == width * height,
        0 <= i < width * height,
    ensures
        ({
            let with = decompress_spec(seq![0u8] + alpha + (red + green + blue).push(end), width, height);
            let without = decompress_spec(seq![0x20u8] + (red + green + blue).push(end), width, height);
            &&& with == without
            &&& match without {
                Ok(pixels) => pixels.len() == 4 * (width * height) && pixels.subrange(4 * i, 4 * i + 4)
                    == seq![blue[i], green[i], red[i], 0u8],
                Err(_) => false,
            }
        }),
{
    let colors = red + green + blue;
    let plane = width * height;
    an_alpha_plane_is_stepped_over(alpha, colors, end, width, height);
    pixels_are_woven(red, green, blue, plane, i);
}

} // verus!
