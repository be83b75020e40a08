//! NSCodec, as ClearCodec's subcodec for the parts of a rectangle that are neither
//! flat nor repeated.
//!
//! NSCodec ([MS-RDPNSC]) is a planar codec: a bitmap is split into luma, two chroma
//! planes in the YCoCg space with a few low bits dropped (the *colour loss level*),
//! and an alpha plane, each plane run-length coded on its own. The chroma planes may
//! also be subsampled 2 by 2. Windows draws most of its pictures and anti-aliased text
//! through this subcodec inside ClearCodec, so a lit desktop needs it; the standalone
//! `NSCODEC` bitmap codec is never sent and is not here.

use vstd::arithmetic::power2::{lemma2_to64, pow2};
use vstd::prelude::*;
use vstd::slice::slice_subrange;

use super::bits::power;
use super::wire::{
    cursor, facing, facing_both, le32, le32_at, Cursor, Malformed, Reader, Step,
};

verus! {

pub const WHAT: &'static str = "an NSCodec bitmap";

pub open spec fn refusal(field: &'static str, value: u64) -> Malformed {
    Malformed::Refused { what: WHAT, field, value }
}

fn refuse(field: &'static str, value: u64) -> (e: Malformed)
    ensures
        e == refusal(field, value),
{
    Malformed::Refused { what: WHAT, field, value }
}

/// A width rounded up to 8, which chroma planes are coded at.
pub open spec fn wide(width: nat) -> nat {
    (width + 7) / 8 * 8
}

/// A height rounded up to 2.
pub open spec fn tall(height: nat) -> nat {
    (height + 1) / 2 * 2
}

pub open spec fn repeated(value: u8, n: nat) -> Seq<u8> {
    Seq::new(n, |i: int| value)
}

/// NSCodec's run-length coding of one plane, [MS-RDPNSC] 2.2.2.1: a byte repeated
/// is a run, its length in the byte after or, past 255, in the four after that;
/// the last four bytes of a plane are always raw.
pub open spec fn rle_spec(c: Cursor, out: Seq<u8>, end: nat) -> Result<Seq<u8>, Malformed>
    decreases c.left(),
{
    let left = end - out.len();
    if left <= 4 {
        match c.bytes(left) {
            Step::Stop(e) => Err(e),
            Step::Got(raw, _) => Ok(out + raw),
        }
    } else {
        match c.u8() {
            Step::Stop(e) => Err(e),
            Step::Got(value, c1) => if left == 5 {
                rle_spec(c1, out.push(value), end)
            } else if c1.left() == 0 {
                Err(refusal("a run-length plane cut short at", out.len() as u64))
            } else if c1.bytes[c1.at] != value {
                rle_spec(c1, out.push(value), end)
            } else {
                match run_step(c1.plus(1)) {
                    Step::Stop(e) => Err(e),
                    Step::Got(run, c2) => if run > left - 4 {
                        Err(refusal("a run past its plane", run as u64))
                    } else if c2.left() < c.left() {
                        rle_spec(c2, out + repeated(value, run), end)
                    } else {
                        Ok(out)
                    },
                }
            },
        }
    }
}

/// How long a run is.
pub open spec fn run_step(c: Cursor) -> Step<nat> {
    match c.u8() {
        Step::Stop(e) => Step::Stop(e),
        Step::Got(short, c) => if short < 0xFF {
            Step::Got((short + 2) as nat, c)
        } else {
            match c.u32_le() {
                Step::Stop(e) => Step::Stop(e),
                Step::Got(long, c) => Step::Got(long as nat, c),
            }
        },
    }
}

fn push_repeated(out: &mut Vec<u8>, value: u8, n: u64)
    ensures
        final(out)@ == old(out)@ + repeated(value, n as nat),
{
    for i in 0..n
        invariant
            out@ == old(out)@ + repeated(value, i as nat),
    {
        out.push(value);
        assert(out@ =~= old(out)@ + repeated(value, (i + 1) as nat));
    }
    assert(out@ =~= old(out)@ + repeated(value, n as nat));
}

fn rle_decode(coded: &[u8], end: u64) -> (res: Result<Vec<u8>, Malformed>)
    ensures
        match res {
            Ok(out) => rle_spec(cursor(WHAT, coded@), seq![], end as nat) == Ok::<Seq<u8>, Malformed>(
                out@,
            ) && out@.len() == end,
            Err(e) => rle_spec(cursor(WHAT, coded@), seq![], end as nat) == Err::<Seq<u8>, Malformed>(e),
        },
{
    let mut r = Reader::new(WHAT, coded);
    let ghost start = r@;
    let mut out: Vec<u8> = Vec::new();
    assert(out@ =~= seq![]);
    while end - out.len() as u64 > 4
        invariant
            r@.within(),
            start == cursor(WHAT, coded@),
            out@.len() <= end,
            rle_spec(start, seq![], end as nat) == rle_spec(r@, out@, end as nat),
        decreases r@.left(),
    {
        let left: u64 = end - out.len() as u64;
        let value = r.u8()?;
        if left == 5 {
            out.push(value);
            continue;
        }
        let rest = r.rest();
        if rest.len() == 0 {
            return Err(refuse("a run-length plane cut short at", out.len() as u64));
        }
        if rest[0] != value {
            out.push(value);
            continue;
        }
        r.u8()?;
        let short = r.u8()?;
        let run: u64 = if short < 0xFF { short as u64 + 2 } else { r.u32_le()? as u64 };
        if run > left - 4 {
            return Err(refuse("a run past its plane", run));
        }
        push_repeated(&mut out, value, run);
    }
    let left: u64 = end - out.len() as u64;
    let raw = r.bytes(left as usize)?;
    let ghost before = out@;
    out.extend_from_slice(raw);
    assert(out@ =~= before + raw@);
    Ok(out)
}

/// A plane of `length` samples: all ones where nothing was sent, run-length coded where
/// less was sent than it holds, and raw otherwise.
pub open spec fn plane_spec(coded: Seq<u8>, length: nat) -> Result<Seq<u8>, Malformed> {
    if coded.len() == 0 {
        Ok(repeated(0xFF, length))
    } else if coded.len() < length {
        rle_spec(cursor(WHAT, coded), seq![], length)
    } else {
        Ok(coded.take(length as int))
    }
}

fn plane(coded: &[u8], length: u64) -> (res: Result<Vec<u8>, Malformed>)
    ensures
        match res {
            Ok(out) => plane_spec(coded@, length as nat) == Ok::<Seq<u8>, Malformed>(out@) && out@.len()
                == length,
            Err(e) => plane_spec(coded@, length as nat) == Err::<Seq<u8>, Malformed>(e),
        },
{
    if coded.len() == 0 {
        let mut out: Vec<u8> = Vec::new();
        push_repeated(&mut out, 0xFF, length);
        assert(out@ =~= repeated(0xFF, length as nat));
        Ok(out)
    } else if (coded.len() as u64) < length {
        rle_decode(coded, length)
    } else {
        let mut out: Vec<u8> = Vec::new();
        let raw = slice_subrange(coded, 0, length as usize);
        out.extend_from_slice(raw);
        assert(out@ =~= coded@.take(length as int));
        Ok(out)
    }
}

/// What a bitmap's header says: how many bytes each plane was coded in, how many low
/// bits of colour were dropped, and whether colour is at half the resolution.
pub struct Header {
    pub planes: (u32, u32, u32, u32),
    pub color_loss: u8,
    pub subsampled: bool,
}

pub open spec fn header_step(c: Cursor) -> Step<Header> {
    match c.u32_le() {
        Step::Stop(e) => Step::Stop(e),
        Step::Got(p0, c) => match c.u32_le() {
            Step::Stop(e) => Step::Stop(e),
            Step::Got(p1, c) => match c.u32_le() {
                Step::Stop(e) => Step::Stop(e),
                Step::Got(p2, c) => match c.u32_le() {
                    Step::Stop(e) => Step::Stop(e),
                    Step::Got(p3, c) => match c.u8() {
                        Step::Stop(e) => Step::Stop(e),
                        Step::Got(color_loss, c) => if color_loss < 1 || color_loss > 7 {
                            Step::Stop(refusal("a colour loss level", color_loss as u64))
                        } else {
                            match c.u8() {
                                Step::Stop(e) => Step::Stop(e),
                                Step::Got(sub, c) => match c.u16_le() {
                                    Step::Stop(e) => Step::Stop(e),
                                    Step::Got(_, c) => Step::Got(
                                        Header {
                                            planes: (p0, p1, p2, p3),
                                            color_loss,
                                            subsampled: sub != 0,
                                        },
                                        c,
                                    ),
                                },
                            }
                        },
                    },
                },
            },
        },
    }
}

fn header(r: &mut Reader<'_>) -> (res: Result<Header, Malformed>)
    ensures
        match res {
            Ok(h) => header_step(old(r)@) == Step::Got(h, final(r)@) && 1 <= h.color_loss <= 7,
            Err(e) => header_step(old(r)@) == Step::<Header>::Stop(e),
        },
        final(r)@.within(),
{
    let p0 = r.u32_le()?;
    let p1 = r.u32_le()?;
    let p2 = r.u32_le()?;
    let p3 = r.u32_le()?;
    let color_loss = r.u8()?;
    if color_loss < 1 || color_loss > 7 {
        return Err(refuse("a colour loss level", color_loss as u64));
    }
    let sub = r.u8()?;
    r.u16_le()?; // reserved
    Ok(Header { planes: (p0, p1, p2, p3), color_loss, subsampled: sub != 0 })
}

/// One plane of the bitmap, coded in `bytes` bytes.
pub open spec fn plane_step(c: Cursor, bytes: u32, length: nat) -> Step<Seq<u8>> {
    match c.bytes(bytes as int) {
        Step::Stop(e) => Step::Stop(e),
        Step::Got(coded, c) => match plane_spec(coded, length) {
            Err(e) => Step::Stop(e),
            Ok(plane) => Step::Got(plane, c),
        },
    }
}

fn read_plane(r: &mut Reader<'_>, bytes: u32, length: u64) -> (res: Result<Vec<u8>, Malformed>)
    ensures
        match res {
            Ok(v) => plane_step(old(r)@, bytes, length as nat) == Step::Got(v@, final(r)@) && v@.len()
                == length,
            Err(e) => plane_step(old(r)@, bytes, length as nat) == Step::<Seq<u8>>::Stop(e),
        },
        final(r)@.within(),
{
    let coded = r.bytes(bytes as usize)?;
    plane(coded, length)
}

/// How many samples the luma plane holds.
pub open spec fn luma_length(width: nat, height: nat, subsampled: bool) -> nat {
    if subsampled { wide(width) * height } else { width * height }
}

/// How many samples each chroma plane holds.
pub open spec fn chroma_length(width: nat, height: nat, subsampled: bool) -> nat {
    if subsampled { (wide(width) / 2) * (tall(height) / 2) } else { width * height }
}

/// A colour held to a byte.
pub open spec fn clip_spec(v: int) -> u8 {
    (if v < 0 { 0 } else if v > 255 { 255 } else { v }) as u8
}

/// A chroma byte, its dropped low bits restored as zeros, read as the signed value it
/// was before they were dropped.
pub open spec fn chroma(byte: u8, color_loss: u8) -> int {
    let v = (byte * pow2((color_loss - 1) as nat)) % 0x100;
    if v < 0x80 { v as int } else { v - 0x100 }
}

/// A pixel, blue first, from its luma and its chroma.
pub open spec fn pixel_spec(luma: u8, co: int, cg: int) -> Seq<u8> {
    seq![clip_spec(luma - co - cg), clip_spec(luma + cg), clip_spec(luma + co - cg)]
}

/// Where a pixel's luma is in its plane.
pub open spec fn luma_at(x: int, y: int, width: nat, subsampled: bool) -> int {
    if subsampled { y * wide(width) + x } else { y * width + x }
}

/// Where a pixel's chroma is in its plane.
pub open spec fn chroma_at(x: int, y: int, width: nat, subsampled: bool) -> int {
    if subsampled { (y / 2) * (wide(width) / 2) + x / 2 } else { y * width + x }
}

/// The pixel at (`x`, `y`).
pub open spec fn bitmap_pixel(
    h: Header,
    width: nat,
    y_plane: Seq<u8>,
    co_plane: Seq<u8>,
    cg_plane: Seq<u8>,
    x: int,
    y: int,
) -> Seq<u8> {
    let at = chroma_at(x, y, width, h.subsampled);
    pixel_spec(
        y_plane[luma_at(x, y, width, h.subsampled)],
        chroma(co_plane[at], h.color_loss),
        chroma(cg_plane[at], h.color_loss),
    )
}

/// The first `n` pixels of a row.
pub open spec fn row_spec(
    h: Header,
    width: nat,
    y_plane: Seq<u8>,
    co_plane: Seq<u8>,
    cg_plane: Seq<u8>,
    y: int,
    n: nat,
) -> Seq<u8>
    decreases n,
{
    if n == 0 {
        seq![]
    } else {
        row_spec(h, width, y_plane, co_plane, cg_plane, y, (n - 1) as nat) + bitmap_pixel(
            h,
            width,
            y_plane,
            co_plane,
            cg_plane,
            n - 1,
            y,
        )
    }
}

/// The first `n` rows of a bitmap, packed, three bytes a pixel, blue first.
pub open spec fn rows_spec(
    h: Header,
    width: nat,
    y_plane: Seq<u8>,
    co_plane: Seq<u8>,
    cg_plane: Seq<u8>,
    n: nat,
) -> Seq<u8>
    decreases n,
{
    if n == 0 {
        seq![]
    } else {
        rows_spec(h, width, y_plane, co_plane, cg_plane, (n - 1) as nat) + row_spec(
            h,
            width,
            y_plane,
            co_plane,
            cg_plane,
            n - 1,
            width,
        )
    }
}

/// What a bitmap is made of: what its header says, and its luma and chroma samples.
pub struct Planes {
    pub header: Header,
    pub y: Seq<u8>,
    pub co: Seq<u8>,
    pub cg: Seq<u8>,
}

/// The planes of a bitmap. Alpha has to be there too, and is dropped.
pub open spec fn planes_spec(src: Seq<u8>, width: nat, height: nat) -> Result<Planes, Malformed> {
    match header_step(cursor(WHAT, src)) {
        Step::Stop(e) => Err(e),
        Step::Got(h, c) => {
            let chroma = chroma_length(width, height, h.subsampled);
            match plane_step(c, h.planes.0, luma_length(width, height, h.subsampled)) {
                Step::Stop(e) => Err(e),
                Step::Got(y, c) => match plane_step(c, h.planes.1, chroma) {
                    Step::Stop(e) => Err(e),
                    Step::Got(co, c) => match plane_step(c, h.planes.2, chroma) {
                        Step::Stop(e) => Err(e),
                        Step::Got(cg, c) => match plane_step(c, h.planes.3, width * height) {
                            Step::Stop(e) => Err(e),
                            Step::Got(_, _) => Ok(Planes { header: h, y, co, cg }),
                        },
                    },
                },
            }
        },
    }
}

/// A whole bitmap as `BGR24`, its rows packed.
pub open spec fn decode_spec(src: Seq<u8>, width: nat, height: nat) -> Result<Seq<u8>, Malformed> {
    match planes_spec(src, width, height) {
        Err(e) => Err(e),
        Ok(p) => Ok(rows_spec(p.header, width, p.y, p.co, p.cg, height)),
    }
}

fn clip(v: i32) -> (r: u8)
    ensures
        r == clip_spec(v as int),
{
    if v < 0 { 0 } else if v > 255 { 255 } else { v as u8 }
}

fn restore(byte: u8, scale: u32, color_loss: u8) -> (v: i32)
    requires
        1 <= color_loss <= 7,
        scale == pow2((color_loss - 1) as nat),
        scale <= 64,
    ensures
        v == chroma(byte, color_loss),
        -128 <= v <= 127,
{
    proof {
        assert(0 <= byte * scale <= 255 * 64) by (nonlinear_arith)
            requires
                0 <= byte <= 255,
                0 <= scale <= 64,
        ;
    }
    let v: u32 = (byte as u32 * scale) % 0x100;
    if v < 0x80 { v as i32 } else { v as i32 - 0x100 }
}

/// A pixel's samples lie inside their planes.
proof fn samples_are_there(x: int, y: int, width: nat, height: nat, subsampled: bool)
    requires
        0 <= x < width,
        0 <= y < height,
    ensures
        0 <= luma_at(x, y, width, subsampled) < luma_length(width, height, subsampled),
        0 <= chroma_at(x, y, width, subsampled) < chroma_length(width, height, subsampled),
{
    let w = wide(width) as int;
    assert(0 <= y * width + x < width * height) by (nonlinear_arith)
        requires
            0 <= x < width,
            0 <= y < height,
    ;
    assert(0 <= y * w + x < w * height) by (nonlinear_arith)
        requires
            0 <= x < w,
            0 <= y < height,
    ;
    let (hx, hy, hw, hh) = (x / 2, y / 2, w / 2, tall(height) as int / 2);
    assert(0 <= hx < hw && 0 <= hy < hh);
    assert(0 <= hy * hw + hx < hw * hh) by (nonlinear_arith)
        requires
            0 <= hx < hw,
            0 <= hy < hh,
    ;
}

/// The decoder.
pub struct Nsc;

impl Nsc {
    /// Decode a `width` by `height` bitmap to its pixels, three bytes each, blue first,
    /// row after row. Alpha is decoded and dropped: nothing here draws with it.
    #[verifier::rlimit(60)]
    pub fn decode(src: &[u8], width: u16, height: u16) -> (res: Result<Vec<u8>, Malformed>)
        ensures
            match res {
                Ok(bgr) => decode_spec(src@, width as nat, height as nat) == Ok::<Seq<u8>, Malformed>(bgr@),
                Err(e) => decode_spec(src@, width as nat, height as nat) == Err::<Seq<u8>, Malformed>(e),
            },
    {
        let mut r = Reader::new(WHAT, src);
        let h = header(&mut r)?;
        let (w, t): (u64, u64) = (width as u64, height as u64);
        let wide: u64 = (w + 7) / 8 * 8;
        let tall: u64 = (t + 1) / 2 * 2;
        proof {
            assert(0 <= w * t <= 0xFFFF * 0xFFFF) by (nonlinear_arith)
                requires
                    0 <= w <= 0xFFFF,
                    0 <= t <= 0xFFFF,
            ;
            assert(0 <= wide * t <= 0x1_0000 * 0x1_0000) by (nonlinear_arith)
                requires
                    0 <= wide <= 0x1_0000,
                    0 <= t <= 0xFFFF,
            ;
            assert(0 <= (wide / 2) * (tall / 2) <= 0x1_0000 * 0x1_0000) by (nonlinear_arith)
                requires
                    0 <= wide / 2 <= 0x1_0000,
                    0 <= tall / 2 <= 0x1_0000,
            ;
        }
        let luma_len: u64 = if h.subsampled { wide * t } else { w * t };
        let chroma_len: u64 = if h.subsampled { (wide / 2) * (tall / 2) } else { w * t };
        let y_plane = read_plane(&mut r, h.planes.0, luma_len)?;
        let co_plane = read_plane(&mut r, h.planes.1, chroma_len)?;
        let cg_plane = read_plane(&mut r, h.planes.2, chroma_len)?;
        let _alpha = read_plane(&mut r, h.planes.3, w * t)?;

        proof { lemma2_to64(); }
        let scale: u32 = power(h.color_loss as u32 - 1);
        let mut out: Vec<u8> = Vec::new();
        assert(out@ =~= seq![]);
        for y in 0..t
            invariant
                w == width,
                t == height,
                wide == self::wide(w as nat),
                1 <= h.color_loss <= 7,
                scale == pow2((h.color_loss - 1) as nat),
                scale <= 64,
                y_plane@.len() == luma_length(w as nat, t as nat, h.subsampled),
                co_plane@.len() == chroma_length(w as nat, t as nat, h.subsampled),
                cg_plane@.len() == chroma_length(w as nat, t as nat, h.subsampled),
                out@ == rows_spec(h, w as nat, y_plane@, co_plane@, cg_plane@, y as nat),
        {
            let ghost before = out@;
            assert(before + seq![] =~= before);
            for x in 0..w
                invariant
                    y < t,
                    w == width,
                    t == height,
                    wide == self::wide(w as nat),
                    1 <= h.color_loss <= 7,
                    scale == pow2((h.color_loss - 1) as nat),
                    scale <= 64,
                    y_plane@.len() == luma_length(w as nat, t as nat, h.subsampled),
                    co_plane@.len() == chroma_length(w as nat, t as nat, h.subsampled),
                    cg_plane@.len() == chroma_length(w as nat, t as nat, h.subsampled),
                    out@ == before + row_spec(h, w as nat, y_plane@, co_plane@, cg_plane@, y as int, x as nat),
            {
                proof {
                    samples_are_there(x as int, y as int, w as nat, t as nat, h.subsampled);
                    assert(0 <= y * wide <= 0xFFFF * 0x1_0000 && 0 <= y * w <= 0xFFFF * 0xFFFF && 0 <= (y / 2) * (
                    wide / 2) <= 0xFFFF * 0x1_0000) by (nonlinear_arith)
                        requires
                            0 <= y <= 0xFFFF,
                            0 <= w <= 0xFFFF,
                            0 <= wide <= 0x1_0000,
                            0 <= y / 2 <= 0xFFFF,
                            0 <= wide / 2 <= 0x1_0000,
                    ;
                }
                let l: u64 = if h.subsampled { y * wide + x } else { y * w + x };
                let c: u64 = if h.subsampled { (y / 2) * (wide / 2) + x / 2 } else { y * w + x };
                let luma: i32 = y_plane[l as usize] as i32;
                let co: i32 = restore(co_plane[c as usize], scale, h.color_loss);
                let cg: i32 = restore(cg_plane[c as usize], scale, h.color_loss);
                let ghost held = out@;
                out.push(clip(luma - co - cg));
                out.push(clip(luma + cg));
                out.push(clip(luma + co - cg));
                proof {
                    let px = bitmap_pixel(h, w as nat, y_plane@, co_plane@, cg_plane@, x as int, y as int);
                    assert(out@ =~= held + px);
                    assert(out@ =~= before + row_spec(
                        h,
                        w as nat,
                        y_plane@,
                        co_plane@,
                        cg_plane@,
                        y as int,
                        (x + 1) as nat,
                    ));
                }
            }
        }
        Ok(out)
    }
}

/// A bitmap has three bytes for every pixel of it.
pub proof fn a_bitmap_is_whole(src: Seq<u8>, width: nat, height: nat)
    ensures
        decode_spec(src, width, height) matches Ok(bgr) ==> bgr.len() == 3 * (width * height),
{
    match planes_spec(src, width, height) {
        Err(_) => {},
        Ok(p) => rows_are_whole(p.header, width, p.y, p.co, p.cg, height),
    }
}

/// Every pixel of a bitmap stands in its place, row after row from the top, and is made of
/// its own samples of the planes.
pub proof fn a_pixel_stands_in_its_place(src: Seq<u8>, width: nat, height: nat, x: int, y: int)
    requires
        0 <= x < width,
        0 <= y < height,
    ensures
        match (planes_spec(src, width, height), decode_spec(src, width, height)) {
            (Ok(p), Ok(bgr)) => {
                let at = 3 * (y * width + x);
                &&& 0 <= at && at + 3 <= bgr.len()
                &&& bgr.subrange(at, at + 3) == bitmap_pixel(p.header, width, p.y, p.co, p.cg, x, y)
            },
            (Err(e), Err(f)) => e == f,
            _ => false,
        },
{
    match planes_spec(src, width, height) {
        Err(_) => {},
        Ok(p) => {
            rows_are_whole(p.header, width, p.y, p.co, p.cg, height);
            rows_hold_their_pixels(p.header, width, p.y, p.co, p.cg, height, x, y);
        },
    }
}

/// A chroma byte as the signed number it is.
pub open spec fn signed(byte: u8) -> int {
    if byte < 0x80 { byte as int } else { byte - 0x100 }
}

/// A pixel of a bitmap with nothing dropped from its chroma comes straight from its three
/// samples; and a plane sent raw is the bytes that were sent.
pub proof fn raw_samples_convert_to_colours(p: Planes, width: nat, x: int, y: int, coded: Seq<u8>, length: nat)
    ensures
        p.header.color_loss == 1 && !p.header.subsampled ==> ({
            let at = y * width + x;
            let (luma, co, cg) = (p.y[at] as int, signed(p.co[at]), signed(p.cg[at]));
            bitmap_pixel(p.header, width, p.y, p.co, p.cg, x, y) == seq![
                clip_spec(luma - co - cg),
                clip_spec(luma + cg),
                clip_spec(luma + co - cg),
            ]
        }),
        0 < coded.len() && length <= coded.len() ==> plane_spec(coded, length) == Ok::<Seq<u8>, Malformed>(
            coded.take(length as int),
        ),
{
    let at = y * width + x;
    nothing_is_dropped(p.co[at]);
    nothing_is_dropped(p.cg[at]);
}

proof fn nothing_is_dropped(byte: u8)
    ensures
        chroma(byte, 1) == signed(byte),
{
    lemma2_to64();
    let n = pow2((1u8 - 1) as nat);
    assert(byte * n == byte) by (nonlinear_arith)
        requires
            n == 1,
    ;
}

proof fn rows_hold_their_pixels(
    h: Header,
    width: nat,
    y_plane: Seq<u8>,
    co_plane: Seq<u8>,
    cg_plane: Seq<u8>,
    n: nat,
    x: int,
    y: int,
)
    requires
        0 <= x < width,
        0 <= y < n,
    ensures
        ({
            let at = 3 * (y * width + x);
            &&& 0 <= at && at + 3 <= 3 * (width * n)
            &&& rows_spec(h, width, y_plane, co_plane, cg_plane, n).subrange(at, at + 3) == bitmap_pixel(
                h,
                width,
                y_plane,
                co_plane,
                cg_plane,
                x,
                y,
            )
        }),
    decreases n,
{
    let above = (n - 1) as nat;
    let at = 3 * (y * width + x);
    rows_are_whole(h, width, y_plane, co_plane, cg_plane, above);
    rows_are_whole(h, width, y_plane, co_plane, cg_plane, n);
    assert(width * n == width * above + width) by (nonlinear_arith)
        requires
            n == above + 1,
    ;
    let (before, all) = (
        rows_spec(h, width, y_plane, co_plane, cg_plane, above),
        rows_spec(h, width, y_plane, co_plane, cg_plane, n),
    );
    if y < above {
        rows_hold_their_pixels(h, width, y_plane, co_plane, cg_plane, above, x, y);
        assert(all.subrange(at, at + 3) =~= before.subrange(at, at + 3));
    } else {
        let row = row_spec(h, width, y_plane, co_plane, cg_plane, y, width);
        row_is_whole(h, width, y_plane, co_plane, cg_plane, y, width);
        row_holds_its_pixels(h, width, y_plane, co_plane, cg_plane, y, width, x);
        assert(y * width == width * above) by (nonlinear_arith)
            requires
                y == above,
        ;
        assert(all.subrange(at, at + 3) =~= row.subrange(3 * x, 3 * x + 3));
    }
}

proof fn row_holds_its_pixels(
    h: Header,
    width: nat,
    y_plane: Seq<u8>,
    co_plane: Seq<u8>,
    cg_plane: Seq<u8>,
    y: int,
    n: nat,
    x: int,
)
    requires
        0 <= x < n,
    ensures
        row_spec(h, width, y_plane, co_plane, cg_plane, y, n).subrange(3 * x, 3 * x + 3) == bitmap_pixel(
            h,
            width,
            y_plane,
            co_plane,
            cg_plane,
            x,
            y,
        ),
    decreases n,
{
    let before = row_spec(h, width, y_plane, co_plane, cg_plane, y, (n - 1) as nat);
    let all = row_spec(h, width, y_plane, co_plane, cg_plane, y, n);
    row_is_whole(h, width, y_plane, co_plane, cg_plane, y, (n - 1) as nat);
    row_is_whole(h, width, y_plane, co_plane, cg_plane, y, n);
    if x < n - 1 {
        row_holds_its_pixels(h, width, y_plane, co_plane, cg_plane, y, (n - 1) as nat, x);
        assert(all.subrange(3 * x, 3 * x + 3) =~= before.subrange(3 * x, 3 * x + 3));
    } else {
        assert(all.subrange(3 * x, 3 * x + 3) =~= bitmap_pixel(h, width, y_plane, co_plane, cg_plane, x, y));
    }
}

proof fn rows_are_whole(
    h: Header,
    width: nat,
    y_plane: Seq<u8>,
    co_plane: Seq<u8>,
    cg_plane: Seq<u8>,
    n: nat,
)
    ensures
        rows_spec(h, width, y_plane, co_plane, cg_plane, n).len() == 3 * (width * n),
    decreases n,
{
    if n > 0 {
        rows_are_whole(h, width, y_plane, co_plane, cg_plane, (n - 1) as nat);
        row_is_whole(h, width, y_plane, co_plane, cg_plane, n - 1, width);
        assert(width * n == width * (n - 1) + width) by (nonlinear_arith);
    } else {
        assert(width * n == 0) by (nonlinear_arith)
            requires
                n == 0,
        ;
    }
}

proof fn row_is_whole(
    h: Header,
    width: nat,
    y_plane: Seq<u8>,
    co_plane: Seq<u8>,
    cg_plane: Seq<u8>,
    y: int,
    n: nat,
)
    ensures
        row_spec(h, width, y_plane, co_plane, cg_plane, y, n).len() == 3 * n,
    decreases n,
{
    if n > 0 {
        row_is_whole(h, width, y_plane, co_plane, cg_plane, y, (n - 1) as nat);
    }
}

/// A bitmap as a host writes it: how long each plane is, how many bits of colour were
/// dropped, whether colour is at half the resolution, and the planes.
pub open spec fn written(loss: u8, halved: bool, y: Seq<u8>, co: Seq<u8>, cg: Seq<u8>, alpha: Seq<u8>) -> Seq<u8> {
    head(loss, halved, y.len(), co.len(), cg.len(), alpha.len()) + y + co + cg + alpha
}

#[verifier::opaque]
pub open spec fn head(loss: u8, halved: bool, y: nat, co: nat, cg: nat, alpha: nat) -> Seq<u8> {
    le32(y as u32) + le32(co as u32) + le32(cg as u32) + le32(alpha as u32) + seq![
        loss,
        if halved { 1u8 } else { 0u8 },
        0u8,
        0u8,
    ]
}

/// What a chroma byte stood for before so many of its bits, less one, were dropped: it is
/// moved back up, and read as a signed byte.
pub open spec fn stood_for(byte: u8, loss: u8) -> int {
    let by: int = if loss == 1 {
        1
    } else if loss == 2 {
        2
    } else if loss == 3 {
        4
    } else if loss == 4 {
        8
    } else if loss == 5 {
        16
    } else if loss == 6 {
        32
    } else {
        64
    };
    let moved = byte * by % 256;
    if moved >= 128 { moved - 256 } else { moved }
}

/// Whether a byte is as near a colour as a byte can be.
pub open spec fn is_nearest(byte: u8, colour: int) -> bool {
    if colour < 0 {
        byte == 0
    } else if colour > 255 {
        byte == 255
    } else {
        byte == colour
    }
}

proof fn a_chroma_byte_stands_for(byte: u8, loss: u8)
    requires
        1 <= loss <= 7,
    ensures
        chroma(byte, loss) == stood_for(byte, loss),
{
    lemma2_to64();
    let n = pow2((loss - 1) as nat);
    let by: int = if loss == 1 { 1 } else if loss == 2 { 2 } else if loss == 3 { 4 } else if loss == 4 {
        8
    } else if loss == 5 { 16 } else if loss == 6 { 32 } else { 64 };
    assert(n == by);
    assert(byte * n == byte * by) by (nonlinear_arith)
        requires
            n == by,
    ;
}

proof fn a_head_reads_back(c: Cursor, loss: u8, halved: bool, y: nat, co: nat, cg: nat, alpha: nat)
    requires
        1 <= loss <= 7,
        y <= u32::MAX,
        co <= u32::MAX,
        cg <= u32::MAX,
        alpha <= u32::MAX,
        c.faces(head(loss, halved, y, co, cg, alpha)),
    ensures
        header_step(c) == Step::Got(
            Header {
                planes: (y as u32, co as u32, cg as u32, alpha as u32),
                color_loss: loss,
                subsampled: halved,
            },
            c.plus(20),
        ),
        head(loss, halved, y, co, cg, alpha).len() == 20,
{
    reveal(head);
    let h = head(loss, halved, y, co, cg, alpha);
    let tail = seq![loss, if halved { 1u8 } else { 0u8 }, 0u8, 0u8];
    facing_both(c, le32(y as u32) + le32(co as u32) + le32(cg as u32) + le32(alpha as u32), tail);
    facing_both(c, le32(y as u32) + le32(co as u32) + le32(cg as u32), le32(alpha as u32));
    facing_both(c, le32(y as u32) + le32(co as u32), le32(cg as u32));
    facing_both(c, le32(y as u32), le32(co as u32));
    a_number_reads_back(c, y as u32);
    assert(c.plus(4).faces(le32(co as u32)));
    a_number_reads_back(c.plus(4), co as u32);
    assert(c.plus(4).plus(4) == c.plus(8));
    a_number_reads_back(c.plus(8), cg as u32);
    assert(c.plus(8).plus(4) == c.plus(12));
    a_number_reads_back(c.plus(12), alpha as u32);
    assert(c.plus(12).plus(4) == c.plus(16));
    let t = c.plus(16);
    facing(t, tail);
    assert(t.bytes[t.at + 0] == tail[0] && t.bytes[t.at + 1] == tail[1]);
    assert(t.plus(1).plus(1).plus(2) == c.plus(20));
}

proof fn a_number_reads_back(c: Cursor, n: u32)
    requires
        c.faces(le32(n)),
    ensures
        c.u32_le() == Step::Got(n, c.plus(4)),
{
    facing(c, le32(n));
    assert(c.bytes[c.at + 0] == le32(n)[0] && c.bytes[c.at + 1] == le32(n)[1]);
    assert(c.bytes[c.at + 2] == le32(n)[2] && c.bytes[c.at + 3] == le32(n)[3]);
    assert(le32_at(c.bytes, c.at) == n);
}

/// The places of a pixel's samples in planes whose colour is at the same resolution as
/// their luma, or at half of it: every two by two pixels then share one sample of each
/// colour plane, and planes are as wide as a whole number of eights.
pub open spec fn luma_place(halved: bool, width: int, x: int, y: int) -> int {
    if halved { y * (8 * ((width + 7) / 8)) + x } else { y * width + x }
}

pub open spec fn colour_place(halved: bool, width: int, x: int, y: int) -> int {
    if halved { (y / 2) * (4 * ((width + 7) / 8)) + x / 2 } else { y * width + x }
}

/// A bitmap whose planes are sent as they are shows, at every pixel, the luma and the two
/// colour differences of its own place: with its colour at half the resolution, those of
/// the two by two pixels it is one of.
pub proof fn a_bitmap_shows_its_samples(
    loss: u8,
    halved: bool,
    luma: Seq<u8>,
    co: Seq<u8>,
    cg: Seq<u8>,
    alpha: Seq<u8>,
    width: nat,
    height: nat,
    x: int,
    y: int,
)
    requires
        1 <= loss <= 7,
        0 <= x < width,
        0 <= y < height,
        luma.len() == (if halved { 8 * ((width + 7) / 8) * height } else { width * height }),
        co.len() == (if halved {
            4 * ((width + 7) / 8) * ((height + 1) / 2)
        } else {
            width * height
        }),
        cg.len() == co.len(),
        alpha.len() == width * height,
        luma.len() <= u32::MAX && co.len() <= u32::MAX && alpha.len() <= u32::MAX,
    ensures
        match decode_spec(written(loss, halved, luma, co, cg, alpha), width, height) {
            Err(_) => false,
            Ok(bgr) => {
                let at = 3 * (y * width + x);
                let brightness = luma[luma_place(halved, width as int, x, y)] as int;
                let c = colour_place(halved, width as int, x, y);
                let (orange, green) = (stood_for(co[c], loss), stood_for(cg[c], loss));
                &&& bgr.len() == 3 * (width * height)
                &&& is_nearest(bgr[at], brightness - orange - green)
                &&& is_nearest(bgr[at + 1], brightness + green)
                &&& is_nearest(bgr[at + 2], brightness + orange - green)
            },
        },
{
    let src = written(loss, halved, luma, co, cg, alpha);
    lengths_are_those(width, height, halved);
    samples_are_there(x, y, width, height, halved);
    assert(width * height > 0) by (nonlinear_arith)
        requires
            width > 0,
            height > 0,
    ;
    planes_read_back(loss, halved, luma, co, cg, alpha, width, height);
    let header = Header {
        planes: (luma.len() as u32, co.len() as u32, cg.len() as u32, alpha.len() as u32),
        color_loss: loss,
        subsampled: halved,
    };
    a_pixel_stands_in_its_place(src, width, height, x, y);
    a_bitmap_is_whole(src, width, height);
    a_pixel_in_numbers(header, width, luma, co, cg, x, y);
    let bgr = decode_spec(src, width, height)->Ok_0;
    let at = 3 * (y * width + x);
    let px = bgr.subrange(at, at + 3);
    assert(px == bitmap_pixel(header, width, luma, co, cg, x, y));
    assert(bgr[at] == px[0] && bgr[at + 1] == px[1] && bgr[at + 2] == px[2]);
}

proof fn lengths_are_those(width: nat, height: nat, halved: bool)
    ensures
        luma_length(width, height, halved) == (if halved {
            8 * ((width + 7) / 8) * height
        } else {
            width * height
        }),
        chroma_length(width, height, halved) == (if halved {
            4 * ((width + 7) / 8) * ((height + 1) / 2)
        } else {
            width * height
        }),
{
    let n = (width + 7) / 8;
    assert(wide(width) == 8 * n && wide(width) / 2 == 4 * n);
    assert(tall(height) / 2 == (height + 1) / 2);
}

proof fn a_pixel_in_numbers(h: Header, width: nat, luma: Seq<u8>, co: Seq<u8>, cg: Seq<u8>, x: int, y: int)
    requires
        1 <= h.color_loss <= 7,
    ensures
        ({
            let px = bitmap_pixel(h, width, luma, co, cg, x, y);
            let brightness = luma[luma_place(h.subsampled, width as int, x, y)] as int;
            let c = colour_place(h.subsampled, width as int, x, y);
            let (orange, green) = (stood_for(co[c], h.color_loss), stood_for(cg[c], h.color_loss));
            &&& px.len() == 3
            &&& is_nearest(px[0], brightness - orange - green)
            &&& is_nearest(px[1], brightness + green)
            &&& is_nearest(px[2], brightness + orange - green)
        }),
{
    let n = (width as int + 7) / 8;
    assert(wide(width) == 8 * n && wide(width) / 2 == 4 * n);
    let c = colour_place(h.subsampled, width as int, x, y);
    assert(c == chroma_at(x, y, width, h.subsampled));
    assert(luma_place(h.subsampled, width as int, x, y) == luma_at(x, y, width, h.subsampled));
    a_chroma_byte_stands_for(co[c], h.color_loss);
    a_chroma_byte_stands_for(cg[c], h.color_loss);
}

proof fn planes_read_back(
    loss: u8,
    halved: bool,
    luma: Seq<u8>,
    co: Seq<u8>,
    cg: Seq<u8>,
    alpha: Seq<u8>,
    width: nat,
    height: nat,
)
    requires
        1 <= loss <= 7,
        0 < luma.len() == luma_length(width, height, halved),
        0 < co.len() == chroma_length(width, height, halved),
        cg.len() == co.len(),
        0 < alpha.len() == width * height,
        luma.len() <= u32::MAX && co.len() <= u32::MAX && alpha.len() <= u32::MAX,
    ensures
        planes_spec(written(loss, halved, luma, co, cg, alpha), width, height) == Ok::<Planes, Malformed>(
            Planes {
                header: Header {
                    planes: (luma.len() as u32, co.len() as u32, cg.len() as u32, alpha.len() as u32),
                    color_loss: loss,
                    subsampled: halved,
                },
                y: luma,
                co,
                cg,
            },
        ),
{
    let src = written(loss, halved, luma, co, cg, alpha);
    let h = head(loss, halved, luma.len(), co.len(), cg.len(), alpha.len());
    let c0 = cursor(WHAT, src);
    assert(src.subrange(0, src.len() as int) =~= src);
    facing_both(c0, h + luma + co + cg, alpha);
    facing_both(c0, h + luma + co, cg);
    facing_both(c0, h + luma, co);
    facing_both(c0, h, luma);
    a_head_reads_back(c0, loss, halved, luma.len(), co.len(), cg.len(), alpha.len());
    let c1 = c0.plus(20);
    let c2 = c1.plus(luma.len() as int);
    let c3 = c2.plus(co.len() as int);
    let c4 = c3.plus(cg.len() as int);
    assert(c2 == c0.plus((h + luma).len() as int));
    assert(c3 == c0.plus((h + luma + co).len() as int));
    assert(c4 == c0.plus((h + luma + co + cg).len() as int));
    a_raw_plane_reads_back(c1, luma);
    a_raw_plane_reads_back(c2, co);
    a_raw_plane_reads_back(c3, cg);
    a_raw_plane_reads_back(c4, alpha);
}

proof fn a_raw_plane_reads_back(c: Cursor, plane: Seq<u8>)
    requires
        c.faces(plane),
        0 < plane.len() <= u32::MAX,
    ensures
        plane_step(c, plane.len() as u32, plane.len()) == Step::Got(plane, c.plus(plane.len() as int)),
{
    assert(plane.take(plane.len() as int) =~= plane);
}

/// Every two by two pixels of a bitmap with its colour at half the resolution have a sample
/// of each colour plane of their own: no other pixels share it.
pub proof fn two_by_two_pixels_share_a_colour(width: int, x: int, y: int, other_x: int, other_y: int)
    requires
        0 <= x < width,
        0 <= other_x < width,
        0 <= y,
        0 <= other_y,
    ensures
        colour_place(true, width, x, y) == colour_place(true, width, other_x, other_y) <==> x / 2 == other_x / 2
            && y / 2 == other_y / 2,
{
    let half = 4 * ((width + 7) / 8);
    let (a, b, c, d) = (y / 2, x / 2, other_y / 2, other_x / 2);
    assert(0 <= b < half && 0 <= d < half);
    if a < c {
        assert(a * half + half <= c * half) by (nonlinear_arith)
            requires
                a + 1 <= c,
                half > 0,
        ;
    } else if c < a {
        assert(c * half + half <= a * half) by (nonlinear_arith)
            requires
                c + 1 <= a,
                half > 0,
        ;
    }
}

/// A stretch of a plane as it is run-length coded: a byte on its own, or a byte repeated.
pub enum Stretch {
    One(u8),
    Run(u8, nat),
}

impl Stretch {
    /// A run is a byte twice, and how much longer it is than that, in a byte, or in four after
    /// a byte of ones.
    pub open spec fn bytes(self) -> Seq<u8> {
        match self {
            Stretch::One(value) => seq![value],
            Stretch::Run(value, n) => if n < 257 {
                seq![value, value, (n - 2) as u8]
            } else {
                seq![value, value, 255u8] + le32(n as u32)
            },
        }
    }

    pub open spec fn shown(self) -> Seq<u8> {
        match self {
            Stretch::One(value) => seq![value],
            Stretch::Run(value, n) => Seq::new(n, |i: int| value),
        }
    }
}

pub open spec fn stretch_bytes(list: Seq<Stretch>) -> Seq<u8>
    decreases list.len(),
{
    if list.len() == 0 { seq![] } else { list[0].bytes() + stretch_bytes(list.skip(1)) }
}

pub open spec fn stretches_shown(list: Seq<Stretch>) -> Seq<u8>
    decreases list.len(),
{
    if list.len() == 0 { seq![] } else { list[0].shown() + stretches_shown(list.skip(1)) }
}

/// Stretches can be told apart in the stream: a byte on its own is not followed by itself,
/// unless it is the last before the four that end a plane, and a run is of two or more.
pub open spec fn told_apart(list: Seq<Stretch>, end: Seq<u8>) -> bool
    decreases list.len(),
{
    if list.len() == 0 {
        true
    } else {
        &&& match list[0] {
            Stretch::One(value) => list.len() == 1 || (stretch_bytes(list.skip(1)) + end)[0] != value,
            Stretch::Run(_, n) => 2 <= n <= u32::MAX,
        }
        &&& told_apart(list.skip(1), end)
    }
}

proof fn stretches_read_back(c: Cursor, list: Seq<Stretch>, end: Seq<u8>, out: Seq<u8>)
    requires
        end.len() == 4,
        told_apart(list, end),
        c.faces(stretch_bytes(list) + end),
    ensures
        rle_spec(c, out, out.len() + stretches_shown(list).len() + 4) == Ok::<Seq<u8>, Malformed>(
            out + stretches_shown(list) + end,
        ),
    decreases list.len(),
{
    let total = out.len() + stretches_shown(list).len() + 4;
    if list.len() == 0 {
        assert(stretch_bytes(list) + end =~= end);
        assert(out + stretches_shown(list) + end =~= out + end);
    } else {
        let (first, rest) = (list[0], list.skip(1));
        let tail = stretch_bytes(rest) + end;
        assert(stretch_bytes(list) + end =~= first.bytes() + tail);
        facing_both(c, first.bytes(), tail);
        facing(c, first.bytes());
        let after = c.plus(first.bytes().len() as int);
        facing(after, tail);
        assert(after.bytes[after.at + 0] == tail[0]);
        stretches_read_back(after, rest, end, out + first.shown());
        assert(out + first.shown() + stretches_shown(rest) =~= out + stretches_shown(list));
        assert(c.bytes[c.at + 0] == first.bytes()[0]);
        match first {
            Stretch::One(value) => {
                assert(out.push(value) =~= out + first.shown());
                if rest.len() > 0 {
                    stretches_show_something(rest, end);
                }
            },
            Stretch::Run(value, n) => {
                assert(c.bytes[c.at + 1] == first.bytes()[1]);
                assert(c.bytes[c.at + 2] == first.bytes()[2]);
                let c2 = c.plus(1).plus(1);
                if n >= 257 {
                    let d = c2.plus(1);
                    facing_both(c, seq![value, value, 255u8], le32(n as u32));
                    a_number_reads_back(d, n as u32);
                    assert(d.plus(4) == after);
                } else {
                    assert(c2.plus(1) == after);
                }
                assert(out + repeated(value, n) =~= out + first.shown());
            },
        }
    }
}

proof fn stretches_show_something(list: Seq<Stretch>, end: Seq<u8>)
    requires
        list.len() > 0,
        told_apart(list, end),
    ensures
        stretches_shown(list).len() > 0,
{
}

/// A run-length coded plane reads back as what its stretches and the four bytes that end it
/// stand for.
pub proof fn a_coded_plane_reads_back(list: Seq<Stretch>, end: Seq<u8>)
    requires
        end.len() == 4,
        told_apart(list, end),
        stretch_bytes(list).len() + 4 < stretches_shown(list).len() + 4,
    ensures
        plane_spec(stretch_bytes(list) + end, stretches_shown(list).len() + 4) == Ok::<Seq<u8>, Malformed>(
            stretches_shown(list) + end,
        ),
{
    let coded = stretch_bytes(list) + end;
    assert(coded.subrange(0, coded.len() as int) =~= coded);
    stretches_read_back(cursor(WHAT, coded), list, end, seq![]);
    assert(seq![] + stretches_shown(list) + end =~= stretches_shown(list) + end);
}

/// A plane that was not sent is all ones.
pub proof fn a_plane_not_sent_is_all_ones(length: nat, i: int)
    requires
        0 <= i < length,
    ensures
        plane_spec(seq![], length) matches Ok(plane) && plane.len() == length && plane[i] == 255,
{
}

} // verus!
