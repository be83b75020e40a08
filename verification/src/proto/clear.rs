//! ClearCodec, the codec a Windows desktop draws its flat regions and text in.
//!
//! ClearCodec (`CLEARCODEC`, [MS-RDPEGFX] 3.1.8) is built for the desktop rather than
//! for photographs: runs of one colour, vertical bars it caches and repeats, whole
//! rectangles it stores under a glyph index and stamps down again, and, for the
//! parts that are neither flat nor repeated, a small run-length subcodec (RLEX) over
//! a per-rectangle palette.
//!
//! A rectangle is decoded straight onto the surface it is for, in the surface's own
//! `RGBX32`. The layers are painted *over* the surface, so a pixel no layer touches is
//! whatever the surface already held, and a glyph is stored as the surface looked once
//! the layers were done. The host encodes against that picture. The decoder keeps its
//! caches (the glyph cache, and the two vertical-bar caches) for the life of the
//! channel, because a later rectangle refers back to them by index.
//!
//! # What is and is not read
//!
//! Everything a modern Windows RDS host sends: the residual run-length layer, the
//! banded vertical bars with both their caches, the glyph cache, and all three
//! subcodecs: raw, RLEX, and NSCodec, which lives in [`super::nsc`]. A rectangle that
//! cannot be read is refused, which the caller turns into one unpainted rectangle
//! rather than the end of the session, though the layers decoded before the fault
//! are already on the surface, and [`Canvas::painted`] still says where.

use vstd::prelude::*;
use vstd::slice::slice_subrange;

use super::nsc::{self, Nsc};
use super::wire::{cursor, facing, facing_both, le16, steps, view_steps, Cursor, Malformed, Reader, Step};
use crate::pixels::{overwrite, pixels_are_apart, splice};

verus! {

pub const WHAT: &'static str = "a ClearCodec rectangle";

/// Glyph flags, [MS-RDPEGFX] 2.2.4.1.
pub const FLAG_GLYPH_INDEX: u8 = 0x01;
pub const FLAG_GLYPH_HIT: u8 = 0x02;
pub const FLAG_CACHE_RESET: u8 = 0x04;

/// The glyph cache holds this many entries, the vertical-bar caches these many.
pub const GLYPH_COUNT: usize = 4000;
pub const VBAR_SIZE: usize = 32768;
pub const VBAR_SHORT_SIZE: usize = 16384;

/// A glyph no larger than this many pixels may be cached.
pub const MAX_GLYPH_PIXELS: u64 = 0x10_0000;
/// A vertical bar is at most this tall.
pub const MAX_VBAR_HEIGHT: usize = 52;

/// What a composition header takes.
pub const COMPOSITION: usize = 12;

/// As far past its own edge as any field can place a column.
pub const REACH: usize = 0x2_0000;

pub open spec fn refusal(field: &'static str, value: u64) -> Malformed {
    Malformed::Refused { what: WHAT, field, value }
}

fn refuse(field: &'static str, value: u64) -> (e: Malformed)
    ensures
        e == refusal(field, value),
{
    Malformed::Refused { what: WHAT, field, value }
}

/// One wire colour.
#[derive(Clone, Copy, Debug, PartialEq, Eq)]
pub struct Bgr {
    pub b: u8,
    pub g: u8,
    pub r: u8,
}

/// A wire colour as a surface pixel.
pub open spec fn pixel(c: Bgr) -> Seq<u8> {
    seq![c.r, c.g, c.b, 0u8]
}

pub open spec fn bgr_step(c: Cursor) -> Step<Bgr> {
    match c.u8() {
        Step::Stop(e) => Step::Stop(e),
        Step::Got(b, c) => match c.u8() {
            Step::Stop(e) => Step::Stop(e),
            Step::Got(g, c) => match c.u8() {
                Step::Stop(e) => Step::Stop(e),
                Step::Got(r, c) => Step::Got(Bgr { b, g, r }, c),
            },
        },
    }
}

fn read_bgr(r: &mut Reader<'_>) -> (res: Result<Bgr, Malformed>)
    ensures
        steps(res, final(r)@, bgr_step(old(r)@)),
        final(r)@.within(),
{
    let b = r.u8()?;
    let g = r.u8()?;
    let red = r.u8()?;
    Ok(Bgr { b, g, r: red })
}

/// The bounds of a part of a surface: left and top are in it, right and bottom are not.
#[derive(Clone, Copy, Debug, PartialEq, Eq)]
pub struct Bounds {
    pub left: usize,
    pub top: usize,
    pub right: usize,
    pub bottom: usize,
}

/// The smallest bounds with both in them.
pub open spec fn joined(a: Option<Bounds>, b: Bounds) -> Bounds {
    match a {
        None => b,
        Some(a) => Bounds {
            left: if a.left < b.left { a.left } else { b.left },
            top: if a.top < b.top { a.top } else { b.top },
            right: if a.right > b.right { a.right } else { b.right },
            bottom: if a.bottom > b.bottom { a.bottom } else { b.bottom },
        },
    }
}

/// The surface a rectangle is decoded onto: `RGBX32`, `width * 4` bytes a row.
pub struct Canvas<'a> {
    pub pixels: &'a mut [u8],
    pub width: usize,
    pub height: usize,
    /// The bounds of every band column written, which, unlike every other layer, can
    /// reach past the rectangle.
    pub columns: Option<Bounds>,
}

/// A [`Canvas`] by its contents.
pub struct CanvasView {
    pub pixels: Seq<u8>,
    pub width: int,
    pub height: int,
    pub columns: Option<Bounds>,
}

impl CanvasView {
    pub open spec fn wf(self) -> bool {
        &&& 0 <= self.width && self.width + REACH <= usize::MAX
        &&& 0 <= self.height && self.height + REACH <= usize::MAX
        &&& self.pixels.len() == 4 * (self.width * self.height)
        &&& self.pixels.len() <= usize::MAX
        &&& match self.columns {
            Some(b) => b.left < b.right <= self.width && b.top < b.bottom <= self.height,
            None => true,
        }
    }

    /// Where the pixel at (`x`, `y`) starts.
    pub open spec fn at(self, x: int, y: int) -> int {
        4 * (y * self.width + x)
    }

    pub open spec fn write(self, x: int, y: int, bytes: Seq<u8>) -> CanvasView {
        CanvasView { pixels: splice(self.pixels, self.at(x, y), bytes), ..self }
    }

    /// The same surface: nothing but its contents and what was painted may differ.
    pub open spec fn sized_as(self, other: CanvasView) -> bool {
        self.width == other.width && self.height == other.height
    }
}

impl<'a> View for Canvas<'a> {
    type V = CanvasView;

    open spec fn view(&self) -> CanvasView {
        CanvasView {
            pixels: self.pixels@,
            width: self.width as int,
            height: self.height as int,
            columns: self.columns,
        }
    }
}

/// A run of pixels in one row lies inside the surface.
proof fn row_is_inside(c: CanvasView, x: int, y: int, n: int)
    requires
        c.wf(),
        0 <= x,
        0 <= n,
        x + n <= c.width,
        0 <= y < c.height,
    ensures
        0 <= c.at(x, y),
        0 <= y * c.width,
        0 <= y * c.width + x,
        c.at(x, y) + 4 * n <= c.pixels.len(),
{
    assert(0 <= y * c.width && y * c.width + c.width <= c.width * c.height) by (nonlinear_arith)
        requires
            0 <= y < c.height,
            0 <= c.width,
    ;
}

impl<'a> Canvas<'a> {
    /// `pixels` must hold `width * height` pixels.
    pub fn new(pixels: &'a mut [u8], width: usize, height: usize) -> (c: Canvas<'a>)
        requires
            old(pixels)@.len() == 4 * (width * height),
            old(pixels)@.len() <= usize::MAX,
            width + REACH <= usize::MAX,
            height + REACH <= usize::MAX,
        ensures
            c@ == (CanvasView {
                pixels: old(pixels)@,
                width: width as int,
                height: height as int,
                columns: None,
            }),
            c@.wf(),
            final(c.pixels)@ == final(pixels)@,
    {
        Canvas { pixels, width, height, columns: None }
    }

    /// Where band columns were written, as `(x, y, width, height)`: the one layer
    /// that paints past its rectangle. Everything else a decode writes is inside the
    /// rectangle it was given.
    pub fn painted(&self) -> (res: Option<(usize, usize, usize, usize)>)
        requires
            self@.wf(),
        ensures
            res == (match self@.columns {
                Some(b) => Some((b.left, b.top, (b.right - b.left) as usize, (b.bottom - b.top) as usize)),
                None => None,
            }),
    {
        match self.columns {
            Some(b) => Some((b.left, b.top, b.right - b.left, b.bottom - b.top)),
            None => None,
        }
    }

    /// Write bytes over the row that starts at (`x`, `y`).
    fn write(&mut self, x: usize, y: usize, bytes: &[u8])
        requires
            old(self)@.wf(),
            bytes@.len() % 4 == 0,
            x + bytes@.len() / 4 <= old(self)@.width,
            y < old(self)@.height,
        ensures
            final(self)@ == old(self)@.write(x as int, y as int, bytes@),
            final(self)@.wf(),
            final(final(self).pixels)@ == final(old(self).pixels)@,
    {
        proof { row_is_inside(self@, x as int, y as int, bytes@.len() as int / 4); }
        let at: usize = 4 * (y * self.width + x);
        overwrite(self.pixels, at, bytes);
    }
}

/// One rectangle of a [`Canvas`], which every layer but the bands stays inside.
#[derive(Clone, Copy, Debug, PartialEq, Eq)]
pub struct Area {
    pub x: usize,
    pub y: usize,
    pub w: usize,
    pub h: usize,
}

impl Area {
    pub open spec fn inside(self, c: CanvasView) -> bool {
        &&& self.x + self.w <= c.width
        &&& self.y + self.h <= c.height
        &&& self.w <= 0xFFFF
        &&& self.h <= 0xFFFF
    }

    pub open spec fn count(self) -> int {
        self.w * self.h
    }
}

/// One wire colour at (`x`, `y`) of the rectangle, dropped if outside.
pub open spec fn put_spec(c: CanvasView, a: Area, x: int, y: int, color: Bgr) -> CanvasView {
    if x < a.w && y < a.h { c.write(a.x + x, a.y + y, pixel(color)) } else { c }
}

fn put(canvas: &mut Canvas<'_>, a: &Area, x: usize, y: usize, color: Bgr)
    requires
        old(canvas)@.wf(),
        a.inside(old(canvas)@),
    ensures
        final(canvas)@ == put_spec(old(canvas)@, *a, x as int, y as int, color),
        final(canvas)@.wf(),
        final(canvas)@.sized_as(old(canvas)@),
        final(final(canvas).pixels)@ == final(old(canvas).pixels)@,
{
    if x < a.w && y < a.h {
        let bytes = [color.r, color.g, color.b, 0];
        assert(bytes@ =~= pixel(color));
        canvas.write(a.x + x, a.y + y, &bytes);
    }
}

/// `n` pixels of one colour from the `at`th of a rectangle `stride` wide on, at an
/// offset of (`x0`, `y0`) from the area's corner.
pub open spec fn fill_spec(
    c: CanvasView,
    a: Area,
    x0: int,
    y0: int,
    stride: int,
    at: int,
    color: Bgr,
    n: nat,
) -> CanvasView
    decreases n,
{
    if n == 0 {
        c
    } else {
        let k = at + n - 1;
        put_spec(
            fill_spec(c, a, x0, y0, stride, at, color, (n - 1) as nat),
            a,
            x0 + k % stride,
            y0 + k / stride,
            color,
        )
    }
}

fn fill(
    canvas: &mut Canvas<'_>,
    a: &Area,
    x0: usize,
    y0: usize,
    stride: usize,
    at: u64,
    color: Bgr,
    n: u64,
)
    requires
        old(canvas)@.wf(),
        a.inside(old(canvas)@),
        x0 <= 0xFFFF,
        y0 <= 0xFFFF,
        stride <= 0xFFFF,
        at + n <= stride * 0xFFFF,
    ensures
        final(canvas)@ == fill_spec(
            old(canvas)@,
            *a,
            x0 as int,
            y0 as int,
            stride as int,
            at as int,
            color,
            n as nat,
        ),
        final(canvas)@.wf(),
        final(canvas)@.sized_as(old(canvas)@),
        final(final(canvas).pixels)@ == final(old(canvas).pixels)@,
{
    for i in 0..n
        invariant
            canvas@.wf(),
            a.inside(canvas@),
            x0 <= 0xFFFF,
            y0 <= 0xFFFF,
            stride <= 0xFFFF,
            at + n <= stride * 0xFFFF,
            canvas@ == fill_spec(
                old(canvas)@,
                *a,
                x0 as int,
                y0 as int,
                stride as int,
                at as int,
                color,
                i as nat,
            ),
            canvas@.sized_as(old(canvas)@),
            final(canvas.pixels)@ == final(old(canvas).pixels)@,
    {
        proof { raster(at + i, stride as int); }
        let k: u64 = at + i;
        put(
            canvas,
            a,
            x0 + (k % stride as u64) as usize,
            y0 + (k / stride as u64) as usize,
            color,
        );
    }
}

/// A place in a rectangle `stride` wide and no taller than a field can say is at most
/// that far across and down.
proof fn raster(k: int, stride: int)
    requires
        0 <= k < stride * 0xFFFF,
        stride <= 0xFFFF,
    ensures
        0 < stride,
        0 <= k % stride < stride,
        0 <= k / stride < 0xFFFF,
{
    assert(stride > 0) by (nonlinear_arith)
        requires
            0 <= k < stride * 0xFFFF,
    ;
    assert(0 <= k / stride < 0xFFFF) by (nonlinear_arith)
        requires
            0 <= k < stride * 0xFFFF,
            stride > 0,
    ;
    assert(0 <= k % stride < stride) by (nonlinear_arith)
        requires
            stride > 0,
    ;
}

/// A run length: one byte, then two, then four, each escape widening the last.
pub open spec fn run_length_step(c: Cursor) -> Step<u32> {
    match c.u8() {
        Step::Stop(e) => Step::Stop(e),
        Step::Got(first, c) => if first < 0xFF {
            Step::Got(first as u32, c)
        } else {
            match c.u16_le() {
                Step::Stop(e) => Step::Stop(e),
                Step::Got(second, c) => if second < 0xFFFF {
                    Step::Got(second as u32, c)
                } else {
                    c.u32_le()
                },
            }
        },
    }
}

fn run_length(r: &mut Reader<'_>) -> (res: Result<u32, Malformed>)
    ensures
        steps(res, final(r)@, run_length_step(old(r)@)),
        final(r)@.within(),
{
    let first = r.u8()?;
    if first < 0xFF {
        return Ok(first as u32);
    }
    let second = r.u16_le()?;
    if second < 0xFFFF {
        return Ok(second as u32);
    }
    r.u32_le()
}

/// The residual layer from its `at`th pixel on: a run-length fill of the whole
/// rectangle, one colour a run. [MS-RDPEGFX] 2.2.4.1.1. With it, what is on the surface
/// by the time it ends or turns out to be wrong.
pub open spec fn residual_spec(c: Cursor, a: Area, cv: CanvasView, at: int) -> (
    CanvasView,
    Result<(), Malformed>,
)
    decreases c.left(),
{
    if c.left() == 0 {
        if at != a.count() {
            (cv, Err(refusal("a residual layer short of the rectangle, at", at as u64)))
        } else {
            (cv, Ok(()))
        }
    } else {
        match bgr_step(c) {
            Step::Stop(e) => (cv, Err(e)),
            Step::Got(color, c1) => match run_length_step(c1) {
                Step::Stop(e) => (cv, Err(e)),
                Step::Got(run, c2) => if at >= a.count() || run > a.count() - at {
                    (cv, Err(refusal("a residual run past the rectangle", run as u64)))
                } else {
                    let cv = fill_spec(cv, a, 0, 0, a.w as int, at, color, run as nat);
                    if c2.left() < c.left() {
                        residual_spec(c2, a, cv, at + run)
                    } else {
                        (cv, Ok(()))
                    }
                },
            },
        }
    }
}

fn residual_data(section: &[u8], canvas: &mut Canvas<'_>, a: &Area) -> (res: Result<(), Malformed>)
    requires
        old(canvas)@.wf(),
        a.inside(old(canvas)@),
    ensures
        residual_spec(cursor(WHAT, section@), *a, old(canvas)@, 0) == (final(canvas)@, res),
        final(canvas)@.wf(),
        final(canvas)@.sized_as(old(canvas)@),
        final(final(canvas).pixels)@ == final(old(canvas).pixels)@,
{
    let mut r = Reader::new(WHAT, section);
    let ghost start = r@;
    proof { area_fits(*a, canvas@); }
    let pixels: u64 = a.w as u64 * a.h as u64;
    let mut at: u64 = 0;
    while !r.is_empty()
        invariant
            r@.within(),
            start == cursor(WHAT, section@),
            canvas@.wf(),
            a.inside(canvas@),
            canvas@.sized_as(old(canvas)@),
            pixels == a.count(),
            pixels <= a.w * 0xFFFF,
            at <= pixels,
            final(canvas.pixels)@ == final(old(canvas).pixels)@,
            residual_spec(start, *a, old(canvas)@, 0) == residual_spec(r@, *a, canvas@, at as int),
        decreases r@.left(),
    {
        let color = read_bgr(&mut r)?;
        let run: u64 = run_length(&mut r)? as u64;
        if at >= pixels || run > pixels - at {
            return Err(refuse("a residual run past the rectangle", run));
        }
        fill(canvas, a, 0, 0, a.w, at, color, run);
        at = at + run;
    }
    if at != pixels {
        return Err(refuse("a residual layer short of the rectangle, at", at));
    }
    Ok(())
}

/// A rectangle has no more pixels than its fields can say.
proof fn area_fits(a: Area, c: CanvasView)
    requires
        c.wf(),
        a.inside(c),
    ensures
        0 <= a.count() <= 0xFFFF * 0xFFFF,
        a.count() <= a.w * 0xFFFF,
{
    assert(0 <= a.w * a.h <= 0xFFFF * 0xFFFF) by (nonlinear_arith)
        requires
            0 <= a.w <= 0xFFFF,
            0 <= a.h <= 0xFFFF,
    ;
    assert(a.w * a.h <= a.w * 0xFFFF) by (nonlinear_arith)
        requires
            0 <= a.w,
            0 <= a.h <= 0xFFFF,
    ;
}

/// The first `n` of the pixels `bgr` packs, three bytes each, onto a rectangle `stride`
/// wide at an offset of (`x0`, `y0`) from the area's corner.
pub open spec fn paint_spec(
    c: CanvasView,
    a: Area,
    x0: int,
    y0: int,
    stride: int,
    bgr: Seq<u8>,
    n: nat,
) -> CanvasView
    decreases n,
{
    if n == 0 {
        c
    } else {
        let k = n - 1;
        put_spec(
            paint_spec(c, a, x0, y0, stride, bgr, (n - 1) as nat),
            a,
            x0 + k % stride,
            y0 + k / stride,
            Bgr { b: bgr[3 * k], g: bgr[3 * k + 1], r: bgr[3 * k + 2] },
        )
    }
}

fn paint(canvas: &mut Canvas<'_>, a: &Area, x0: usize, y0: usize, stride: usize, bgr: &[u8], n: u64)
    requires
        old(canvas)@.wf(),
        a.inside(old(canvas)@),
        x0 <= 0xFFFF,
        y0 <= 0xFFFF,
        stride <= 0xFFFF,
        n <= stride * 0xFFFF,
        bgr@.len() == 3 * n,
    ensures
        final(canvas)@ == paint_spec(
            old(canvas)@,
            *a,
            x0 as int,
            y0 as int,
            stride as int,
            bgr@,
            n as nat,
        ),
        final(canvas)@.wf(),
        final(canvas)@.sized_as(old(canvas)@),
        final(final(canvas).pixels)@ == final(old(canvas).pixels)@,
{
    let len: usize = bgr.len();
    for i in 0..n
        invariant
            canvas@.wf(),
            a.inside(canvas@),
            x0 <= 0xFFFF,
            y0 <= 0xFFFF,
            stride <= 0xFFFF,
            n <= stride * 0xFFFF,
            len == bgr@.len(),
            len == 3 * n,
            canvas@ == paint_spec(
                old(canvas)@,
                *a,
                x0 as int,
                y0 as int,
                stride as int,
                bgr@,
                i as nat,
            ),
            canvas@.sized_as(old(canvas)@),
            final(canvas.pixels)@ == final(old(canvas).pixels)@,
    {
        proof { raster(i as int, stride as int); }
        let at: usize = 3 * (i as usize);
        let color = Bgr { b: bgr[at], g: bgr[at + 1], r: bgr[at + 2] };
        put(
            canvas,
            a,
            x0 + (i % stride as u64) as usize,
            y0 + (i / stride as u64) as usize,
            color,
        );
    }
}

/// How many bits index a palette of this many colours.
pub open spec fn index_bits(count: u8) -> nat {
    if count <= 2 { 1 } else if count <= 4 { 2 } else if count <= 8 { 3 } else if count <= 16 { 4 }
    else if count <= 32 { 5 } else if count <= 64 { 6 } else { 7 }
}

/// How many indices that many bits tell apart.
pub open spec fn index_span(count: u8) -> u8 {
    if count <= 2 { 2 } else if count <= 4 { 4 } else if count <= 8 { 8 } else if count <= 16 { 16 }
    else if count <= 32 { 32 } else if count <= 64 { 64 } else { 128 }
}

fn span_of(count: u8) -> (span: u8)
    ensures
        span == index_span(count),
        span >= 2,
{
    if count <= 2 { 2 } else if count <= 4 { 4 } else if count <= 8 { 8 } else if count <= 16 { 16 }
    else if count <= 32 { 32 } else if count <= 64 { 64 } else { 128 }
}

/// An index's span is what its bits tell apart, and no less than the palette.
pub proof fn the_span_covers_the_palette(count: u8)
    requires
        1 <= count <= 127,
    ensures
        index_span(count) == vstd::arithmetic::power2::pow2(index_bits(count)),
        count <= index_span(count),
{
    vstd::arithmetic::power2::lemma2_to64();
}

/// `n` more colours of a palette, after those already got.
pub open spec fn palette_step(c: Cursor, n: nat, got: Seq<Bgr>) -> Step<Seq<Bgr>>
    decreases n,
{
    if n == 0 {
        Step::Got(got, c)
    } else {
        match bgr_step(c) {
            Step::Stop(e) => Step::Stop(e),
            Step::Got(color, c) => palette_step(c, (n - 1) as nat, got.push(color)),
        }
    }
}

fn read_palette(r: &mut Reader<'_>, count: u8) -> (res: Result<Vec<Bgr>, Malformed>)
    ensures
        view_steps(res, final(r)@, palette_step(old(r)@, count as nat, seq![])),
        res matches Ok(palette) ==> palette@.len() == count,
        final(r)@.within(),
{
    let _ = r.at();
    let mut palette: Vec<Bgr> = Vec::new();
    assert(palette@ =~= seq![]);
    for i in 0..count
        invariant
            palette_step(old(r)@, count as nat, seq![]) == palette_step(r@, (count - i) as nat, palette@),
            palette@.len() == i,
            r@.within(),
    {
        palette.push(read_bgr(r)?);
    }
    Ok(palette)
}

/// A suite: the colours of a palette from `first` on, `n` of them, one pixel each, from
/// the `at`th pixel of a sub-rectangle on.
pub open spec fn suite_spec(
    c: CanvasView,
    a: Area,
    s: Sub,
    at: int,
    palette: Seq<Bgr>,
    first: int,
    n: nat,
) -> CanvasView
    decreases n,
{
    if n == 0 {
        c
    } else {
        let k = at + n - 1;
        put_spec(
            suite_spec(c, a, s, at, palette, first, (n - 1) as nat),
            a,
            s.x + k % (s.w as int),
            s.y + k / (s.w as int),
            palette[first + n - 1],
        )
    }
}

fn suite(canvas: &mut Canvas<'_>, a: &Area, s: &Sub, at: u64, palette: &Vec<Bgr>, first: usize, n: usize)
    requires
        old(canvas)@.wf(),
        a.inside(old(canvas)@),
        at + n <= s.w * 0xFFFF,
        first + n <= palette@.len(),
        palette@.len() <= 128,
    ensures
        final(canvas)@ == suite_spec(
            old(canvas)@,
            *a,
            *s,
            at as int,
            palette@,
            first as int,
            n as nat,
        ),
        final(canvas)@.wf(),
        final(canvas)@.sized_as(old(canvas)@),
        final(final(canvas).pixels)@ == final(old(canvas).pixels)@,
{
    for i in 0..n
        invariant
            canvas@.wf(),
            a.inside(canvas@),
            at + n <= s.w * 0xFFFF,
            first + n <= palette@.len(),
            palette@.len() <= 128,
            canvas@ == suite_spec(
                old(canvas)@,
                *a,
                *s,
                at as int,
                palette@,
                first as int,
                i as nat,
            ),
            canvas@.sized_as(old(canvas)@),
            final(canvas.pixels)@ == final(old(canvas).pixels)@,
    {
        proof { raster(at + i, s.w as int); }
        let k: u64 = at + i as u64;
        let (x, y) = ((k % s.w as u64) as usize, (k / s.w as u64) as usize);
        put(canvas, a, s.x as usize + x, s.y as usize + y, palette[first + i]);
    }
}

/// A sub-rectangle of the rectangle being decoded.
#[derive(Clone, Copy, Debug, PartialEq, Eq)]
pub struct Sub {
    pub x: u16,
    pub y: u16,
    pub w: u16,
    pub h: u16,
}

impl Sub {
    pub open spec fn count(self) -> int {
        self.w * self.h
    }
}

/// A sub-rectangle has no more pixels than its fields can say.
proof fn sub_fits(s: Sub)
    ensures
        0 <= s.count() <= 0xFFFF * 0xFFFF,
        s.count() <= s.w * 0xFFFF,
{
    assert(0 <= s.w * s.h <= 0xFFFF * 0xFFFF) by (nonlinear_arith)
        requires
            0 <= s.w <= 0xFFFF,
            0 <= s.h <= 0xFFFF,
    ;
    assert(s.w * s.h <= s.w * 0xFFFF) by (nonlinear_arith)
        requires
            0 <= s.w,
            0 <= s.h <= 0xFFFF,
    ;
}

/// The runs of an RLEX sub-rectangle from its `at`th pixel on: each is a run of one
/// colour and then a suite of the palette's colours up to another.
pub open spec fn rlex_runs_spec(
    c: Cursor,
    a: Area,
    s: Sub,
    palette: Seq<Bgr>,
    cv: CanvasView,
    at: int,
) -> (CanvasView, Result<(), Malformed>)
    decreases c.left(),
{
    if c.left() == 0 {
        if at != s.count() {
            (cv, Err(refusal("an RLEX layer short of the rectangle, at", at as u64)))
        } else {
            (cv, Ok(()))
        }
    } else {
        let count = palette.len() as u8;
        match c.u8() {
            Step::Stop(e) => (cv, Err(e)),
            Step::Got(tmp, c1) => match run_length_step(c1) {
                Step::Stop(e) => (cv, Err(e)),
                Step::Got(run, c2) => {
                    let depth = tmp / index_span(count);
                    let last = tmp % index_span(count);
                    let first = if depth <= last { last - depth } else { 0x100 + last - depth };
                    if first >= count || last >= count {
                        (cv, Err(refusal("an RLEX index past its palette", first as u64)))
                    } else if at + run > s.count() {
                        (cv, Err(refusal("an RLEX run past the rectangle", run as u64)))
                    } else {
                        let filled = fill_spec(
                            cv,
                            a,
                            s.x as int,
                            s.y as int,
                            s.w as int,
                            at,
                            palette[first],
                            run as nat,
                        );
                        if at + run + depth + 1 > s.count() {
                            (filled, Err(refusal("an RLEX suite past the rectangle", (depth + 1) as u64)))
                        } else {
                            let suited = suite_spec(
                                filled,
                                a,
                                s,
                                at + run,
                                palette,
                                first,
                                (depth + 1) as nat,
                            );
                            if c2.left() < c.left() {
                                rlex_runs_spec(c2, a, s, palette, suited, at + run + depth + 1)
                            } else {
                                (suited, Ok(()))
                            }
                        }
                    }
                },
            },
        }
    }
}

/// The RLEX subcodec: a palette of up to 127 colours, then runs and colour suites
/// indexing it. [MS-RDPEGFX] 2.2.4.3.1.
pub open spec fn rlex_spec(data: Seq<u8>, a: Area, s: Sub, cv: CanvasView) -> (
    CanvasView,
    Result<(), Malformed>,
) {
    match cursor(WHAT, data).u8() {
        Step::Stop(e) => (cv, Err(e)),
        Step::Got(count, c) => if count < 1 || count > 127 {
            (cv, Err(refusal("an RLEX palette count", count as u64)))
        } else {
            match palette_step(c, count as nat, seq![]) {
                Step::Stop(e) => (cv, Err(e)),
                Step::Got(palette, c) => rlex_runs_spec(c, a, s, palette, cv, 0),
            }
        },
    }
}

fn rlex_runs(r: &mut Reader<'_>, palette: &Vec<Bgr>, canvas: &mut Canvas<'_>, a: &Area, s: &Sub) -> (res: Result<
    (),
    Malformed,
>)
    requires
        old(canvas)@.wf(),
        a.inside(old(canvas)@),
        1 <= palette@.len() <= 127,
        old(r)@.within(),
    ensures
        rlex_runs_spec(old(r)@, *a, *s, palette@, old(canvas)@, 0) == (final(canvas)@, res),
        final(canvas)@.wf(),
        final(canvas)@.sized_as(old(canvas)@),
        final(final(canvas).pixels)@ == final(old(canvas).pixels)@,
{
    proof { sub_fits(*s); }
    let count: u8 = palette.len() as u8;
    let span: u8 = span_of(count);
    let pixels: u64 = s.w as u64 * s.h as u64;
    let mut at: u64 = 0;
    while !r.is_empty()
        invariant
            r@.within(),
            1 <= palette@.len() <= 127,
            count == palette@.len(),
            span == index_span(count),
            span >= 2,
            canvas@.wf(),
            a.inside(canvas@),
            canvas@.sized_as(old(canvas)@),
            pixels == s.count(),
            pixels <= s.w * 0xFFFF,
            pixels <= 0xFFFF * 0xFFFF,
            at <= pixels,
            final(canvas.pixels)@ == final(old(canvas).pixels)@,
            rlex_runs_spec(old(r)@, *a, *s, palette@, old(canvas)@, 0) == rlex_runs_spec(
                r@,
                *a,
                *s,
                palette@,
                canvas@,
                at as int,
            ),
        decreases r@.left(),
    {
        let tmp = r.u8()?;
        let run: u64 = run_length(r)? as u64;
        proof {
            assert(tmp as int / span as int <= 127) by (nonlinear_arith)
                requires
                    0 <= tmp <= 255,
                    span >= 2,
            ;
        }
        let depth: u8 = tmp / span;
        let last: u8 = tmp % span;
        let first: u16 = if depth <= last { (last - depth) as u16 } else { 0x100 + last as u16 - depth as u16 };
        if first >= count as u16 || last >= count {
            return Err(refuse("an RLEX index past its palette", first as u64));
        }
        if at + run > pixels {
            return Err(refuse("an RLEX run past the rectangle", run));
        }
        assert(depth <= last);
        fill(canvas, a, s.x as usize, s.y as usize, s.w as usize, at, palette[first as usize], run);
        at = at + run;
        let length: usize = depth as usize + 1;
        if at + length as u64 > pixels {
            return Err(refuse("an RLEX suite past the rectangle", length as u64));
        }
        suite(canvas, a, s, at, palette, first as usize, length);
        at = at + length as u64;
    }
    if at != pixels {
        return Err(refuse("an RLEX layer short of the rectangle, at", at));
    }
    Ok(())
}

fn subcode_rlex(data: &[u8], canvas: &mut Canvas<'_>, a: &Area, s: &Sub) -> (res: Result<(), Malformed>)
    requires
        old(canvas)@.wf(),
        a.inside(old(canvas)@),
    ensures
        rlex_spec(data@, *a, *s, old(canvas)@) == (final(canvas)@, res),
        final(canvas)@.wf(),
        final(canvas)@.sized_as(old(canvas)@),
        final(final(canvas).pixels)@ == final(old(canvas).pixels)@,
{
    let mut r = Reader::new(WHAT, data);
    let count = r.u8()?;
    if count < 1 || count > 127 {
        return Err(refuse("an RLEX palette count", count as u64));
    }
    let palette = read_palette(&mut r, count)?;
    rlex_runs(&mut r, &palette, canvas, a, s)
}

/// A raw `BGR24` sub-rectangle, one pixel three bytes.
pub open spec fn raw_spec(data: Seq<u8>, a: Area, s: Sub, cv: CanvasView) -> (
    CanvasView,
    Result<(), Malformed>,
) {
    if data.len() != s.count() * 3 {
        (cv, Err(refusal("a raw subcodec of the wrong size", data.len() as u64)))
    } else {
        (paint_spec(cv, a, s.x as int, s.y as int, s.w as int, data, s.count() as nat), Ok(()))
    }
}

fn subcode_raw(data: &[u8], canvas: &mut Canvas<'_>, a: &Area, s: &Sub) -> (res: Result<(), Malformed>)
    requires
        old(canvas)@.wf(),
        a.inside(old(canvas)@),
    ensures
        raw_spec(data@, *a, *s, old(canvas)@) == (final(canvas)@, res),
        final(canvas)@.wf(),
        final(canvas)@.sized_as(old(canvas)@),
        final(final(canvas).pixels)@ == final(old(canvas).pixels)@,
{
    proof { sub_fits(*s); }
    let pixels: u64 = s.w as u64 * s.h as u64;
    if data.len() as u64 != pixels * 3 {
        return Err(refuse("a raw subcodec of the wrong size", data.len() as u64));
    }
    paint(canvas, a, s.x as usize, s.y as usize, s.w as usize, data, pixels);
    Ok(())
}

/// An NSCodec sub-rectangle.
pub open spec fn nsc_spec(data: Seq<u8>, a: Area, s: Sub, cv: CanvasView) -> (
    CanvasView,
    Result<(), Malformed>,
) {
    match nsc::decode_spec(data, s.w as nat, s.h as nat) {
        Err(e) => (cv, Err(e)),
        Ok(bgr) => (
            paint_spec(cv, a, s.x as int, s.y as int, s.w as int, bgr, s.count() as nat),
            Ok(()),
        ),
    }
}

fn subcode_nsc(data: &[u8], canvas: &mut Canvas<'_>, a: &Area, s: &Sub) -> (res: Result<(), Malformed>)
    requires
        old(canvas)@.wf(),
        a.inside(old(canvas)@),
    ensures
        nsc_spec(data@, *a, *s, old(canvas)@) == (final(canvas)@, res),
        final(canvas)@.wf(),
        final(canvas)@.sized_as(old(canvas)@),
        final(final(canvas).pixels)@ == final(old(canvas).pixels)@,
{
    proof {
        sub_fits(*s);
        nsc::a_bitmap_is_whole(data@, s.w as nat, s.h as nat);
    }
    let bgr = Nsc::decode(data, s.w, s.h)?;
    let pixels: u64 = s.w as u64 * s.h as u64;
    paint(canvas, a, s.x as usize, s.y as usize, s.w as usize, bgr.as_slice(), pixels);
    Ok(())
}

/// What opens a sub-rectangle: where it is, which subcodec it is in, and its bytes.
pub open spec fn sub_step(c: Cursor) -> Step<(Sub, u8, Seq<u8>)> {
    match c.u16_le() {
        Step::Stop(e) => Step::Stop(e),
        Step::Got(x, c) => match c.u16_le() {
            Step::Stop(e) => Step::Stop(e),
            Step::Got(y, c) => match c.u16_le() {
                Step::Stop(e) => Step::Stop(e),
                Step::Got(w, c) => match c.u16_le() {
                    Step::Stop(e) => Step::Stop(e),
                    Step::Got(h, c) => match c.u32_le() {
                        Step::Stop(e) => Step::Stop(e),
                        Step::Got(count, c) => match c.u8() {
                            Step::Stop(e) => Step::Stop(e),
                            Step::Got(id, c) => match c.bytes(count as int) {
                                Step::Stop(e) => Step::Stop(e),
                                Step::Got(data, c) => Step::Got((Sub { x, y, w, h }, id, data), c),
                            },
                        },
                    },
                },
            },
        },
    }
}

fn read_sub<'a>(r: &mut Reader<'a>) -> (res: Result<(Sub, u8, &'a [u8]), Malformed>)
    ensures
        match res {
            Ok((s, id, data)) => sub_step(old(r)@) == Step::Got((s, id, data@), final(r)@)
                && final(r)@.left() < old(r)@.left(),
            Err(e) => sub_step(old(r)@) == Step::<(Sub, u8, Seq<u8>)>::Stop(e),
        },
        final(r)@.within(),
{
    let x = r.u16_le()?;
    let y = r.u16_le()?;
    let w = r.u16_le()?;
    let h = r.u16_le()?;
    let count = r.u32_le()?;
    let id = r.u8()?;
    let data = r.bytes(count as usize)?;
    Ok((Sub { x, y, w, h }, id, data))
}

/// One sub-rectangle, in whichever subcodec it says.
pub open spec fn sub_spec(s: Sub, id: u8, data: Seq<u8>, a: Area, cv: CanvasView) -> (
    CanvasView,
    Result<(), Malformed>,
) {
    if s.x + s.w > a.w || s.y + s.h > a.h {
        (
            cv,
            Err(
                refusal(
                    "a subcodec rectangle past its tile",
                    (if s.x + s.w > s.y + s.h { s.x + s.w } else { s.y + s.h }) as u64,
                ),
            ),
        )
    } else if id == 0 {
        raw_spec(data, a, s, cv)
    } else if id == 1 {
        nsc_spec(data, a, s, cv)
    } else if id == 2 {
        rlex_spec(data, a, s, cv)
    } else {
        (cv, Err(refusal("an unsupported ClearCodec subcodec", id as u64)))
    }
}

/// The subcodec layer: sub-rectangles one after another. [MS-RDPEGFX] 2.2.4.3.
pub open spec fn subcodec_spec(c: Cursor, a: Area, cv: CanvasView) -> (CanvasView, Result<(), Malformed>)
    decreases c.left(),
{
    if c.left() == 0 {
        (cv, Ok(()))
    } else {
        match sub_step(c) {
            Step::Stop(e) => (cv, Err(e)),
            Step::Got((s, id, data), next) => {
                let (cv, res) = sub_spec(s, id, data, a, cv);
                match res {
                    Err(e) => (cv, Err(e)),
                    Ok(_) => if next.left() < c.left() { subcodec_spec(next, a, cv) } else { (cv, Ok(())) },
                }
            },
        }
    }
}

fn subcodec_one(s: &Sub, id: u8, data: &[u8], canvas: &mut Canvas<'_>, a: &Area) -> (res: Result<
    (),
    Malformed,
>)
    requires
        old(canvas)@.wf(),
        a.inside(old(canvas)@),
    ensures
        sub_spec(*s, id, data@, *a, old(canvas)@) == (final(canvas)@, res),
        final(canvas)@.wf(),
        final(canvas)@.sized_as(old(canvas)@),
        final(final(canvas).pixels)@ == final(old(canvas).pixels)@,
{
    let right: usize = s.x as usize + s.w as usize;
    let bottom: usize = s.y as usize + s.h as usize;
    if right > a.w || bottom > a.h {
        let past: usize = if right > bottom { right } else { bottom };
        return Err(refuse("a subcodec rectangle past its tile", past as u64));
    }
    match id {
        0 => subcode_raw(data, canvas, a, s),
        1 => subcode_nsc(data, canvas, a, s),
        2 => subcode_rlex(data, canvas, a, s),
        other => Err(refuse("an unsupported ClearCodec subcodec", other as u64)),
    }
}

fn subcodec_data(section: &[u8], canvas: &mut Canvas<'_>, a: &Area) -> (res: Result<(), Malformed>)
    requires
        old(canvas)@.wf(),
        a.inside(old(canvas)@),
    ensures
        subcodec_spec(cursor(WHAT, section@), *a, old(canvas)@) == (final(canvas)@, res),
        final(canvas)@.wf(),
        final(canvas)@.sized_as(old(canvas)@),
        final(final(canvas).pixels)@ == final(old(canvas).pixels)@,
{
    let mut r = Reader::new(WHAT, section);
    let ghost start = r@;
    while !r.is_empty()
        invariant
            r@.within(),
            start == cursor(WHAT, section@),
            canvas@.wf(),
            a.inside(canvas@),
            canvas@.sized_as(old(canvas)@),
            final(canvas.pixels)@ == final(old(canvas).pixels)@,
            subcodec_spec(start, *a, old(canvas)@) == subcodec_spec(r@, *a, canvas@),
        decreases r@.left(),
    {
        let (s, id, data) = read_sub(&mut r)?;
        subcodec_one(&s, id, data, canvas, a)?;
    }
    Ok(())
}

/// A rectangle stored under a glyph index, in the surface's `RGBX32`.
pub struct Glyph {
    pixels: Vec<u8>,
    /// The pixel count the rectangle was stored at.
    count: u64,
}

/// A [`Glyph`] by its contents.
pub struct GlyphView {
    pub pixels: Seq<u8>,
    pub count: nat,
}

impl View for Glyph {
    type V = GlyphView;

    closed spec fn view(&self) -> GlyphView {
        GlyphView { pixels: self.pixels@, count: self.count as nat }
    }
}

/// The codec's state, kept for the life of the channel.
pub struct Clear {
    /// The sequence number the next rectangle must carry.
    seq: u32,
    glyphs: Vec<Glyph>,
    /// Vertical bars, whole columns and the short ones they were made of: `RGBX32`, a
    /// pixel a row.
    vbars: Vec<Vec<u8>>,
    vbar_cursor: usize,
    short_vbars: Vec<Vec<u8>>,
    short_cursor: usize,
}

/// A [`Clear`] by its contents.
pub struct ClearView {
    pub seq: u32,
    pub glyphs: Seq<GlyphView>,
    pub vbars: Seq<Seq<u8>>,
    pub vbar_cursor: int,
    pub short_vbars: Seq<Seq<u8>>,
    pub short_cursor: int,
}

spec fn glyph_views(v: Seq<Glyph>) -> Seq<GlyphView> {
    Seq::new(v.len(), |i: int| v[i]@)
}

spec fn bar_views(v: Seq<Vec<u8>>) -> Seq<Seq<u8>> {
    Seq::new(v.len(), |i: int| v[i]@)
}

impl View for Clear {
    type V = ClearView;

    closed spec fn view(&self) -> ClearView {
        ClearView {
            seq: self.seq,
            glyphs: glyph_views(self.glyphs@),
            vbars: bar_views(self.vbars@),
            vbar_cursor: self.vbar_cursor as int,
            short_vbars: bar_views(self.short_vbars@),
            short_cursor: self.short_cursor as int,
        }
    }
}

impl ClearView {
    pub open spec fn wf(self) -> bool {
        &&& self.seq < 256
        &&& self.glyphs.len() == GLYPH_COUNT
        &&& self.vbars.len() == VBAR_SIZE
        &&& self.short_vbars.len() == VBAR_SHORT_SIZE
        &&& 0 <= self.vbar_cursor < VBAR_SIZE
        &&& 0 <= self.short_cursor < VBAR_SHORT_SIZE
        &&& forall|i: int|
            0 <= i < GLYPH_COUNT ==> (#[trigger] self.glyphs[i]).pixels.len() == 4 * self.glyphs[i].count
        &&& forall|i: int| 0 <= i < VBAR_SHORT_SIZE ==> (#[trigger] self.short_vbars[i]).len() % 4 == 0
        &&& forall|i: int| 0 <= i < VBAR_SIZE ==> (#[trigger] self.vbars[i]).len() % 4 == 0
    }

    /// A freshly built column goes under the rolling cursor.
    pub open spec fn with_vbar(self, column: Seq<u8>) -> ClearView {
        ClearView {
            vbars: self.vbars.update(self.vbar_cursor, column),
            vbar_cursor: (self.vbar_cursor + 1) % (VBAR_SIZE as int),
            ..self
        }
    }

    pub open spec fn with_short(self, pixels: Seq<u8>) -> ClearView {
        ClearView {
            short_vbars: self.short_vbars.update(self.short_cursor, pixels),
            short_cursor: (self.short_cursor + 1) % (VBAR_SHORT_SIZE as int),
            ..self
        }
    }
}

/// One full-height column: background above `yon`, the short bar's pixels from `yon`,
/// background below.
pub open spec fn built_column(height: nat, yon: int, short: Seq<u8>, bkg: Bgr) -> Seq<u8> {
    Seq::new(
        4 * height,
        |j: int|
            if yon <= j / 4 && j / 4 - yon < short.len() / 4 {
                short[j - 4 * yon]
            } else {
                pixel(bkg)[j % 4]
            },
    )
}

fn build_column(height: usize, yon: usize, short: &Vec<u8>, bkg: Bgr) -> (column: Vec<u8>)
    requires
        height <= MAX_VBAR_HEIGHT,
        yon <= 0xFF,
        short@.len() % 4 == 0,
    ensures
        column@ == built_column(height as nat, yon as int, short@, bkg),
        column@.len() == 4 * height,
{
    let mut column: Vec<u8> = Vec::with_capacity(height * 4);
    for row in 0..height
        invariant
            height <= MAX_VBAR_HEIGHT,
            yon <= 0xFF,
            short@.len() % 4 == 0,
            column@.len() == 4 * row,
            forall|j: int| 0 <= j < column@.len() ==> column@[j] == built_column(
                height as nat,
                yon as int,
                short@,
                bkg,
            )[j],
    {
        if yon <= row && row - yon < short.len() / 4 {
            let at: usize = 4 * (row - yon);
            column.push(short[at]);
            column.push(short[at + 1]);
            column.push(short[at + 2]);
            column.push(short[at + 3]);
        } else {
            column.push(bkg.r);
            column.push(bkg.g);
            column.push(bkg.b);
            column.push(0);
        }
    }
    assert(column@ =~= built_column(height as nat, yon as int, short@, bkg));
    column
}

/// A cached column fitted to a band's height: its own pixels, truncated or zero-padded.
pub open spec fn fitted_column(stored: Seq<u8>, height: nat) -> Seq<u8> {
    Seq::new(4 * height, |j: int| if j < stored.len() { stored[j] } else { 0u8 })
}

fn fit_column(stored: &Vec<u8>, height: usize) -> (column: Vec<u8>)
    requires
        height <= MAX_VBAR_HEIGHT,
    ensures
        column@ == fitted_column(stored@, height as nat),
        column@.len() == 4 * height,
{
    let mut column: Vec<u8> = Vec::with_capacity(height * 4);
    for j in 0..height * 4
        invariant
            column@.len() == j,
            forall|k: int| 0 <= k < j ==> column@[k] == (if k < stored@.len() { stored@[k] } else { 0u8 }),
    {
        column.push(if j < stored.len() { stored[j] } else { 0 });
    }
    assert(column@ =~= fitted_column(stored@, height as nat));
    column
}

/// The first `n` pixels of a column, down from (`x`, `top`) of the surface.
pub open spec fn column_spec(c: CanvasView, x: int, top: int, column: Seq<u8>, n: nat) -> CanvasView
    decreases n,
{
    if n == 0 {
        c
    } else {
        column_spec(c, x, top, column, (n - 1) as nat).write(
            x,
            top + n - 1,
            column.subrange(4 * (n - 1), 4 * n as int),
        )
    }
}

/// Where a band is: its first column and row in the rectangle, and how many of each.
#[derive(Clone, Copy, Debug, PartialEq, Eq)]
pub struct Band {
    pub x: u16,
    pub y: u16,
    pub columns: usize,
    pub rows: usize,
    pub bkg: Bgr,
}

/// Column `i` of a band down onto the surface: only a band's first columns, as many as
/// the rectangle is wide, each at most as tall as the rectangle, and clipped to the
/// *surface* rather than to the rectangle, so a band the host places near the
/// rectangle's edge lands on the surface beside it. A column that would leave the
/// surface refuses the rectangle.
pub open spec fn draw_spec(c: CanvasView, a: Area, b: Band, i: int, column: Seq<u8>) -> (
    CanvasView,
    Result<(), Malformed>,
) {
    let count = if column.len() / 4 < a.h { column.len() / 4 } else { a.h as nat };
    let x = a.x + b.x + i;
    let top = a.y + b.y;
    if i >= a.w {
        (c, Ok(()))
    } else if x >= c.width || top + count > c.height {
        (c, Err(refusal("a band column past the surface", x as u64)))
    } else {
        let drawn = column_spec(c, x, top, column, count);
        let bounds = Bounds {
            left: x as usize,
            top: top as usize,
            right: (x + 1) as usize,
            bottom: (top + count) as usize,
        };
        (
            CanvasView {
                columns: if count > 0 { Some(joined(c.columns, bounds)) } else { c.columns },
                ..drawn
            },
            Ok(()),
        )
    }
}

fn draw_column(canvas: &mut Canvas<'_>, a: &Area, b: &Band, i: usize, column: &Vec<u8>) -> (res: Result<
    (),
    Malformed,
>)
    requires
        old(canvas)@.wf(),
        a.inside(old(canvas)@),
        i <= 0xFFFF,
        column@.len() % 4 == 0,
        column@.len() <= 4 * MAX_VBAR_HEIGHT,
    ensures
        draw_spec(old(canvas)@, *a, *b, i as int, column@) == (final(canvas)@, res),
        final(canvas)@.wf(),
        final(canvas)@.sized_as(old(canvas)@),
        final(final(canvas).pixels)@ == final(old(canvas).pixels)@,
{
    if i >= a.w {
        return Ok(());
    }
    let tall: usize = column.len() / 4;
    let count: usize = if tall < a.h { tall } else { a.h };
    let x: usize = a.x + b.x as usize + i;
    let top: usize = a.y + b.y as usize;
    if x >= canvas.width || top + count > canvas.height {
        return Err(refuse("a band column past the surface", x as u64));
    }
    for row in 0..count
        invariant
            canvas@.wf(),
            canvas@.sized_as(old(canvas)@),
            canvas@.columns == old(canvas)@.columns,
            x < canvas@.width,
            top + count <= canvas@.height,
            4 * count <= column@.len(),
            count <= MAX_VBAR_HEIGHT,
            final(canvas.pixels)@ == final(old(canvas).pixels)@,
            canvas@ == column_spec(old(canvas)@, x as int, top as int, column@, row as nat),
    {
        let px = slice_subrange(column.as_slice(), 4 * row, 4 * row + 4);
        canvas.write(x, top + row, px);
        assert(px@ =~= column@.subrange(4 * row as int, 4 * (row + 1)));
    }
    if count > 0 {
        let here = Bounds { left: x, top, right: x + 1, bottom: top + count };
        canvas.columns = Some(
            match canvas.columns {
                Some(was) => Bounds {
                    left: if was.left < here.left { was.left } else { here.left },
                    top: if was.top < here.top { was.top } else { here.top },
                    right: if was.right > here.right { was.right } else { here.right },
                    bottom: if was.bottom > here.bottom { was.bottom } else { here.bottom },
                },
                None => here,
            },
        );
    }
    Ok(())
}

/// The caches and the surface, which the bands change together.
pub struct Work {
    pub clear: ClearView,
    pub canvas: CanvasView,
}

/// `n` more pixels of a short bar, after those already got.
pub open spec fn bar_step(c: Cursor, n: nat, got: Seq<u8>) -> Step<Seq<u8>>
    decreases n,
{
    if n == 0 {
        Step::Got(got, c)
    } else {
        match bgr_step(c) {
            Step::Stop(e) => Step::Stop(e),
            Step::Got(color, c) => bar_step(c, (n - 1) as nat, got + pixel(color)),
        }
    }
}

fn read_bar(r: &mut Reader<'_>, count: usize) -> (res: Result<Vec<u8>, Malformed>)
    ensures
        view_steps(res, final(r)@, bar_step(old(r)@, count as nat, seq![])),
        res matches Ok(bar) ==> bar@.len() == 4 * count,
        final(r)@.within(),
{
    let _ = r.at();
    let mut bar: Vec<u8> = Vec::new();
    assert(bar@ =~= seq![]);
    for i in 0..count
        invariant
            bar_step(old(r)@, count as nat, seq![]) == bar_step(r@, (count - i) as nat, bar@),
            bar@.len() == 4 * i,
            r@.within(),
    {
        let color = read_bgr(r)?;
        let ghost before = bar@;
        bar.push(color.r);
        bar.push(color.g);
        bar.push(color.b);
        bar.push(0);
        assert(bar@ =~= before + pixel(color));
    }
    Ok(bar)
}

/// The column the next header of a band stands for, and the caches once it is known.
pub open spec fn next_column(c: Cursor, clear: ClearView, b: Band) -> (
    ClearView,
    Step<Seq<u8>>,
) {
    let rows = b.rows as nat;
    match c.u16_le() {
        Step::Stop(e) => (clear, Step::Stop(e)),
        Step::Got(header, c) => if header >= 0x8000 {
            // Full vertical bar, cache hit: the stored column, fitted to the band's
            // height. One that was never stored is black from here on.
            let index = header % 0x8000;
            let stored = if clear.vbars[index as int].len() == 0 {
                Seq::new(4 * rows, |j: int| 0u8)
            } else {
                clear.vbars[index as int]
            };
            (
                ClearView { vbars: clear.vbars.update(index as int, stored), ..clear },
                Step::Got(fitted_column(stored, rows), c),
            )
        } else if header >= 0x4000 {
            // Short vertical bar, cache hit: its pixels are the cached ones, its start
            // row comes on the wire.
            match c.u8() {
                Step::Stop(e) => (clear, Step::Stop(e)),
                Step::Got(yon, c) => {
                    let short = clear.short_vbars[header as int % 0x4000];
                    let column = built_column(rows, yon as int, short, b.bkg);
                    (clear.with_vbar(column), Step::Got(column, c))
                },
            }
        } else {
            // Short vertical bar, cache miss: its pixels follow, and are cached.
            let yon = header % 0x100;
            let yoff = header / 0x100;
            if yoff < yon {
                (clear, Step::Stop(refusal("a short vBar ending above its start", yoff as u64)))
            } else if yoff - yon > MAX_VBAR_HEIGHT {
                (
                    clear,
                    Step::Stop(refusal("a short vBar taller than 52 rows", (yoff - yon) as u64)),
                )
            } else {
                match bar_step(c, (yoff - yon) as nat, seq![]) {
                    Step::Stop(e) => (clear, Step::Stop(e)),
                    Step::Got(short, c) => {
                        let column = built_column(rows, yon as int, short, b.bkg);
                        (clear.with_short(short).with_vbar(column), Step::Got(column, c))
                    },
                }
            }
        },
    }
}

/// The columns of a band from the `i`th on: what the caches and the surface come to, and
/// where the band ends or what was wrong with it.
pub open spec fn columns_spec(c: Cursor, w: Work, a: Area, b: Band, i: nat) -> (
    Work,
    Result<Cursor, Malformed>,
)
    decreases b.columns - i,
{
    if i >= b.columns {
        (w, Ok(c))
    } else {
        let (clear, step) = next_column(c, w.clear, b);
        let w = Work { clear, ..w };
        match step {
            Step::Stop(e) => (w, Err(e)),
            Step::Got(column, c) => {
                let (canvas, res) = draw_spec(w.canvas, a, b, i as int, column);
                let w = Work { canvas, ..w };
                match res {
                    Err(e) => (w, Err(e)),
                    Ok(_) => columns_spec(c, w, a, b, i + 1),
                }
            },
        }
    }
}

/// What opens a band.
pub open spec fn band_step(c: Cursor) -> Step<Band> {
    match c.u16_le() {
        Step::Stop(e) => Step::Stop(e),
        Step::Got(x_start, c) => match c.u16_le() {
            Step::Stop(e) => Step::Stop(e),
            Step::Got(x_end, c) => match c.u16_le() {
                Step::Stop(e) => Step::Stop(e),
                Step::Got(y_start, c) => match c.u16_le() {
                    Step::Stop(e) => Step::Stop(e),
                    Step::Got(y_end, c) => match bgr_step(c) {
                        Step::Stop(e) => Step::Stop(e),
                        Step::Got(bkg, c) => if x_end < x_start {
                            Step::Stop(refusal("a band ending left of its start", x_end as u64))
                        } else if y_end < y_start {
                            Step::Stop(refusal("a band ending above its start", y_end as u64))
                        } else if y_end - y_start + 1 > MAX_VBAR_HEIGHT {
                            Step::Stop(
                                refusal("a band taller than 52 rows", (y_end - y_start + 1) as u64),
                            )
                        } else {
                            Step::Got(
                                Band {
                                    x: x_start,
                                    y: y_start,
                                    columns: (x_end - x_start + 1) as usize,
                                    rows: (y_end - y_start + 1) as usize,
                                    bkg,
                                },
                                c,
                            )
                        },
                    },
                },
            },
        },
    }
}

fn read_band(r: &mut Reader<'_>) -> (res: Result<Band, Malformed>)
    ensures
        steps(res, final(r)@, band_step(old(r)@)),
        res matches Ok(b) ==> b.rows <= MAX_VBAR_HEIGHT && b.columns <= 0x1_0000 && final(r)@.left()
            < old(r)@.left(),
        final(r)@.within(),
{
    let x_start = r.u16_le()?;
    let x_end = r.u16_le()?;
    let y_start = r.u16_le()?;
    let y_end = r.u16_le()?;
    let bkg = read_bgr(r)?;
    if x_end < x_start {
        return Err(refuse("a band ending left of its start", x_end as u64));
    }
    if y_end < y_start {
        return Err(refuse("a band ending above its start", y_end as u64));
    }
    let columns: usize = (x_end - x_start) as usize + 1;
    let rows: usize = (y_end - y_start) as usize + 1;
    if rows > MAX_VBAR_HEIGHT {
        return Err(refuse("a band taller than 52 rows", rows as u64));
    }
    Ok(Band { x: x_start, y: y_start, columns, rows, bkg })
}

/// The banded vertical bars: the layer that carries the desktop's structure and
/// leans on the two vertical-bar caches. [MS-RDPEGFX] 2.2.4.2 and 3.1.8.2.3.
pub open spec fn bands_spec(c: Cursor, w: Work, a: Area) -> (Work, Result<(), Malformed>)
    decreases c.left(),
{
    if c.left() == 0 {
        (w, Ok(()))
    } else {
        match band_step(c) {
            Step::Stop(e) => (w, Err(e)),
            Step::Got(b, c1) => {
                let (w, res) = columns_spec(c1, w, a, b, 0);
                match res {
                    Err(e) => (w, Err(e)),
                    Ok(c2) => if 0 <= c2.left() < c.left() { bands_spec(c2, w, a) } else { (w, Ok(())) },
                }
            },
        }
    }
}

impl Clear {
    /// Store a freshly built column under the rolling cursor, and hand it back for
    /// drawing.
    fn store_vbar(&mut self, column: Vec<u8>) -> (res: Vec<u8>)
        requires
            old(self)@.wf(),
            column@.len() % 4 == 0,
        ensures
            res@ == column@,
            final(self)@ == old(self)@.with_vbar(column@),
            final(self)@.wf(),
    {
        let mut copy: Vec<u8> = Vec::with_capacity(column.len());
        copy.extend_from_slice(column.as_slice());
        assert(copy@ =~= column@);
        let cursor: usize = self.vbar_cursor;
        self.vbars.set(cursor, copy);
        self.vbar_cursor = (cursor + 1) % VBAR_SIZE;
        assert(self@.vbars =~= old(self)@.vbars.update(cursor as int, column@));
        column
    }

    fn store_short(&mut self, bar: &Vec<u8>)
        requires
            old(self)@.wf(),
            bar@.len() % 4 == 0,
        ensures
            final(self)@ == old(self)@.with_short(bar@),
            final(self)@.wf(),
    {
        let mut copy: Vec<u8> = Vec::with_capacity(bar.len());
        copy.extend_from_slice(bar.as_slice());
        assert(copy@ =~= bar@);
        let cursor: usize = self.short_cursor;
        self.short_vbars.set(cursor, copy);
        self.short_cursor = (cursor + 1) % VBAR_SHORT_SIZE;
        assert(self@.short_vbars =~= old(self)@.short_vbars.update(cursor as int, bar@));
    }

    /// The next column of a band.
    fn column(&mut self, r: &mut Reader<'_>, b: &Band) -> (res: Result<Vec<u8>, Malformed>)
        requires
            old(self)@.wf(),
            b.rows <= MAX_VBAR_HEIGHT,
            old(r)@.within(),
        ensures
            final(self)@.wf(),
            final(self)@ == next_column(old(r)@, old(self)@, *b).0,
            view_steps(res, final(r)@, next_column(old(r)@, old(self)@, *b).1),
            res matches Ok(column) ==> column@.len() == 4 * b.rows,
            final(r)@.within(),
            res is Ok ==> final(r)@.left() <= old(r)@.left(),
    {
        let header = r.u16_le()?;
        if header >= 0x8000 {
            let index: usize = (header % 0x8000) as usize;
            assert(self@.vbars[index as int] == self.vbars@[index as int]@);
            if self.vbars[index].len() == 0 {
                let mut blank: Vec<u8> = Vec::new();
                for j in 0..4 * b.rows
                    invariant
                        blank@ == Seq::new(j as nat, |k: int| 0u8),
                {
                    blank.push(0);
                    assert(blank@ =~= Seq::new((j + 1) as nat, |k: int| 0u8));
                }
                self.vbars.set(index, blank);
            }
            proof {
                let stored = self.vbars@[index as int]@;
                assert(self@.vbars =~= old(self)@.vbars.update(index as int, stored));
            }
            Ok(fit_column(&self.vbars[index], b.rows))
        } else if header >= 0x4000 {
            let index: usize = (header % 0x4000) as usize;
            let yon = r.u8()?;
            assert(self@.short_vbars[index as int] == self.short_vbars@[index as int]@);
            let column = build_column(b.rows, yon as usize, &self.short_vbars[index], b.bkg);
            Ok(self.store_vbar(column))
        } else {
            let yon: usize = (header % 0x100) as usize;
            let yoff: usize = (header / 0x100) as usize;
            if yoff < yon {
                return Err(refuse("a short vBar ending above its start", yoff as u64));
            }
            if yoff - yon > MAX_VBAR_HEIGHT {
                return Err(refuse("a short vBar taller than 52 rows", (yoff - yon) as u64));
            }
            let ghost at = r@;
            let bar = read_bar(r, yoff - yon)?;
            proof { bar_only_consumes(at, (yoff - yon) as nat, seq![]); }
            self.store_short(&bar);
            let column = build_column(b.rows, yon, &bar, b.bkg);
            Ok(self.store_vbar(column))
        }
    }

    fn columns(&mut self, r: &mut Reader<'_>, canvas: &mut Canvas<'_>, a: &Area, b: &Band) -> (res: Result<
        (),
        Malformed,
    >)
        requires
            old(self)@.wf(),
            old(canvas)@.wf(),
            a.inside(old(canvas)@),
            b.rows <= MAX_VBAR_HEIGHT,
            b.columns <= 0x1_0000,
            old(r)@.within(),
        ensures
            final(self)@.wf(),
            final(canvas)@.wf(),
            final(canvas)@.sized_as(old(canvas)@),
            final(final(canvas).pixels)@ == final(old(canvas).pixels)@,
            ({
                let (w, want) = columns_spec(
                    old(r)@,
                    Work { clear: old(self)@, canvas: old(canvas)@ },
                    *a,
                    *b,
                    0,
                );
                &&& w == (Work { clear: final(self)@, canvas: final(canvas)@ })
                &&& match res {
                    Ok(_) => want == Ok::<Cursor, Malformed>(final(r)@) && final(r)@.left() <= old(
                        r,
                    )@.left(),
                    Err(e) => want == Err::<Cursor, Malformed>(e),
                }
            }),
            final(r)@.within(),
    {
        for i in 0..b.columns
            invariant
                self@.wf(),
                canvas@.wf(),
                a.inside(canvas@),
                canvas@.sized_as(old(canvas)@),
                b.rows <= MAX_VBAR_HEIGHT,
                b.columns <= 0x1_0000,
                r@.within(),
                r@.left() <= old(r)@.left(),
                final(canvas.pixels)@ == final(old(canvas).pixels)@,
                columns_spec(
                    old(r)@,
                    Work { clear: old(self)@, canvas: old(canvas)@ },
                    *a,
                    *b,
                    0,
                ) == columns_spec(r@, Work { clear: self@, canvas: canvas@ }, *a, *b, i as nat),
        {
            let column = self.column(r, b)?;
            draw_column(canvas, a, b, i, &column)?;
        }
        Ok(())
    }

    fn bands_data(&mut self, section: &[u8], canvas: &mut Canvas<'_>, a: &Area) -> (res: Result<(), Malformed>)
        requires
            old(self)@.wf(),
            old(canvas)@.wf(),
            a.inside(old(canvas)@),
        ensures
            final(self)@.wf(),
            final(canvas)@.wf(),
            final(canvas)@.sized_as(old(canvas)@),
            final(final(canvas).pixels)@ == final(old(canvas).pixels)@,
            bands_spec(
                cursor(WHAT, section@),
                Work { clear: old(self)@, canvas: old(canvas)@ },
                *a,
            ) == (Work { clear: final(self)@, canvas: final(canvas)@ }, res),
    {
        let mut r = Reader::new(WHAT, section);
        let ghost start = r@;
        while !r.is_empty()
            invariant
                self@.wf(),
                canvas@.wf(),
                a.inside(canvas@),
                canvas@.sized_as(old(canvas)@),
                r@.within(),
                start == cursor(WHAT, section@),
                final(canvas.pixels)@ == final(old(canvas).pixels)@,
                bands_spec(start, Work { clear: old(self)@, canvas: old(canvas)@ }, *a) == bands_spec(
                    r@,
                    Work { clear: self@, canvas: canvas@ },
                    *a,
                ),
            decreases r@.left(),
        {
            let b = read_band(&mut r)?;
            self.columns(&mut r, canvas, a, &b)?;
        }
        Ok(())
    }
}

/// Reading a short bar only ever moves forward.
proof fn bar_only_consumes(c: Cursor, n: nat, got: Seq<u8>)
    ensures
        match bar_step(c, n, got) {
            Step::Got(_, after) => after.left() <= c.left(),
            Step::Stop(_) => true,
        },
    decreases n,
{
    if n > 0 {
        match bgr_step(c) {
            Step::Stop(_) => {},
            Step::Got(color, next) => {
                bar_only_consumes(next, (n - 1) as nat, got + pixel(color));
            },
        }
    }
}

/// What the glyph header at the front of a rectangle asked for.
pub enum Glyphish {
    /// No glyph index: decode into the rectangle, store nothing.
    Nothing,
    /// A glyph hit: the rectangle is the cached glyph, already written.
    Hit,
    /// A glyph index to store the decoded rectangle under.
    Store(usize),
}

/// The first `n` rows of a cached rectangle, packed, down onto an area.
pub open spec fn stamp_spec(c: CanvasView, a: Area, packed: Seq<u8>, n: nat) -> CanvasView
    decreases n,
{
    if n == 0 {
        c
    } else {
        let at = 4 * ((n - 1) * a.w);
        stamp_spec(c, a, packed, (n - 1) as nat).write(
            a.x as int,
            a.y + n - 1,
            packed.subrange(at, at + 4 * a.w),
        )
    }
}

/// The first `n` rows of an area as the surface shows them, packed.
pub open spec fn lifted(c: CanvasView, a: Area, n: nat) -> Seq<u8>
    decreases n,
{
    if n == 0 {
        seq![]
    } else {
        let at = c.at(a.x as int, a.y + n - 1);
        lifted(c, a, (n - 1) as nat) + c.pixels.subrange(at, at + 4 * a.w)
    }
}

fn stamp(canvas: &mut Canvas<'_>, a: &Area, packed: &Vec<u8>)
    requires
        old(canvas)@.wf(),
        a.inside(old(canvas)@),
        4 * a.count() <= packed@.len(),
    ensures
        final(canvas)@ == stamp_spec(old(canvas)@, *a, packed@, a.h as nat),
        final(canvas)@.wf(),
        final(canvas)@.sized_as(old(canvas)@),
        final(final(canvas).pixels)@ == final(old(canvas).pixels)@,
{
    let len: usize = packed.len();
    for row in 0..a.h
        invariant
            canvas@.wf(),
            a.inside(canvas@),
            canvas@.sized_as(old(canvas)@),
            4 * a.count() <= packed@.len(),
            len == packed@.len(),
            final(canvas.pixels)@ == final(old(canvas).pixels)@,
            canvas@ == stamp_spec(old(canvas)@, *a, packed@, row as nat),
    {
        proof {
            assert(0 <= row * a.w && row * a.w + a.w <= a.w * a.h) by (nonlinear_arith)
                requires
                    0 <= row < a.h,
                    0 <= a.w,
            ;
        }
        let at: usize = 4 * (row * a.w);
        let px = slice_subrange(packed.as_slice(), at, at + 4 * a.w);
        canvas.write(a.x, a.y + row, px);
    }
}

fn lift(canvas: &Canvas<'_>, a: &Area) -> (packed: Vec<u8>)
    requires
        canvas@.wf(),
        a.inside(canvas@),
    ensures
        packed@ == lifted(canvas@, *a, a.h as nat),
        packed@.len() == 4 * a.count(),
{
    let mut packed: Vec<u8> = Vec::new();
    for row in 0..a.h
        invariant
            canvas@.wf(),
            a.inside(canvas@),
            packed@ == lifted(canvas@, *a, row as nat),
            packed@.len() == 4 * (row * a.w),
    {
        proof { row_is_inside(canvas@, a.x as int, a.y + row, a.w as int); }
        let at: usize = 4 * ((a.y + row) * canvas.width + a.x);
        let ghost before = packed@;
        let px = slice_subrange(canvas.pixels, at, at + 4 * a.w);
        packed.extend_from_slice(px);
        assert(packed@ =~= before + px@);
        assert((row + 1) * a.w == row * a.w + a.w) by (nonlinear_arith);
    }
    assert(a.h * a.w == a.w * a.h) by (nonlinear_arith);
    packed
}

/// The glyph header: the rectangle painted from the cache on a hit, or the slot the
/// decoded rectangle is to be stored under.
pub open spec fn glyph_spec(c: Cursor, clear: ClearView, flags: u8, a: Area, cv: CanvasView) -> (
    CanvasView,
    Step<Glyphish>,
) {
    let hit = flags & FLAG_GLYPH_HIT != 0;
    let indexed = flags & FLAG_GLYPH_INDEX != 0;
    if hit && !indexed {
        (cv, Step::Stop(refusal("a glyph hit without a glyph index, flags", flags as u64)))
    } else if !indexed {
        (cv, Step::Got(Glyphish::Nothing, c))
    } else if a.count() > MAX_GLYPH_PIXELS {
        (cv, Step::Stop(refusal("a glyph larger than a megapixel", a.count() as u64)))
    } else {
        match c.u16_le() {
            Step::Stop(e) => (cv, Step::Stop(e)),
            Step::Got(index, c) => if index >= GLYPH_COUNT {
                (cv, Step::Stop(refusal("a glyph index", index as u64)))
            } else if !hit {
                (cv, Step::Got(Glyphish::Store(index as usize), c))
            } else {
                let entry = clear.glyphs[index as int];
                if entry.pixels.len() == 0 || a.count() > entry.count {
                    (
                        cv,
                        Step::Stop(refusal("a glyph hit on an entry too small, index", index as u64)),
                    )
                } else {
                    (stamp_spec(cv, a, entry.pixels, a.h as nat), Step::Got(Glyphish::Hit, c))
                }
            },
        }
    }
}

/// The sections of a rectangle and what they are layered over.
pub open spec fn layers_spec(c: Cursor, a: Area, w: Work, residual: u32, bands: u32, subcodec: u32) -> (
    Work,
    Result<(), Malformed>,
) {
    let (w, step) = residual_layer(c, a, w, residual);
    match step {
        Step::Stop(e) => (w, Err(e)),
        Step::Got(_, c) => {
            let (w, step) = bands_layer(c, a, w, bands);
            match step {
                Step::Stop(e) => (w, Err(e)),
                Step::Got(_, c) => subcodec_layer(c, a, w, subcodec),
            }
        },
    }
}

pub open spec fn residual_layer(c: Cursor, a: Area, w: Work, length: u32) -> (Work, Step<()>) {
    if length == 0 {
        (w, Step::Got((), c))
    } else {
        match c.bytes(length as int) {
            Step::Stop(e) => (w, Step::Stop(e)),
            Step::Got(section, c) => {
                let (canvas, res) = residual_spec(cursor(WHAT, section), a, w.canvas, 0);
                (
                    Work { canvas, ..w },
                    match res {
                        Err(e) => Step::Stop(e),
                        Ok(_) => Step::Got((), c),
                    },
                )
            },
        }
    }
}

pub open spec fn bands_layer(c: Cursor, a: Area, w: Work, length: u32) -> (Work, Step<()>) {
    if length == 0 {
        (w, Step::Got((), c))
    } else {
        match c.bytes(length as int) {
            Step::Stop(e) => (w, Step::Stop(e)),
            Step::Got(section, c) => {
                let (w, res) = bands_spec(cursor(WHAT, section), w, a);
                (
                    w,
                    match res {
                        Err(e) => Step::Stop(e),
                        Ok(_) => Step::Got((), c),
                    },
                )
            },
        }
    }
}

pub open spec fn subcodec_layer(c: Cursor, a: Area, w: Work, length: u32) -> (Work, Result<(), Malformed>) {
    if length == 0 {
        (w, Ok(()))
    } else {
        match c.bytes(length as int) {
            Step::Stop(e) => (w, Err(e)),
            Step::Got(section, _) => {
                let (canvas, res) = subcodec_spec(cursor(WHAT, section), a, w.canvas);
                (Work { canvas, ..w }, res)
            },
        }
    }
}

/// The rectangle past its glyph header.
pub open spec fn composition_spec(c: Cursor, flags: u8, a: Area, w: Work) -> (Work, Result<(), Malformed>) {
    if c.left() < COMPOSITION {
        if flags & FLAG_GLYPH_HIT != 0 && flags & FLAG_GLYPH_INDEX != 0 {
            (w, Ok(()))
        } else {
            (w, Err(c.missing("a ClearCodec composition header")))
        }
    } else {
        match c.u32_le() {
            Step::Stop(e) => (w, Err(e)),
            Step::Got(residual, c) => match c.u32_le() {
                Step::Stop(e) => (w, Err(e)),
                Step::Got(bands, c) => match c.u32_le() {
                    Step::Stop(e) => (w, Err(e)),
                    Step::Got(subcodec, c) => layers_spec(c, a, w, residual, bands, subcodec),
                },
            },
        }
    }
}

/// The sequence number a rectangle has to carry: whatever the first one did, then the
/// one after the last, round the byte.
pub open spec fn expected_seq(seq: u32, found: u8) -> u32 {
    if seq == 0 { found as u32 } else { seq }
}

/// The caches once a rectangle in sequence has come in.
pub open spec fn sequenced(clear: ClearView, seq: u8, flags: u8) -> ClearView {
    let reset = flags & FLAG_CACHE_RESET != 0;
    ClearView {
        seq: ((seq + 1) % 256) as u32,
        vbar_cursor: if reset { 0 } else { clear.vbar_cursor },
        short_cursor: if reset { 0 } else { clear.short_cursor },
        ..clear
    }
}

/// Decoding one rectangle: the caches and the surface after it, and whether it was all
/// it should be. What was painted before a fault stays.
pub open spec fn decompress_spec(src: Seq<u8>, w: Work, a: Area) -> (Work, Result<(), Malformed>) {
    match cursor(WHAT, src).u8() {
        Step::Stop(e) => (w, Err(e)),
        Step::Got(flags, c) => match c.u8() {
            Step::Stop(e) => (w, Err(e)),
            Step::Got(seq, c) => if seq != expected_seq(w.clear.seq, seq) {
                (w, Err(refusal("a ClearCodec sequence number", seq as u64)))
            } else {
                let clear = sequenced(w.clear, seq, flags);
                let (canvas, step) = glyph_spec(c, clear, flags, a, w.canvas);
                let w = Work { clear, canvas };
                match step {
                    Step::Stop(e) => (w, Err(e)),
                    Step::Got(glyph, c) => {
                        let (w, res) = composition_spec(c, flags, a, w);
                        match (res, glyph) {
                            (Ok(_), Glyphish::Store(slot)) => (
                                Work {
                                    clear: ClearView {
                                        glyphs: w.clear.glyphs.update(
                                            slot as int,
                                            GlyphView {
                                                pixels: lifted(w.canvas, a, a.h as nat),
                                                count: a.count() as nat,
                                            },
                                        ),
                                        ..w.clear
                                    },
                                    ..w
                                },
                                Ok(()),
                            ),
                            _ => (w, res),
                        }
                    },
                }
            },
        },
    }
}

impl Clear {
    pub open spec fn spec_new() -> ClearView {
        ClearView {
            seq: 0,
            glyphs: Seq::new(GLYPH_COUNT as nat, |i: int| GlyphView { pixels: seq![], count: 0 }),
            vbars: Seq::new(VBAR_SIZE as nat, |i: int| seq![]),
            vbar_cursor: 0,
            short_vbars: Seq::new(VBAR_SHORT_SIZE as nat, |i: int| seq![]),
            short_cursor: 0,
        }
    }

    pub fn new() -> (c: Clear)
        ensures
            c@ == Self::spec_new(),
            c@.wf(),
    {
        let mut glyphs: Vec<Glyph> = Vec::with_capacity(GLYPH_COUNT);
        for i in 0..GLYPH_COUNT
            invariant
                glyphs@.len() == i,
                forall|j: int| 0 <= j < i ==> (#[trigger] glyphs@[j])@ == (GlyphView {
                    pixels: seq![],
                    count: 0,
                }),
        {
            let g = Glyph { pixels: Vec::new(), count: 0 };
            assert(g@.pixels =~= seq![]);
            glyphs.push(g);
        }
        let c = Clear {
            seq: 0,
            glyphs,
            vbars: no_bars(VBAR_SIZE),
            vbar_cursor: 0,
            short_vbars: no_bars(VBAR_SHORT_SIZE),
            short_cursor: 0,
        };
        assert(c@.glyphs =~= Self::spec_new().glyphs);
        assert(c@.vbars =~= Self::spec_new().vbars);
        assert(c@.short_vbars =~= Self::spec_new().short_vbars);
        c
    }

    fn glyph_prologue(&self, r: &mut Reader<'_>, flags: u8, canvas: &mut Canvas<'_>, a: &Area) -> (res: Result<
        Glyphish,
        Malformed,
    >)
        requires
            self@.wf(),
            old(canvas)@.wf(),
            a.inside(old(canvas)@),
        ensures
            final(canvas)@.wf(),
            final(canvas)@.sized_as(old(canvas)@),
            final(final(canvas).pixels)@ == final(old(canvas).pixels)@,
            final(canvas)@ == glyph_spec(old(r)@, self@, flags, *a, old(canvas)@).0,
            steps(res, final(r)@, glyph_spec(old(r)@, self@, flags, *a, old(canvas)@).1),
            res matches Ok(Glyphish::Store(slot)) ==> slot < GLYPH_COUNT,
            final(r)@.within(),
    {
        let hit = flags & FLAG_GLYPH_HIT != 0;
        let indexed = flags & FLAG_GLYPH_INDEX != 0;
        let _ = r.at();
        if hit && !indexed {
            return Err(refuse("a glyph hit without a glyph index, flags", flags as u64));
        }
        if !indexed {
            return Ok(Glyphish::Nothing);
        }
        proof { area_fits(*a, canvas@); }
        let count: u64 = a.w as u64 * a.h as u64;
        if count > MAX_GLYPH_PIXELS {
            return Err(refuse("a glyph larger than a megapixel", count));
        }
        let index: usize = r.u16_le()? as usize;
        if index >= GLYPH_COUNT {
            return Err(refuse("a glyph index", index as u64));
        }
        if !hit {
            return Ok(Glyphish::Store(index));
        }
        assert(self@.glyphs[index as int] == self.glyphs@[index as int]@);
        let entry = &self.glyphs[index];
        if entry.pixels.len() == 0 || count > entry.count {
            return Err(refuse("a glyph hit on an entry too small, index", index as u64));
        }
        stamp(canvas, a, &entry.pixels);
        Ok(Glyphish::Hit)
    }

    fn composition(&mut self, r: &mut Reader<'_>, flags: u8, canvas: &mut Canvas<'_>, a: &Area) -> (res: Result<
        (),
        Malformed,
    >)
        requires
            old(self)@.wf(),
            old(canvas)@.wf(),
            a.inside(old(canvas)@),
            old(r)@.within(),
        ensures
            final(self)@.wf(),
            final(canvas)@.wf(),
            final(canvas)@.sized_as(old(canvas)@),
            final(final(canvas).pixels)@ == final(old(canvas).pixels)@,
            composition_spec(
                old(r)@,
                flags,
                *a,
                Work { clear: old(self)@, canvas: old(canvas)@ },
            ) == (Work { clear: final(self)@, canvas: final(canvas)@ }, res),
    {
        // A glyph hit with no room for a composition header is the whole rectangle.
        if r.rest().len() < COMPOSITION {
            if flags & FLAG_GLYPH_HIT != 0 && flags & FLAG_GLYPH_INDEX != 0 {
                return Ok(());
            }
            return Err(r.missing("a ClearCodec composition header"));
        }
        let residual = r.u32_le()?;
        let bands = r.u32_le()?;
        let subcodec = r.u32_le()?;
        if residual > 0 {
            let section = r.bytes(residual as usize)?;
            residual_data(section, canvas, a)?;
        }
        if bands > 0 {
            let section = r.bytes(bands as usize)?;
            self.bands_data(section, canvas, a)?;
        }
        if subcodec > 0 {
            let section = r.bytes(subcodec as usize)?;
            subcodec_data(section, canvas, a)?;
        }
        Ok(())
    }

    /// Decode one `width` by `height` rectangle onto `canvas` at `(x, y)`, over what
    /// the canvas already holds there. The rectangle must lie inside the canvas.
    pub fn decompress(
        &mut self,
        src: &[u8],
        canvas: &mut Canvas<'_>,
        x: usize,
        y: usize,
        width: u16,
        height: u16,
    ) -> (res: Result<(), Malformed>)
        requires
            old(self)@.wf(),
            old(canvas)@.wf(),
            x + width <= old(canvas)@.width,
            y + height <= old(canvas)@.height,
        ensures
            final(self)@.wf(),
            final(canvas)@.wf(),
            final(canvas)@.sized_as(old(canvas)@),
            final(final(canvas).pixels)@ == final(old(canvas).pixels)@,
            decompress_spec(
                src@,
                Work { clear: old(self)@, canvas: old(canvas)@ },
                Area { x, y, w: width as usize, h: height as usize },
            ) == (Work { clear: final(self)@, canvas: final(canvas)@ }, res),
    {
        let a = Area { x, y, w: width as usize, h: height as usize };
        let mut r = Reader::new(WHAT, src);
        let flags = r.u8()?;
        let seq = r.u8()?;
        // The sequence number: it starts at whatever the first rectangle carries,
        // then each rectangle must carry the one after the last, mod 256.
        let expected: u32 = if self.seq == 0 { seq as u32 } else { self.seq };
        if seq as u32 != expected {
            return Err(refuse("a ClearCodec sequence number", seq as u64));
        }
        self.seq = (seq as u32 + 1) % 256;
        if flags & FLAG_CACHE_RESET != 0 {
            self.vbar_cursor = 0;
            self.short_cursor = 0;
        }
        assert(self@ == sequenced(old(self)@, seq, flags));
        let glyph = self.glyph_prologue(&mut r, flags, canvas, &a)?;
        self.composition(&mut r, flags, canvas, &a)?;
        if let Glyphish::Store(slot) = glyph {
            // The rectangle as the surface now shows it, with every pixel no layer
            // painted, which is what a later hit is meant to stamp back down.
            proof { area_fits(a, canvas@); }
            let pixels = lift(canvas, &a);
            let ghost before = self@;
            self.glyphs.set(slot, Glyph { pixels, count: a.w as u64 * a.h as u64 });
            assert(self@.glyphs =~= before.glyphs.update(slot as int, self@.glyphs[slot as int]));
        }
        Ok(())
    }
}

fn no_bars(n: usize) -> (bars: Vec<Vec<u8>>)
    ensures
        bar_views(bars@) == Seq::new(n as nat, |i: int| Seq::<u8>::empty()),
{
    let mut bars: Vec<Vec<u8>> = Vec::with_capacity(n);
    for i in 0..n
        invariant
            bars@.len() == i,
            forall|j: int| 0 <= j < i ==> (#[trigger] bars@[j])@.len() == 0,
    {
        bars.push(Vec::new());
    }
    assert(bar_views(bars@) =~= Seq::new(n as nat, |i: int| Seq::<u8>::empty())) by {
        assert forall|i: int| 0 <= i < n implies bar_views(bars@)[i] == Seq::<u8>::empty() by {
            assert(bars@[i]@ =~= Seq::<u8>::empty());
        }
    }
    bars
}

/// The pixel at (`x`, `y`).
pub open spec fn pixel_at(c: CanvasView, x: int, y: int) -> Seq<u8> {
    c.pixels.subrange(c.at(x, y), c.at(x, y) + 4)
}

pub open spec fn in_area(a: Area, x: int, y: int) -> bool {
    a.x <= x < a.x + a.w && a.y <= y < a.y + a.h
}

pub open spec fn in_bounds(b: Option<Bounds>, x: int, y: int) -> bool {
    match b {
        Some(b) => b.left <= x < b.right && b.top <= y < b.bottom,
        None => false,
    }
}

/// Whether nothing but the rectangle, and the columns it says it painted, may differ.
pub open spec fn keeps(before: CanvasView, after: CanvasView, a: Area) -> bool {
    &&& after.wf()
    &&& after.sized_as(before)
    &&& forall|x: int, y: int| in_bounds(before.columns, x, y) ==> #[trigger] in_bounds(after.columns, x, y)
    &&& forall|x: int, y: int|
        #![trigger pixel_at(after, x, y)]
        0 <= x < before.width && 0 <= y < before.height && !in_area(a, x, y) && !in_bounds(
            after.columns,
            x,
            y,
        ) ==> pixel_at(after, x, y) == pixel_at(before, x, y)
}

/// Writing part of one row leaves every other pixel as it was.
proof fn write_leaves_the_rest(c: CanvasView, x0: int, y0: int, bytes: Seq<u8>, x: int, y: int)
    requires
        c.wf(),
        bytes.len() % 4 == 0,
        0 <= x0,
        x0 + bytes.len() / 4 <= c.width,
        0 <= y0 < c.height,
        0 <= x < c.width,
        0 <= y < c.height,
        y != y0 || x < x0 || x >= x0 + bytes.len() / 4,
    ensures
        c.write(x0, y0, bytes).wf(),
        pixel_at(c.write(x0, y0, bytes), x, y) == pixel_at(c, x, y),
{
    row_is_inside(c, x0, y0, bytes.len() as int / 4);
    row_is_inside(c, x, y, 1);
    pixels_are_apart(c.width, x0, y0, bytes.len() as int / 4, x, y);
    let after = c.write(x0, y0, bytes);
    assert(pixel_at(after, x, y) =~= pixel_at(c, x, y));
}

proof fn put_keeps(before: CanvasView, c: CanvasView, a: Area, x: int, y: int, color: Bgr)
    requires
        before.wf(),
        keeps(before, c, a),
        a.inside(before),
        0 <= x,
        0 <= y,
    ensures
        keeps(before, put_spec(c, a, x, y, color), a),
{
    if x < a.w && y < a.h {
        let after = put_spec(c, a, x, y, color);
        assert(after.pixels.len() == c.pixels.len());
        assert forall|px: int, py: int|
            #![trigger pixel_at(after, px, py)]
            0 <= px < before.width && 0 <= py < before.height && !in_area(a, px, py) && !in_bounds(
                after.columns,
                px,
                py,
            ) implies pixel_at(after, px, py) == pixel_at(before, px, py) by {
            write_leaves_the_rest(c, a.x + x, a.y + y, pixel(color), px, py);
            assert(pixel_at(c, px, py) == pixel_at(before, px, py));
        }
    }
}

proof fn fill_keeps(
    before: CanvasView,
    c: CanvasView,
    a: Area,
    x0: int,
    y0: int,
    stride: int,
    at: int,
    color: Bgr,
    n: nat,
)
    requires
        before.wf(),
        keeps(before, c, a),
        a.inside(before),
        0 <= x0,
        0 <= y0,
        0 <= at,
        n > 0 ==> stride > 0,
    ensures
        keeps(before, fill_spec(c, a, x0, y0, stride, at, color, n), a),
    decreases n,
{
    if n > 0 {
        fill_keeps(before, c, a, x0, y0, stride, at, color, (n - 1) as nat);
        let k = at + n - 1;
        assert(k % stride >= 0 && k / stride >= 0) by (nonlinear_arith)
            requires
                k >= 0,
                stride > 0,
        ;
        put_keeps(
            before,
            fill_spec(c, a, x0, y0, stride, at, color, (n - 1) as nat),
            a,
            x0 + k % stride,
            y0 + k / stride,
            color,
        );
    }
}

proof fn paint_keeps(
    before: CanvasView,
    c: CanvasView,
    a: Area,
    x0: int,
    y0: int,
    stride: int,
    bgr: Seq<u8>,
    n: nat,
)
    requires
        before.wf(),
        keeps(before, c, a),
        a.inside(before),
        0 <= x0,
        0 <= y0,
        n > 0 ==> stride > 0,
    ensures
        keeps(before, paint_spec(c, a, x0, y0, stride, bgr, n), a),
    decreases n,
{
    if n > 0 {
        paint_keeps(before, c, a, x0, y0, stride, bgr, (n - 1) as nat);
        let k = n - 1;
        assert(k % stride >= 0 && k / stride >= 0) by (nonlinear_arith)
            requires
                k >= 0,
                stride > 0,
        ;
        put_keeps(
            before,
            paint_spec(c, a, x0, y0, stride, bgr, (n - 1) as nat),
            a,
            x0 + k % stride,
            y0 + k / stride,
            Bgr { b: bgr[3 * k], g: bgr[3 * k + 1], r: bgr[3 * k + 2] },
        );
    }
}

proof fn suite_keeps(
    before: CanvasView,
    c: CanvasView,
    a: Area,
    s: Sub,
    at: int,
    palette: Seq<Bgr>,
    first: int,
    n: nat,
)
    requires
        before.wf(),
        keeps(before, c, a),
        a.inside(before),
        0 <= at,
        n > 0 ==> s.w > 0,
    ensures
        keeps(before, suite_spec(c, a, s, at, palette, first, n), a),
    decreases n,
{
    if n > 0 {
        suite_keeps(before, c, a, s, at, palette, first, (n - 1) as nat);
        let (k, w) = (at + n - 1, s.w as int);
        assert(k % w >= 0 && k / w >= 0) by (nonlinear_arith)
            requires
                k >= 0,
                w > 0,
        ;
        put_keeps(
            before,
            suite_spec(c, a, s, at, palette, first, (n - 1) as nat),
            a,
            s.x + k % w,
            s.y + k / w,
            palette[first + n - 1],
        );
    }
}

/// A rectangle with a pixel in it is at least one wide.
proof fn count_needs_width(w: int, h: int, at: int)
    requires
        0 <= at < w * h,
        0 <= w,
        0 <= h,
    ensures
        w > 0,
{
    assert(w > 0) by (nonlinear_arith)
        requires
            0 <= at < w * h,
            0 <= w,
            0 <= h,
    ;
}

/// The residual layer stays inside its rectangle, whatever it comes to.
pub proof fn the_residual_stays_inside(before: CanvasView, c: Cursor, a: Area, cv: CanvasView, at: int)
    requires
        before.wf(),
        keeps(before, cv, a),
        a.inside(before),
        0 <= at,
    ensures
        keeps(before, residual_spec(c, a, cv, at).0, a),
    decreases c.left(),
{
    if c.left() != 0 {
        match bgr_step(c) {
            Step::Stop(_) => {},
            Step::Got(color, c1) => match run_length_step(c1) {
                Step::Stop(_) => {},
                Step::Got(run, c2) => {
                    if !(at >= a.count() || run > a.count() - at) {
                        count_needs_width(a.w as int, a.h as int, at);
                        fill_keeps(before, cv, a, 0, 0, a.w as int, at, color, run as nat);
                        if c2.left() < c.left() {
                            the_residual_stays_inside(
                                before,
                                c2,
                                a,
                                fill_spec(cv, a, 0, 0, a.w as int, at, color, run as nat),
                                at + run,
                            );
                        }
                    }
                },
            },
        }
    }
}

proof fn rlex_runs_keep(
    before: CanvasView,
    c: Cursor,
    a: Area,
    s: Sub,
    palette: Seq<Bgr>,
    cv: CanvasView,
    at: int,
)
    requires
        before.wf(),
        keeps(before, cv, a),
        a.inside(before),
        0 <= at,
    ensures
        keeps(before, rlex_runs_spec(c, a, s, palette, cv, at).0, a),
    decreases c.left(),
{
    if c.left() != 0 {
        let count = palette.len() as u8;
        match c.u8() {
            Step::Stop(_) => {},
            Step::Got(tmp, c1) => match run_length_step(c1) {
                Step::Stop(_) => {},
                Step::Got(run, c2) => {
                    let depth = tmp / index_span(count);
                    let last = tmp % index_span(count);
                    let first = if depth <= last { last - depth } else { 0x100 + last - depth };
                    if !(first >= count || last >= count) && at + run <= s.count() {
                        if run > 0 {
                            count_needs_width(s.w as int, s.h as int, at);
                        }
                        fill_keeps(
                            before,
                            cv,
                            a,
                            s.x as int,
                            s.y as int,
                            s.w as int,
                            at,
                            palette[first],
                            run as nat,
                        );
                        let filled = fill_spec(
                            cv,
                            a,
                            s.x as int,
                            s.y as int,
                            s.w as int,
                            at,
                            palette[first],
                            run as nat,
                        );
                        if at + run + depth + 1 <= s.count() {
                            count_needs_width(s.w as int, s.h as int, at + run);
                            let n = (depth + 1) as nat;
                            suite_keeps(before, filled, a, s, at + run, palette, first, n);
                            if c2.left() < c.left() {
                                rlex_runs_keep(
                                    before,
                                    c2,
                                    a,
                                    s,
                                    palette,
                                    suite_spec(filled, a, s, at + run, palette, first, n),
                                    at + run + depth + 1,
                                );
                            }
                        }
                    }
                },
            },
        }
    }
}

/// The subcodec layer stays inside its rectangle, whatever it comes to.
pub proof fn the_subcodecs_stay_inside(before: CanvasView, c: Cursor, a: Area, cv: CanvasView)
    requires
        before.wf(),
        keeps(before, cv, a),
        a.inside(before),
    ensures
        keeps(before, subcodec_spec(c, a, cv).0, a),
    decreases c.left(),
{
    if c.left() != 0 {
        match sub_step(c) {
            Step::Stop(_) => {},
            Step::Got((s, id, data), next) => {
                if s.count() > 0 {
                    count_needs_width(s.w as int, s.h as int, 0);
                }
                sub_fits(s);
                let (x, y, w, n) = (s.x as int, s.y as int, s.w as int, s.count() as nat);
                paint_keeps(before, cv, a, x, y, w, data, n);
                match nsc::decode_spec(data, s.w as nat, s.h as nat) {
                    Err(_) => {},
                    Ok(bgr) => {
                        paint_keeps(before, cv, a, x, y, w, bgr, n);
                    },
                }
                match cursor(WHAT, data).u8() {
                    Step::Stop(_) => {},
                    Step::Got(count, c) => match palette_step(c, count as nat, seq![]) {
                        Step::Stop(_) => {},
                        Step::Got(palette, c) => {
                            rlex_runs_keep(before, c, a, s, palette, cv, 0);
                        },
                    },
                }
                let (after, res) = sub_spec(s, id, data, a, cv);
                assert(keeps(before, after, a));
                if res is Ok && next.left() < c.left() {
                    the_subcodecs_stay_inside(before, next, a, after);
                }
            },
        }
    }
}

proof fn stamp_keeps(before: CanvasView, c: CanvasView, a: Area, packed: Seq<u8>, n: nat)
    requires
        before.wf(),
        keeps(before, c, a),
        a.inside(before),
        n <= a.h,
        4 * a.count() <= packed.len(),
    ensures
        keeps(before, stamp_spec(c, a, packed, n), a),
    decreases n,
{
    if n > 0 {
        stamp_keeps(before, c, a, packed, (n - 1) as nat);
        let mid = stamp_spec(c, a, packed, (n - 1) as nat);
        let at = 4 * ((n - 1) * a.w);
        assert(0 <= (n - 1) * a.w && (n - 1) * a.w + a.w <= a.w * a.h) by (nonlinear_arith)
            requires
                0 < n <= a.h,
                0 <= a.w,
        ;
        let row = packed.subrange(at, at + 4 * a.w);
        let after = stamp_spec(c, a, packed, n);
        assert(after.pixels.len() == mid.pixels.len());
        assert forall|px: int, py: int|
            #![trigger pixel_at(after, px, py)]
            0 <= px < before.width && 0 <= py < before.height && !in_area(a, px, py) && !in_bounds(
                after.columns,
                px,
                py,
            ) implies pixel_at(after, px, py) == pixel_at(before, px, py) by {
            write_leaves_the_rest(mid, a.x as int, a.y + n - 1, row, px, py);
            assert(pixel_at(mid, px, py) == pixel_at(before, px, py));
        }
    }
}

/// A column changes nothing but itself.
proof fn column_leaves_the_rest(c: CanvasView, x: int, top: int, column: Seq<u8>, n: nat, px: int, py: int)
    requires
        c.wf(),
        0 <= x < c.width,
        0 <= top,
        top + n <= c.height,
        4 * n <= column.len(),
        0 <= px < c.width,
        0 <= py < c.height,
        px != x || py < top || py >= top + n,
    ensures
        column_spec(c, x, top, column, n).wf(),
        column_spec(c, x, top, column, n).sized_as(c),
        column_spec(c, x, top, column, n).columns == c.columns,
        pixel_at(column_spec(c, x, top, column, n), px, py) == pixel_at(c, px, py),
    decreases n,
{
    if n > 0 {
        column_leaves_the_rest(c, x, top, column, (n - 1) as nat, px, py);
        let mid = column_spec(c, x, top, column, (n - 1) as nat);
        write_leaves_the_rest(mid, x, top + n - 1, column.subrange(4 * (n - 1), 4 * n as int), px, py);
    }
}

proof fn column_keeps_shape(c: CanvasView, x: int, top: int, column: Seq<u8>, n: nat)
    requires
        c.wf(),
        0 <= x < c.width,
        0 <= top,
        top + n <= c.height,
        4 * n <= column.len(),
    ensures
        column_spec(c, x, top, column, n).wf(),
        column_spec(c, x, top, column, n).sized_as(c),
        column_spec(c, x, top, column, n).columns == c.columns,
    decreases n,
{
    if n > 0 {
        column_keeps_shape(c, x, top, column, (n - 1) as nat);
    }
}

proof fn draw_keeps(before: CanvasView, c: CanvasView, a: Area, b: Band, i: int, column: Seq<u8>)
    requires
        before.wf(),
        keeps(before, c, a),
        a.inside(before),
        0 <= i <= 0xFFFF,
    ensures
        keeps(before, draw_spec(c, a, b, i, column).0, a),
{
    let count = if column.len() / 4 < a.h { column.len() / 4 } else { a.h as nat };
    let x = a.x + b.x + i;
    let top = a.y + b.y;
    if i < a.w && x < c.width && top + count <= c.height {
        column_keeps_shape(c, x, top, column, count);
        let after = draw_spec(c, a, b, i, column).0;
        assert forall|px: int, py: int| in_bounds(before.columns, px, py) implies #[trigger] in_bounds(
            after.columns,
            px,
            py,
        ) by {
            assert(in_bounds(c.columns, px, py));
        }
        assert forall|px: int, py: int|
            #![trigger pixel_at(after, px, py)]
            0 <= px < before.width && 0 <= py < before.height && !in_area(a, px, py) && !in_bounds(
                after.columns,
                px,
                py,
            ) implies pixel_at(after, px, py) == pixel_at(before, px, py) by {
            assert(px != x || py < top || py >= top + count);
            column_leaves_the_rest(c, x, top, column, count, px, py);
            let drawn = column_spec(c, x, top, column, count);
            assert(pixel_at(after, px, py) == pixel_at(drawn, px, py));
            assert(!in_bounds(c.columns, px, py));
            assert(pixel_at(c, px, py) == pixel_at(before, px, py));
        }
    }
}

proof fn columns_keep(before: CanvasView, c: Cursor, w: Work, a: Area, b: Band, i: nat)
    requires
        before.wf(),
        keeps(before, w.canvas, a),
        a.inside(before),
        b.columns <= 0x1_0000,
    ensures
        keeps(before, columns_spec(c, w, a, b, i).0.canvas, a),
    decreases b.columns - i,
{
    if i < b.columns {
        let (clear, step) = next_column(c, w.clear, b);
        match step {
            Step::Stop(_) => {},
            Step::Got(column, c) => {
                draw_keeps(before, w.canvas, a, b, i as int, column);
                let (canvas, res) = draw_spec(w.canvas, a, b, i as int, column);
                if res is Ok {
                    columns_keep(before, c, Work { clear, canvas }, a, b, i + 1);
                }
            },
        }
    }
}

proof fn bands_keep(before: CanvasView, c: Cursor, w: Work, a: Area)
    requires
        before.wf(),
        keeps(before, w.canvas, a),
        a.inside(before),
    ensures
        keeps(before, bands_spec(c, w, a).0.canvas, a),
    decreases c.left(),
{
    if c.left() != 0 {
        match band_step(c) {
            Step::Stop(_) => {},
            Step::Got(b, c1) => {
                columns_keep(before, c1, w, a, b, 0);
                let (w2, res) = columns_spec(c1, w, a, b, 0);
                match res {
                    Err(_) => {},
                    Ok(c2) => {
                        if 0 <= c2.left() < c.left() {
                            bands_keep(before, c2, w2, a);
                        }
                    },
                }
            },
        }
    }
}

/// Whatever a rectangle holds, and whether or not it is all it should be, nothing of the
/// surface changes but the rectangle and the columns that are reported.
pub proof fn a_decode_stays_where_it_says(src: Seq<u8>, w: Work, a: Area)
    requires
        w.clear.wf(),
        w.canvas.wf(),
        a.inside(w.canvas),
    ensures
        keeps(w.canvas, decompress_spec(src, w, a).0.canvas, a),
{
    let before = w.canvas;
    match cursor(WHAT, src).u8() {
        Step::Stop(_) => {},
        Step::Got(flags, c) => match c.u8() {
            Step::Stop(_) => {},
            Step::Got(seq, c) => {
                let clear = sequenced(w.clear, seq, flags);
                let (canvas, step) = glyph_spec(c, clear, flags, a, before);
                assert(keeps(before, canvas, a)) by {
                    match c.u16_le() {
                        Step::Stop(_) => {},
                        Step::Got(index, _) => {
                            if index < GLYPH_COUNT {
                                let entry = clear.glyphs[index as int];
                                assert(entry == w.clear.glyphs[index as int]);
                                assert(entry.pixels.len() == 4 * entry.count);
                                if a.count() <= entry.count {
                                    stamp_keeps(before, before, a, entry.pixels, a.h as nat);
                                }
                            }
                        },
                    }
                }
                match step {
                    Step::Stop(_) => {},
                    Step::Got(_, c) => {
                        composition_keeps(before, c, flags, a, Work { clear, canvas });
                    },
                }
            },
        },
    }
}

proof fn composition_keeps(before: CanvasView, c: Cursor, flags: u8, a: Area, w: Work)
    requires
        before.wf(),
        keeps(before, w.canvas, a),
        a.inside(before),
    ensures
        keeps(before, composition_spec(c, flags, a, w).0.canvas, a),
{
    if c.left() >= COMPOSITION {
        let (n1, n2, n3) = (
            le32_of(c, 0),
            le32_of(c, 4),
            le32_of(c, 8),
        );
        let c = c.plus(4).plus(4).plus(4);
        let (w1, s1) = residual_layer(c, a, w, n1);
        match c.bytes(n1 as int) {
            Step::Stop(_) => {},
            Step::Got(section, _) => {
                the_residual_stays_inside(before, cursor(WHAT, section), a, w.canvas, 0);
            },
        }
        assert(keeps(before, w1.canvas, a));
        match s1 {
            Step::Stop(_) => {},
            Step::Got(_, c) => {
                let (w2, s2) = bands_layer(c, a, w1, n2);
                match c.bytes(n2 as int) {
                    Step::Stop(_) => {},
                    Step::Got(section, _) => {
                        bands_keep(before, cursor(WHAT, section), w1, a);
                    },
                }
                assert(keeps(before, w2.canvas, a));
                match s2 {
                    Step::Stop(_) => {},
                    Step::Got(_, c) => match c.bytes(n3 as int) {
                        Step::Stop(_) => {},
                        Step::Got(section, _) => {
                            the_subcodecs_stay_inside(before, cursor(WHAT, section), a, w2.canvas);
                        },
                    },
                }
            },
        }
    }
}

/// The number `ahead` bytes on from a cursor.
spec fn le32_of(c: Cursor, ahead: int) -> u32 {
    super::wire::le32_at(c.bytes, c.at + ahead)
}

/// The part of the surface that column `i` of a band is drawn on, where it has a pixel on
/// it.
pub open spec fn column_drawn(c: CanvasView, a: Area, b: Band, i: int, column: Seq<u8>) -> Seq<Bounds> {
    let count = if column.len() / 4 < a.h { column.len() / 4 } else { a.h as nat };
    let x = a.x + b.x + i;
    let top = a.y + b.y;
    if i < a.w && x < c.width && top + count <= c.height && count > 0 {
        seq![
            Bounds {
                left: x as usize,
                top: top as usize,
                right: (x + 1) as usize,
                bottom: (top + count) as usize,
            },
        ]
    } else {
        seq![]
    }
}

/// The columns of a band that are drawn, from the `i`th on.
pub open spec fn columns_drawn(c: Cursor, w: Work, a: Area, b: Band, i: nat) -> Seq<Bounds>
    decreases b.columns - i,
{
    if i >= b.columns {
        seq![]
    } else {
        let (clear, step) = next_column(c, w.clear, b);
        match step {
            Step::Stop(_) => seq![],
            Step::Got(column, c) => {
                let (canvas, res) = draw_spec(w.canvas, a, b, i as int, column);
                let here = column_drawn(w.canvas, a, b, i as int, column);
                match res {
                    Err(_) => here,
                    Ok(_) => here + columns_drawn(c, Work { clear, canvas }, a, b, i + 1),
                }
            },
        }
    }
}

/// The columns that are drawn of all the bands of a section.
pub open spec fn bands_drawn(c: Cursor, w: Work, a: Area) -> Seq<Bounds>
    decreases c.left(),
{
    if c.left() == 0 {
        seq![]
    } else {
        match band_step(c) {
            Step::Stop(_) => seq![],
            Step::Got(b, c1) => {
                let here = columns_drawn(c1, w, a, b, 0);
                let (w, res) = columns_spec(c1, w, a, b, 0);
                match res {
                    Err(_) => here,
                    Ok(c2) => if 0 <= c2.left() < c.left() { here + bands_drawn(c2, w, a) } else { here },
                }
            },
        }
    }
}

/// The columns that are drawn past a rectangle's glyph header.
pub open spec fn composition_drawn(c: Cursor, a: Area, w: Work) -> Seq<Bounds> {
    if c.left() < COMPOSITION {
        seq![]
    } else {
        match c.u32_le() {
            Step::Stop(_) => seq![],
            Step::Got(residual, c) => match c.u32_le() {
                Step::Stop(_) => seq![],
                Step::Got(bands, c) => match c.u32_le() {
                    Step::Stop(_) => seq![],
                    Step::Got(_, c) => {
                        let (w, step) = residual_layer(c, a, w, residual);
                        match step {
                            Step::Stop(_) => seq![],
                            Step::Got(_, c) => if bands == 0 {
                                seq![]
                            } else {
                                match c.bytes(bands as int) {
                                    Step::Stop(_) => seq![],
                                    Step::Got(section, _) => bands_drawn(cursor(WHAT, section), w, a),
                                }
                            },
                        }
                    },
                },
            },
        }
    }
}

/// The columns that are drawn of a rectangle, up to its end or what was wrong with it.
pub open spec fn drawn_columns(src: Seq<u8>, w: Work, a: Area) -> Seq<Bounds> {
    match cursor(WHAT, src).u8() {
        Step::Stop(_) => seq![],
        Step::Got(flags, c) => match c.u8() {
            Step::Stop(_) => seq![],
            Step::Got(seq, c) => if seq != expected_seq(w.clear.seq, seq) {
                seq![]
            } else {
                let clear = sequenced(w.clear, seq, flags);
                let (canvas, step) = glyph_spec(c, clear, flags, a, w.canvas);
                match step {
                    Step::Stop(_) => seq![],
                    Step::Got(_, c) => composition_drawn(c, a, Work { clear, canvas }),
                }
            },
        },
    }
}

/// The bounds there may be, as a list.
pub open spec fn as_list(b: Option<Bounds>) -> Seq<Bounds> {
    match b {
        Some(b) => seq![b],
        None => seq![],
    }
}

/// Bounds have all of other bounds in them.
pub open spec fn encloses(outer: Bounds, inner: Bounds) -> bool {
    &&& outer.left <= inner.left && inner.right <= outer.right
    &&& outer.top <= inner.top && inner.bottom <= outer.bottom
}

pub open spec fn encloses_all(outer: Bounds, list: Seq<Bounds>) -> bool {
    forall|i: int| 0 <= i < list.len() ==> encloses(outer, #[trigger] list[i])
}

/// All of a list joined.
spec fn joined_all(list: Seq<Bounds>) -> Option<Bounds>
    decreases list.len(),
{
    if list.len() == 0 { None } else { Some(joined(joined_all(list.drop_last()), list.last())) }
}

proof fn joining_goes_on(list: Seq<Bounds>, more: Seq<Bounds>)
    ensures
        joined_all(as_list(joined_all(list)) + more) == joined_all(list + more),
    decreases more.len(),
{
    reveal_with_fuel(joined_all, 3);
    if more.len() == 0 {
        assert(list + more =~= list);
        let one = as_list(joined_all(list));
        assert(one + more =~= one);
        if list.len() > 0 {
            assert(one.drop_last() =~= seq![]);
        }
    } else {
        joining_goes_on(list, more.drop_last());
        assert((list + more).drop_last() =~= list + more.drop_last());
        let one = as_list(joined_all(list));
        assert((one + more).drop_last() =~= one + more.drop_last());
    }
}

proof fn joining_is_smallest(list: Seq<Bounds>)
    ensures
        match joined_all(list) {
            Some(b) => {
                &&& list.len() > 0
                &&& encloses_all(b, list)
                &&& forall|other: Bounds| encloses_all(other, list) ==> #[trigger] encloses(other, b)
            },
            None => list.len() == 0,
        },
    decreases list.len(),
{
    if list.len() > 0 {
        let before = list.drop_last();
        joining_is_smallest(before);
        let b = joined_all(list)->0;
        assert forall|i: int| 0 <= i < list.len() implies encloses(b, #[trigger] list[i]) by {
            if i < before.len() {
                assert(before[i] == list[i]);
                assert(encloses(joined_all(before)->0, before[i]));
            }
        }
        assert forall|other: Bounds| encloses_all(other, list) implies #[trigger] encloses(other, b) by {
            assert(encloses(other, list[list.len() - 1]));
            if before.len() > 0 {
                assert forall|i: int| 0 <= i < before.len() implies encloses(other, #[trigger] before[i]) by {
                    assert(before[i] == list[i]);
                }
                assert(encloses(other, joined_all(before)->0));
            }
        }
    }
}

/// What a band adds to the columns painted is what was drawn of it.
proof fn columns_are_reported(c: Cursor, w: Work, a: Area, b: Band, i: nat)
    ensures
        columns_spec(c, w, a, b, i).0.canvas.columns == joined_all(
            as_list(w.canvas.columns) + columns_drawn(c, w, a, b, i),
        ),
    decreases b.columns - i,
{
    reveal_with_fuel(joined_all, 3);
    let start = as_list(w.canvas.columns);
    assert(start + seq![] =~= start);
    assert(joined_all(start) == w.canvas.columns);
    if i < b.columns {
        let (clear, step) = next_column(c, w.clear, b);
        match step {
            Step::Stop(_) => {},
            Step::Got(column, c) => {
                let (canvas, res) = draw_spec(w.canvas, a, b, i as int, column);
                let here = column_drawn(w.canvas, a, b, i as int, column);
                let count = if column.len() / 4 < a.h { column.len() / 4 } else { a.h as nat };
                column_keeps_columns(w.canvas, a.x + b.x + i, a.y + b.y, column, count);
                if here.len() > 0 {
                    assert((start + here).drop_last() =~= start);
                } else {
                    assert(here =~= seq![]);
                }
                assert(canvas.columns == joined_all(start + here));
                if res is Ok {
                    let rest = Work { clear, canvas };
                    columns_are_reported(c, rest, a, b, i + 1);
                    joining_goes_on(start + here, columns_drawn(c, rest, a, b, i + 1));
                    assert(start + here + columns_drawn(c, rest, a, b, i + 1) =~= start + (here
                        + columns_drawn(c, rest, a, b, i + 1)));
                }
            },
        }
    }
}

proof fn column_keeps_columns(c: CanvasView, x: int, top: int, column: Seq<u8>, n: nat)
    ensures
        column_spec(c, x, top, column, n).columns == c.columns,
    decreases n,
{
    if n > 0 {
        column_keeps_columns(c, x, top, column, (n - 1) as nat);
    }
}

proof fn bands_are_reported(c: Cursor, w: Work, a: Area)
    ensures
        bands_spec(c, w, a).0.canvas.columns == joined_all(
            as_list(w.canvas.columns) + bands_drawn(c, w, a),
        ),
    decreases c.left(),
{
    reveal_with_fuel(joined_all, 2);
    let start = as_list(w.canvas.columns);
    assert(start + seq![] =~= start);
    if c.left() != 0 {
        match band_step(c) {
            Step::Stop(_) => {},
            Step::Got(b, c1) => {
                columns_are_reported(c1, w, a, b, 0);
                let here = columns_drawn(c1, w, a, b, 0);
                let (w2, res) = columns_spec(c1, w, a, b, 0);
                match res {
                    Err(_) => {},
                    Ok(c2) => {
                        if 0 <= c2.left() < c.left() {
                            bands_are_reported(c2, w2, a);
                            joining_goes_on(start + here, bands_drawn(c2, w2, a));
                            assert(start + here + bands_drawn(c2, w2, a) =~= start + (here + bands_drawn(
                                c2,
                                w2,
                                a,
                            )));
                        }
                    },
                }
            },
        }
    }
}

proof fn fill_keeps_columns(
    c: CanvasView,
    a: Area,
    x0: int,
    y0: int,
    stride: int,
    at: int,
    color: Bgr,
    n: nat,
)
    ensures
        fill_spec(c, a, x0, y0, stride, at, color, n).columns == c.columns,
    decreases n,
{
    if n > 0 {
        fill_keeps_columns(c, a, x0, y0, stride, at, color, (n - 1) as nat);
    }
}

proof fn suite_keeps_columns(c: CanvasView, a: Area, s: Sub, at: int, palette: Seq<Bgr>, first: int, n: nat)
    ensures
        suite_spec(c, a, s, at, palette, first, n).columns == c.columns,
    decreases n,
{
    if n > 0 {
        suite_keeps_columns(c, a, s, at, palette, first, (n - 1) as nat);
    }
}

proof fn paint_keeps_columns(
    c: CanvasView,
    a: Area,
    x0: int,
    y0: int,
    stride: int,
    bgr: Seq<u8>,
    n: nat,
)
    ensures
        paint_spec(c, a, x0, y0, stride, bgr, n).columns == c.columns,
    decreases n,
{
    if n > 0 {
        paint_keeps_columns(c, a, x0, y0, stride, bgr, (n - 1) as nat);
    }
}

proof fn stamp_keeps_columns(c: CanvasView, a: Area, packed: Seq<u8>, n: nat)
    ensures
        stamp_spec(c, a, packed, n).columns == c.columns,
    decreases n,
{
    if n > 0 {
        stamp_keeps_columns(c, a, packed, (n - 1) as nat);
    }
}

proof fn residual_keeps_columns(c: Cursor, a: Area, cv: CanvasView, at: int)
    ensures
        residual_spec(c, a, cv, at).0.columns == cv.columns,
    decreases c.left(),
{
    if c.left() != 0 {
        match bgr_step(c) {
            Step::Stop(_) => {},
            Step::Got(color, c1) => match run_length_step(c1) {
                Step::Stop(_) => {},
                Step::Got(run, c2) => {
                    fill_keeps_columns(cv, a, 0, 0, a.w as int, at, color, run as nat);
                    if c2.left() < c.left() {
                        residual_keeps_columns(
                            c2,
                            a,
                            fill_spec(cv, a, 0, 0, a.w as int, at, color, run as nat),
                            at + run,
                        );
                    }
                },
            },
        }
    }
}

proof fn rlex_keeps_columns(c: Cursor, a: Area, s: Sub, palette: Seq<Bgr>, cv: CanvasView, at: int)
    ensures
        rlex_runs_spec(c, a, s, palette, cv, at).0.columns == cv.columns,
    decreases c.left(),
{
    if c.left() != 0 {
        let count = palette.len() as u8;
        match c.u8() {
            Step::Stop(_) => {},
            Step::Got(tmp, c1) => match run_length_step(c1) {
                Step::Stop(_) => {},
                Step::Got(run, c2) => {
                    let depth = tmp / index_span(count);
                    let last = tmp % index_span(count);
                    let first = if depth <= last { last - depth } else { 0x100 + last - depth };
                    let (x, y, w) = (s.x as int, s.y as int, s.w as int);
                    fill_keeps_columns(cv, a, x, y, w, at, palette[first], run as nat);
                    let filled = fill_spec(cv, a, x, y, w, at, palette[first], run as nat);
                    let n = (depth + 1) as nat;
                    suite_keeps_columns(filled, a, s, at + run, palette, first, n);
                    if c2.left() < c.left() {
                        rlex_keeps_columns(
                            c2,
                            a,
                            s,
                            palette,
                            suite_spec(filled, a, s, at + run, palette, first, n),
                            at + run + depth + 1,
                        );
                    }
                },
            },
        }
    }
}

proof fn subcodecs_keep_columns(c: Cursor, a: Area, cv: CanvasView)
    ensures
        subcodec_spec(c, a, cv).0.columns == cv.columns,
    decreases c.left(),
{
    if c.left() != 0 {
        match sub_step(c) {
            Step::Stop(_) => {},
            Step::Got((s, id, data), next) => {
                let (x, y, w, n) = (s.x as int, s.y as int, s.w as int, s.count() as nat);
                paint_keeps_columns(cv, a, x, y, w, data, n);
                match nsc::decode_spec(data, s.w as nat, s.h as nat) {
                    Err(_) => {},
                    Ok(bgr) => {
                        paint_keeps_columns(cv, a, x, y, w, bgr, n);
                    },
                }
                match cursor(WHAT, data).u8() {
                    Step::Stop(_) => {},
                    Step::Got(count, c) => match palette_step(c, count as nat, seq![]) {
                        Step::Stop(_) => {},
                        Step::Got(palette, c) => {
                            rlex_keeps_columns(c, a, s, palette, cv, 0);
                        },
                    },
                }
                let (after, res) = sub_spec(s, id, data, a, cv);
                assert(after.columns == cv.columns);
                if res is Ok && next.left() < c.left() {
                    subcodecs_keep_columns(next, a, after);
                }
            },
        }
    }
}

proof fn composition_is_reported(c: Cursor, flags: u8, a: Area, w: Work)
    ensures
        composition_spec(c, flags, a, w).0.canvas.columns == joined_all(
            as_list(w.canvas.columns) + composition_drawn(c, a, w),
        ),
{
    reveal_with_fuel(joined_all, 2);
    let start = as_list(w.canvas.columns);
    assert(start + seq![] =~= start);
    if c.left() >= COMPOSITION {
        let (n1, n2, n3) = (
            le32_of(c, 0),
            le32_of(c, 4),
            le32_of(c, 8),
        );
        let c = c.plus(4).plus(4).plus(4);
        let (w1, s1) = residual_layer(c, a, w, n1);
        match c.bytes(n1 as int) {
            Step::Stop(_) => {},
            Step::Got(section, _) => {
                residual_keeps_columns(cursor(WHAT, section), a, w.canvas, 0);
            },
        }
        assert(w1.canvas.columns == w.canvas.columns);
        match s1 {
            Step::Stop(_) => {},
            Step::Got(_, c) => {
                let (w2, s2) = bands_layer(c, a, w1, n2);
                match c.bytes(n2 as int) {
                    Step::Stop(_) => {},
                    Step::Got(section, _) => {
                        bands_are_reported(cursor(WHAT, section), w1, a);
                    },
                }
                match s2 {
                    Step::Stop(_) => {},
                    Step::Got(_, c) => match c.bytes(n3 as int) {
                        Step::Stop(_) => {},
                        Step::Got(section, _) => {
                            subcodecs_keep_columns(cursor(WHAT, section), a, w2.canvas);
                        },
                    },
                }
            },
        }
    }
}

/// What is reported as painted is the smallest part of the surface with every band column
/// that was drawn in it, and with what was reported before: nothing, just where there is
/// none. This holds of a rectangle that is refused too, for the columns drawn before the
/// fault.
pub proof fn the_smallest_part_with_every_column_is_reported(src: Seq<u8>, w: Work, a: Area)
    requires
        w.clear.wf(),
        w.canvas.wf(),
        a.inside(w.canvas),
    ensures
        ({
            let drawn = as_list(w.canvas.columns) + drawn_columns(src, w, a);
            let after = decompress_spec(src, w, a).0.canvas;
            match after.columns {
                Some(b) => {
                    &&& drawn.len() > 0
                    &&& encloses_all(b, drawn)
                    &&& forall|other: Bounds| encloses_all(other, drawn) ==> #[trigger] encloses(other, b)
                    &&& b.left < b.right <= w.canvas.width && b.top < b.bottom <= w.canvas.height
                },
                None => drawn.len() == 0,
            }
        }),
{
    reveal_with_fuel(joined_all, 2);
    a_decode_stays_where_it_says(src, w, a);
    let start = as_list(w.canvas.columns);
    assert(start + seq![] =~= start);
    match cursor(WHAT, src).u8() {
        Step::Stop(_) => {},
        Step::Got(flags, c) => match c.u8() {
            Step::Stop(_) => {},
            Step::Got(seq, c) => {
                let clear = sequenced(w.clear, seq, flags);
                let (canvas, step) = glyph_spec(c, clear, flags, a, w.canvas);
                match c.u16_le() {
                    Step::Stop(_) => {},
                    Step::Got(index, _) => {
                        stamp_keeps_columns(w.canvas, a, clear.glyphs[index as int].pixels, a.h as nat);
                    },
                }
                assert(canvas.columns == w.canvas.columns);
                match step {
                    Step::Stop(_) => {},
                    Step::Got(_, c) => {
                        composition_is_reported(c, flags, a, Work { clear, canvas });
                    },
                }
            },
        },
    }
    joining_is_smallest(start + drawn_columns(src, w, a));
}

/// What one row of an area shows.
pub open spec fn area_row(c: CanvasView, a: Area, row: int) -> Seq<u8> {
    c.pixels.subrange(c.at(a.x as int, a.y + row), c.at(a.x as int, a.y + row) + 4 * a.w)
}

/// A stamped row shows what was stamped, and stamping another leaves it so.
proof fn stamped_row(c: CanvasView, a: Area, packed: Seq<u8>, n: nat, row: int)
    requires
        c.wf(),
        a.inside(c),
        0 <= row < n <= a.h,
        4 * a.count() <= packed.len(),
    ensures
        stamp_spec(c, a, packed, n).wf(),
        stamp_spec(c, a, packed, n).sized_as(c),
        area_row(stamp_spec(c, a, packed, n), a, row) == packed.subrange(
            4 * (row * a.w),
            4 * (row * a.w) + 4 * a.w,
        ),
    decreases n,
{
    let mid = stamp_spec(c, a, packed, (n - 1) as nat);
    if row < n - 1 {
        stamped_row(c, a, packed, (n - 1) as nat, row);
    } else if n > 1 {
        stamped_row(c, a, packed, (n - 1) as nat, 0);
    }
    assert(0 <= (n - 1) * a.w && (n - 1) * a.w + a.w <= a.w * a.h) by (nonlinear_arith)
        requires
            0 < n <= a.h,
            0 <= a.w,
    ;
    assert(0 <= row * a.w && row * a.w + a.w <= a.w * a.h) by (nonlinear_arith)
        requires
            0 <= row < a.h,
            0 <= a.w,
    ;
    let after = stamp_spec(c, a, packed, n);
    row_is_inside(mid, a.x as int, a.y + n - 1, a.w as int);
    row_is_inside(mid, a.x as int, a.y + row, a.w as int);
    if row < n - 1 {
        let w = c.width;
        assert((a.y + row) * w + w <= (a.y + n - 1) * w) by (nonlinear_arith)
            requires
                0 <= w,
                row + 1 <= n - 1,
        ;
    }
    assert(area_row(after, a, row) =~= packed.subrange(4 * (row * a.w), 4 * (row * a.w) + 4 * a.w));
}

/// A glyph hit stamps exactly what was stored: lifting the rectangle again gives back
/// the cached pixels, as many as the rectangle has.
pub proof fn a_stamp_shows_what_was_stored(c: CanvasView, a: Area, packed: Seq<u8>)
    requires
        c.wf(),
        a.inside(c),
        4 * a.count() <= packed.len(),
    ensures
        lifted(stamp_spec(c, a, packed, a.h as nat), a, a.h as nat) == packed.take(4 * a.count()),
{
    lifts_what_was_stamped(c, a, packed, a.h as nat);
    assert(a.h * a.w == a.w * a.h) by (nonlinear_arith);
}

proof fn lifts_what_was_stamped(c: CanvasView, a: Area, packed: Seq<u8>, n: nat)
    requires
        c.wf(),
        a.inside(c),
        n <= a.h,
        4 * a.count() <= packed.len(),
    ensures
        lifted(stamp_spec(c, a, packed, a.h as nat), a, n) == packed.take(4 * (n * a.w)),
        0 <= 4 * (n * a.w) <= packed.len(),
    decreases n,
{
    let after = stamp_spec(c, a, packed, a.h as nat);
    if n == 0 {
        assert(n * a.w == 0) by (nonlinear_arith)
            requires
                n == 0,
        ;
        assert(lifted(after, a, 0) =~= packed.take(0));
    } else {
        lifts_what_was_stamped(c, a, packed, (n - 1) as nat);
        stamped_row(c, a, packed, a.h as nat, n - 1);
        assert(n * a.w == (n - 1) * a.w + a.w && n * a.w <= a.w * a.h) by (nonlinear_arith)
            requires
                0 < n <= a.h,
                0 <= a.w,
        ;
        assert(lifted(after, a, n) =~= packed.take(4 * (n * a.w)));
    }
}

/// A row of a column.
pub open spec fn row_of(column: Seq<u8>, row: int) -> Seq<u8> {
    column.subrange(4 * row, 4 * row + 4)
}

/// Whether a column shows a bar from a row on, down to the bar's end or its own, and one
/// colour above and below it: red first in every pixel, as a surface has them.
pub open spec fn shows_bar(column: Seq<u8>, rows: nat, bar: Seq<Seq<u8>>, start: int, around: Bgr) -> bool {
    &&& column.len() == 4 * rows
    &&& forall|k: int|
        0 <= k < rows ==> #[trigger] row_of(column, k) == if start <= k < start + bar.len() {
            bar[k - start]
        } else {
            seq![around.r, around.g, around.b, 0u8]
        }
}

/// The pixels of a bar that is kept.
pub open spec fn bar_pixels(bar: Seq<u8>) -> Seq<Seq<u8>> {
    Seq::new((bar.len() / 4) as nat, |i: int| bar.subrange(4 * i, 4 * i + 4))
}

/// Whether every bar but one is as it was.
pub open spec fn but_for(before: Seq<Seq<u8>>, after: Seq<Seq<u8>>, i: int) -> bool {
    &&& after.len() == before.len()
    &&& forall|j: int| 0 <= j < before.len() && j != i ==> #[trigger] after[j] == before[j]
}

proof fn a_built_column_shows_its_bar(rows: nat, yon: int, short: Seq<u8>, bkg: Bgr)
    requires
        0 <= yon,
        short.len() % 4 == 0,
    ensures
        shows_bar(built_column(rows, yon, short, bkg), rows, bar_pixels(short), yon, bkg),
{
    let column = built_column(rows, yon, short, bkg);
    assert forall|k: int| 0 <= k < rows implies #[trigger] row_of(column, k) == if yon <= k < yon
        + bar_pixels(short).len() {
        bar_pixels(short)[k - yon]
    } else {
        seq![bkg.r, bkg.g, bkg.b, 0u8]
    } by {
        if yon <= k < yon + bar_pixels(short).len() {
            assert(row_of(column, k) =~= bar_pixels(short)[k - yon]);
        } else {
            assert(row_of(column, k) =~= seq![bkg.r, bkg.g, bkg.b, 0u8]);
        }
    }
}

/// A short bar named by its cache index is the bar that is kept there, drawn from the row
/// that is sent with it, with the band's background above and below it. The column goes into
/// the cache of whole columns, and no other bar changes.
pub proof fn a_kept_bar_is_drawn_from_the_row_sent_with_it(
    c: Cursor,
    clear: ClearView,
    b: Band,
    index: u16,
    start: u8,
)
    requires
        clear.wf(),
        index < 0x4000,
        c.faces(le16((0x4000 + index) as u16) + seq![start]),
    ensures
        ({
            let (after, step) = next_column(c, clear, b);
            match step {
                Step::Stop(_) => false,
                Step::Got(column, next) => {
                    &&& shows_bar(
                        column,
                        b.rows as nat,
                        bar_pixels(clear.short_vbars[index as int]),
                        start as int,
                        b.bkg,
                    )
                    &&& next == c.plus(3)
                    &&& after.short_vbars == clear.short_vbars && after.short_cursor == clear.short_cursor
                    &&& after.vbars[clear.vbar_cursor] == column
                    &&& but_for(clear.vbars, after.vbars, clear.vbar_cursor)
                    &&& after.vbar_cursor == if clear.vbar_cursor == 32767 { 0 } else { clear.vbar_cursor + 1 }
                },
            }
        }),
{
    let header = (0x4000 + index) as u16;
    facing_both(c, le16(header), seq![start]);
    facing(c, le16(header));
    facing(c.plus(2), seq![start]);
    assert(c.bytes[c.at + 0] == le16(header)[0] && c.bytes[c.at + 1] == le16(header)[1]);
    assert(super::wire::le16_at(c.bytes, c.at) == header);
    assert(c.plus(2).bytes[c.plus(2).at + 0] == seq![start][0]);
    let short = clear.short_vbars[index as int];
    assert(header as int % 0x4000 == index);
    assert(short.len() % 4 == 0);
    a_built_column_shows_its_bar(b.rows as nat, start as int, short, b.bkg);
    assert(c.plus(2).plus(1) == c.plus(3));
}

/// Colours as they are sent: blue first.
pub open spec fn sent(colours: Seq<Bgr>) -> Seq<u8>
    decreases colours.len(),
{
    if colours.len() == 0 {
        seq![]
    } else {
        seq![colours[0].b, colours[0].g, colours[0].r] + sent(colours.skip(1))
    }
}

/// Colours as a surface has them: red first.
pub open spec fn as_pixels(colours: Seq<Bgr>) -> Seq<Seq<u8>> {
    Seq::new(colours.len(), |i: int| seq![colours[i].r, colours[i].g, colours[i].b, 0u8])
}

proof fn a_colour_reads_back(c: Cursor, colour: Bgr)
    requires
        c.faces(seq![colour.b, colour.g, colour.r]),
    ensures
        bgr_step(c) == Step::Got(colour, c.plus(3)),
{
    let s = seq![colour.b, colour.g, colour.r];
    facing(c, s);
    assert(c.bytes[c.at + 0] == s[0] && c.bytes[c.at + 1] == s[1] && c.bytes[c.at + 2] == s[2]);
    assert(c.plus(1).plus(1).plus(1) == c.plus(3));
}

proof fn a_bar_reads_back(c: Cursor, colours: Seq<Bgr>, got: Seq<u8>)
    requires
        c.faces(sent(colours)),
        got.len() % 4 == 0,
    ensures
        match bar_step(c, colours.len(), got) {
            Step::Stop(_) => false,
            Step::Got(bar, next) => {
                &&& next == c.plus(3int * colours.len())
                &&& bar.len() == got.len() + 4 * colours.len()
                &&& bar_pixels(bar) == bar_pixels(got) + as_pixels(colours)
            },
        },
        sent(colours).len() == 3 * colours.len(),
    decreases colours.len(),
{
    if colours.len() == 0 {
        assert(bar_pixels(got) + as_pixels(colours) =~= bar_pixels(got));
        assert(c.plus(0) == c);
    } else {
        let (first, rest) = (colours[0], colours.skip(1));
        let s = seq![first.b, first.g, first.r];
        facing_both(c, s, sent(rest));
        a_colour_reads_back(c, first);
        let more = got + pixel(first);
        a_bar_reads_back(c.plus(3), rest, more);
        assert(bar_pixels(more) =~= bar_pixels(got).push(seq![first.r, first.g, first.b, 0u8])) by {
            let n = got.len() / 4;
            assert forall|i: int| 0 <= i < n implies #[trigger] bar_pixels(more)[i] == bar_pixels(got)[i] by {
                assert(more.subrange(4 * i, 4 * i + 4) =~= got.subrange(4 * i, 4 * i + 4));
            }
            assert(more.subrange(4int * n, 4int * n + 4) =~= pixel(first));
        }
        assert(bar_pixels(more) + as_pixels(rest) =~= bar_pixels(got) + as_pixels(colours));
        assert(c.plus(3).plus(3int * rest.len()) == c.plus(3int * colours.len()));
    }
}

/// A short bar sent with its pixels is drawn from its first row to its last, with the band's
/// background above and below it. It is kept under the next number of the cache of short
/// bars, and the column under that of the cache of whole columns; no other bar changes.
pub proof fn a_bar_that_is_sent_is_drawn_and_kept(
    c: Cursor,
    clear: ClearView,
    b: Band,
    start: u8,
    colours: Seq<Bgr>,
)
    requires
        clear.wf(),
        start + colours.len() < 64,
        colours.len() <= 52,
        c.faces(seq![start, (start + colours.len()) as u8] + sent(colours)),
    ensures
        ({
            let (after, step) = next_column(c, clear, b);
            match step {
                Step::Stop(_) => false,
                Step::Got(column, next) => {
                    &&& shows_bar(column, b.rows as nat, as_pixels(colours), start as int, b.bkg)
                    &&& next == c.plus(2 + 3int * colours.len())
                    &&& bar_pixels(after.short_vbars[clear.short_cursor]) == as_pixels(colours)
                    &&& but_for(clear.short_vbars, after.short_vbars, clear.short_cursor)
                    &&& after.short_cursor == if clear.short_cursor == 16383 { 0 } else { clear.short_cursor + 1 }
                    &&& after.vbars[clear.vbar_cursor] == column
                    &&& but_for(clear.vbars, after.vbars, clear.vbar_cursor)
                    &&& after.vbar_cursor == if clear.vbar_cursor == 32767 { 0 } else { clear.vbar_cursor + 1 }
                },
            }
        }),
{
    let end = (start + colours.len()) as u8;
    let head = seq![start, end];
    facing_both(c, head, sent(colours));
    facing(c, head);
    assert(c.bytes[c.at + 0] == head[0] && c.bytes[c.at + 1] == head[1]);
    let header = super::wire::le16_at(c.bytes, c.at);
    assert(header == start + 0x100 * end);
    assert(header % 0x100 == start && header / 0x100 == end);
    assert(end - start == colours.len());
    a_bar_reads_back(c.plus(2), colours, seq![]);
    assert(bar_pixels(seq![]) + as_pixels(colours) =~= as_pixels(colours));
    match bar_step(c.plus(2), colours.len(), seq![]) {
        Step::Stop(_) => {},
        Step::Got(short, _) => {
            a_built_column_shows_its_bar(b.rows as nat, start as int, short, b.bkg);
            assert(c.plus(2).plus(3int * colours.len()) == c.plus(2 + 3int * colours.len()));
        },
    }
}

/// A whole column named by its cache index is the column that is kept there, cut to the
/// band's rows, or black below it; and no other bar changes.
pub proof fn a_kept_column_is_drawn_as_it_is(c: Cursor, clear: ClearView, b: Band, index: u16)
    requires
        clear.wf(),
        index < 0x8000,
        clear.vbars[index as int].len() > 0,
        c.faces(le16((0x8000 + index) as u16)),
    ensures
        ({
            let kept = clear.vbars[index as int];
            let (after, step) = next_column(c, clear, b);
            match step {
                Step::Stop(_) => false,
                Step::Got(column, next) => {
                    &&& column.len() == 4 * b.rows
                    &&& forall|k: int|
                        0 <= k < b.rows ==> #[trigger] row_of(column, k) == if 4 * k < kept.len() {
                            row_of(kept, k)
                        } else {
                            seq![0u8, 0u8, 0u8, 0u8]
                        }
                    &&& next == c.plus(2)
                    &&& after == clear
                },
            }
        }),
{
    let header = (0x8000 + index) as u16;
    let kept = clear.vbars[index as int];
    facing(c, le16(header));
    assert(c.bytes[c.at + 0] == le16(header)[0] && c.bytes[c.at + 1] == le16(header)[1]);
    assert(super::wire::le16_at(c.bytes, c.at) == header);
    assert(header % 0x8000 == index);
    let (after, step) = next_column(c, clear, b);
    assert(after.vbars =~= clear.vbars);
    let column = fitted_column(kept, b.rows as nat);
    assert(kept.len() % 4 == 0);
    assert forall|k: int| 0 <= k < b.rows implies #[trigger] row_of(column, k) == if 4 * k < kept.len() {
        row_of(kept, k)
    } else {
        seq![0u8, 0u8, 0u8, 0u8]
    } by {
        if 4 * k < kept.len() {
            assert(row_of(column, k) =~= row_of(kept, k));
        } else {
            assert(row_of(column, k) =~= seq![0u8, 0u8, 0u8, 0u8]);
        }
    }
}

/// A bar named by its index, from the row it was first drawn from, is the column that was
/// drawn when it was sent.
pub proof fn a_bar_named_again_is_drawn_again(
    c: Cursor,
    clear: ClearView,
    b: Band,
    start: u8,
    colours: Seq<Bgr>,
    again: Cursor,
)
    requires
        clear.wf(),
        start + colours.len() < 64,
        colours.len() <= 52,
        c.faces(seq![start, (start + colours.len()) as u8] + sent(colours)),
        next_column(c, clear, b).0.wf(),
        again.faces(le16((0x4000 + clear.short_cursor) as u16) + seq![start]),
    ensures
        match (next_column(c, clear, b).1, next_column(again, next_column(c, clear, b).0, b).1) {
            (Step::Got(one, _), Step::Got(other, _)) => one == other,
            _ => false,
        },
{
    a_bar_that_is_sent_is_drawn_and_kept(c, clear, b, start, colours);
    let after = next_column(c, clear, b).0;
    let index = clear.short_cursor as u16;
    a_kept_bar_is_drawn_from_the_row_sent_with_it(again, after, b, index, start);
    match (next_column(c, clear, b).1, next_column(again, after, b).1) {
        (Step::Got(one, _), Step::Got(other, _)) => {
            assert forall|j: int| 0 <= j < one.len() implies one[j] == other[j] by {
                let k = j / 4;
                assert(row_of(one, k) == row_of(other, k));
                assert(one[j] == row_of(one, k)[j - 4 * k] && other[j] == row_of(other, k)[j - 4 * k]);
            }
            assert(one =~= other);
        },
        _ => {},
    }
}

/// What opens a band is what was written: its columns and rows from first to last, and its
/// background, blue first.
pub proof fn a_band_opens_as_it_was_written(c: Cursor, left: u16, right: u16, top: u16, bottom: u16, around: Bgr)
    requires
        left <= right,
        top <= bottom,
        bottom - top < 52,
        c.faces(le16(left) + le16(right) + le16(top) + le16(bottom) + seq![around.b, around.g, around.r]),
    ensures
        band_step(c) == Step::Got(
            Band {
                x: left,
                y: top,
                columns: (right - left + 1) as usize,
                rows: (bottom - top + 1) as usize,
                bkg: around,
            },
            c.plus(11),
        ),
{
    let colour = seq![around.b, around.g, around.r];
    facing_both(c, le16(left) + le16(right) + le16(top) + le16(bottom), colour);
    facing_both(c, le16(left) + le16(right) + le16(top), le16(bottom));
    facing_both(c, le16(left) + le16(right), le16(top));
    facing_both(c, le16(left), le16(right));
    a_word_reads_back(c, left);
    a_word_reads_back(c.plus(2), right);
    assert(c.plus(2).plus(2) == c.plus(4));
    a_word_reads_back(c.plus(4), top);
    assert(c.plus(4).plus(2) == c.plus(6));
    a_word_reads_back(c.plus(6), bottom);
    assert(c.plus(6).plus(2) == c.plus(8));
    a_colour_reads_back(c.plus(8), around);
    assert(c.plus(8).plus(3) == c.plus(11));
}

proof fn a_word_reads_back(c: Cursor, n: u16)
    requires
        c.faces(le16(n)),
    ensures
        c.u16_le() == Step::Got(n, c.plus(2)),
{
    facing(c, le16(n));
    assert(c.bytes[c.at + 0] == le16(n)[0] && c.bytes[c.at + 1] == le16(n)[1]);
    assert(super::wire::le16_at(c.bytes, c.at) == n);
}

/// A band column lands where its band and the rectangle say: in the rectangle's column that
/// many to the right, from the band's first row down, as far as the rectangle is tall; and
/// nothing else changes. Columns past as many as the rectangle is wide are not drawn.
pub proof fn a_column_lands_where_its_band_says(
    c: CanvasView,
    a: Area,
    b: Band,
    i: int,
    column: Seq<u8>,
    px: int,
    py: int,
)
    requires
        c.wf(),
        a.inside(c),
        0 <= i,
        0 <= px < c.width,
        0 <= py < c.height,
    ensures
        ({
            let (after, res) = draw_spec(c, a, b, i, column);
            let (x, top) = (a.x + b.x + i, a.y + b.y);
            let rows = if column.len() / 4 < a.h { column.len() / 4 } else { a.h as nat };
            if i < a.w && (x >= c.width || top + rows > c.height) {
                res is Err && after == c
            } else {
                &&& res is Ok
                &&& pixel_at(after, px, py) == if i < a.w && px == x && top <= py < top + rows {
                    row_of(column, py - top)
                } else {
                    pixel_at(c, px, py)
                }
            }
        }),
{
    let (x, top) = (a.x + b.x + i, a.y + b.y);
    let rows = if column.len() / 4 < a.h { column.len() / 4 } else { a.h as nat };
    if i < a.w && x < c.width && top + rows <= c.height {
        a_column_shows(c, x, top, column, rows, px, py);
        let drawn = column_spec(c, x, top, column, rows);
        let after = draw_spec(c, a, b, i, column).0;
        assert(pixel_at(after, px, py) == pixel_at(drawn, px, py));
    }
}

proof fn a_column_shows(c: CanvasView, x: int, top: int, column: Seq<u8>, n: nat, px: int, py: int)
    requires
        c.wf(),
        0 <= x < c.width,
        0 <= top,
        top + n <= c.height,
        4 * n <= column.len(),
        0 <= px < c.width,
        0 <= py < c.height,
    ensures
        column_spec(c, x, top, column, n).wf(),
        column_spec(c, x, top, column, n).sized_as(c),
        pixel_at(column_spec(c, x, top, column, n), px, py) == if px == x && top <= py < top + n {
            row_of(column, py - top)
        } else {
            pixel_at(c, px, py)
        },
    decreases n,
{
    if n > 0 {
        a_column_shows(c, x, top, column, (n - 1) as nat, px, py);
        let mid = column_spec(c, x, top, column, (n - 1) as nat);
        let bytes = column.subrange(4 * (n - 1), 4 * n as int);
        if px == x && py == top + n - 1 {
            a_write_shows(mid, px, py, bytes);
        } else {
            write_leaves_the_rest(mid, x, top + n - 1, bytes, px, py);
        }
    }
}

proof fn a_write_shows(c: CanvasView, x: int, y: int, bytes: Seq<u8>)
    requires
        c.wf(),
        bytes.len() == 4,
        0 <= x < c.width,
        0 <= y < c.height,
    ensures
        c.write(x, y, bytes).wf(),
        pixel_at(c.write(x, y, bytes), x, y) == bytes,
{
    row_is_inside(c, x, y, 1);
    assert(pixel_at(c.write(x, y, bytes), x, y) =~= bytes);
}

/// The `k`th pixel of a part of a rectangle, counted along its rows from the top: the part is
/// `wide` pixels wide and starts (`left`, `top`) from the rectangle's corner.
pub open spec fn spot(c: CanvasView, a: Area, left: int, top: int, wide: int, k: int) -> Seq<u8> {
    pixel_at(c, a.x + left + k % wide, a.y + top + k / wide)
}

/// Whether these colours were laid along the rows of a part of a rectangle from its `from`th
/// pixel on, and no other pixel of the part changed.
pub open spec fn laid(
    before: CanvasView,
    after: CanvasView,
    a: Area,
    left: int,
    top: int,
    wide: int,
    tall: int,
    from: int,
    colours: Seq<Bgr>,
) -> bool {
    &&& after.wf() && after.sized_as(before)
    &&& forall|k: int|
        0 <= k < wide * tall ==> #[trigger] spot(after, a, left, top, wide, k) == if from <= k < from
            + colours.len() {
            seq![colours[k - from].r, colours[k - from].g, colours[k - from].b, 0u8]
        } else {
            spot(before, a, left, top, wide, k)
        }
}

/// A part of a rectangle lies inside it.
pub open spec fn part_of(a: Area, left: int, top: int, wide: int, tall: int) -> bool {
    0 <= left && 0 <= top && 0 < wide && 0 < tall && left + wide <= a.w && top + tall <= a.h
}

proof fn one_more_is_laid(
    before: CanvasView,
    mid: CanvasView,
    a: Area,
    left: int,
    top: int,
    wide: int,
    tall: int,
    from: int,
    colours: Seq<Bgr>,
    colour: Bgr,
)
    requires
        before.wf(),
        a.inside(before),
        part_of(a, left, top, wide, tall),
        laid(before, mid, a, left, top, wide, tall, from, colours),
        0 <= from,
        from + colours.len() < wide * tall,
    ensures
        ({
            let k = from + colours.len();
            laid(
                before,
                put_spec(mid, a, left + k % wide, top + k / wide, colour),
                a,
                left,
                top,
                wide,
                tall,
                from,
                colours.push(colour),
            )
        }),
{
    let k = from + colours.len();
    spot_is_inside(wide, tall, k);
    let (x, y) = (left + k % wide, top + k / wide);
    let after = put_spec(mid, a, x, y, colour);
    a_write_shows(mid, a.x + x, a.y + y, pixel(colour));
    let all = colours.push(colour);
    assert forall|j: int| 0 <= j < wide * tall implies #[trigger] spot(after, a, left, top, wide, j) == if from
        <= j < from + all.len() {
        seq![all[j - from].r, all[j - from].g, all[j - from].b, 0u8]
    } else {
        spot(before, a, left, top, wide, j)
    } by {
        spot_is_inside(wide, tall, j);
        if j == k {
            assert(spot(after, a, left, top, wide, j) == pixel(colour));
        } else {
            assert(j % wide != k % wide || j / wide != k / wide) by {
                vstd::arithmetic::div_mod::lemma_fundamental_div_mod(j, wide);
                vstd::arithmetic::div_mod::lemma_fundamental_div_mod(k, wide);
            }
            write_leaves_the_rest(
                mid,
                a.x + x,
                a.y + y,
                pixel(colour),
                a.x + left + j % wide,
                a.y + top + j / wide,
            );
            assert(spot(after, a, left, top, wide, j) == spot(mid, a, left, top, wide, j));
        }
    }
}

proof fn spot_is_inside(wide: int, tall: int, k: int)
    requires
        0 < wide,
        0 <= k < wide * tall,
    ensures
        0 <= k % wide < wide,
        0 <= k / wide < tall,
{
    assert(0 <= k % wide < wide && 0 <= k / wide < tall) by (nonlinear_arith)
        requires
            0 < wide,
            0 <= k < wide * tall,
    ;
}

proof fn nothing_is_laid(c: CanvasView, a: Area, left: int, top: int, wide: int, tall: int, from: int)
    requires
        c.wf(),
    ensures
        laid(c, c, a, left, top, wide, tall, from, seq![]),
{
}

proof fn laying_goes_on(
    one: CanvasView,
    two: CanvasView,
    three: CanvasView,
    a: Area,
    left: int,
    top: int,
    wide: int,
    tall: int,
    from: int,
    first: Seq<Bgr>,
    then_these: Seq<Bgr>,
)
    requires
        laid(one, two, a, left, top, wide, tall, from, first),
        laid(two, three, a, left, top, wide, tall, from + first.len(), then_these),
    ensures
        laid(one, three, a, left, top, wide, tall, from, first + then_these),
{
    let all = first + then_these;
    assert forall|j: int| 0 <= j < wide * tall implies #[trigger] spot(three, a, left, top, wide, j) == if from
        <= j < from + all.len() {
        seq![all[j - from].r, all[j - from].g, all[j - from].b, 0u8]
    } else {
        spot(one, a, left, top, wide, j)
    } by {
        let mid = spot(two, a, left, top, wide, j);
    }
}

/// A run of one colour.
pub open spec fn run_of(colour: Bgr, n: nat) -> Seq<Bgr> {
    Seq::new(n, |i: int| colour)
}

proof fn a_fill_is_laid(
    c: CanvasView,
    a: Area,
    left: int,
    top: int,
    wide: int,
    tall: int,
    at: int,
    colour: Bgr,
    n: nat,
)
    requires
        c.wf(),
        a.inside(c),
        part_of(a, left, top, wide, tall),
        0 <= at,
        at + n <= wide * tall,
    ensures
        laid(c, fill_spec(c, a, left, top, wide, at, colour, n), a, left, top, wide, tall, at, run_of(colour, n)),
    decreases n,
{
    if n == 0 {
        nothing_is_laid(c, a, left, top, wide, tall, at);
        assert(run_of(colour, n) =~= seq![]);
    } else {
        let m = (n - 1) as nat;
        a_fill_is_laid(c, a, left, top, wide, tall, at, colour, m);
        let mid = fill_spec(c, a, left, top, wide, at, colour, m);
        one_more_is_laid(c, mid, a, left, top, wide, tall, at, run_of(colour, m), colour);
        assert(run_of(colour, m).push(colour) =~= run_of(colour, n));
    }
}

proof fn a_suite_is_laid(c: CanvasView, a: Area, s: Sub, at: int, palette: Seq<Bgr>, first: int, n: nat)
    requires
        c.wf(),
        a.inside(c),
        part_of(a, s.x as int, s.y as int, s.w as int, s.h as int),
        0 <= at,
        at + n <= s.w * s.h,
        0 <= first,
        first + n <= palette.len(),
    ensures
        laid(
            c,
            suite_spec(c, a, s, at, palette, first, n),
            a,
            s.x as int,
            s.y as int,
            s.w as int,
            s.h as int,
            at,
            palette.subrange(first, first + n),
        ),
    decreases n,
{
    let (left, top, wide, tall) = (s.x as int, s.y as int, s.w as int, s.h as int);
    if n == 0 {
        nothing_is_laid(c, a, left, top, wide, tall, at);
        assert(palette.subrange(first, first + n) =~= seq![]);
    } else {
        let m = (n - 1) as nat;
        a_suite_is_laid(c, a, s, at, palette, first, m);
        let mid = suite_spec(c, a, s, at, palette, first, m);
        let before = palette.subrange(first, first + m);
        one_more_is_laid(c, mid, a, left, top, wide, tall, at, before, palette[first + n - 1]);
        assert(before.push(palette[first + n - 1]) =~= palette.subrange(first, first + n));
    }
}

/// The colours that are packed three bytes each, blue first.
pub open spec fn packed_colours(bgr: Seq<u8>, n: nat) -> Seq<Bgr> {
    Seq::new(n, |i: int| Bgr { b: bgr[3 * i], g: bgr[3 * i + 1], r: bgr[3 * i + 2] })
}

proof fn a_paint_is_laid(
    c: CanvasView,
    a: Area,
    left: int,
    top: int,
    wide: int,
    tall: int,
    bgr: Seq<u8>,
    n: nat,
)
    requires
        c.wf(),
        a.inside(c),
        part_of(a, left, top, wide, tall),
        n <= wide * tall,
    ensures
        laid(c, paint_spec(c, a, left, top, wide, bgr, n), a, left, top, wide, tall, 0, packed_colours(bgr, n)),
    decreases n,
{
    if n == 0 {
        nothing_is_laid(c, a, left, top, wide, tall, 0);
        assert(packed_colours(bgr, n) =~= seq![]);
    } else {
        let m = (n - 1) as nat;
        a_paint_is_laid(c, a, left, top, wide, tall, bgr, m);
        let mid = paint_spec(c, a, left, top, wide, bgr, m);
        let colour = Bgr { b: bgr[3int * m], g: bgr[3int * m + 1], r: bgr[3int * m + 2] };
        one_more_is_laid(c, mid, a, left, top, wide, tall, 0, packed_colours(bgr, m), colour);
        assert(packed_colours(bgr, m).push(colour) =~= packed_colours(bgr, n));
    }
}

/// A run of a residual layer: a colour, and how many pixels are of it.
pub struct Run {
    pub colour: Bgr,
    pub n: u32,
}

/// How a length is written: in a byte, or in two after a byte of ones, or in four after
/// three of them.
pub open spec fn length_bytes(n: u32) -> Seq<u8> {
    if n < 255 {
        seq![n as u8]
    } else if n < 65535 {
        seq![255u8] + le16(n as u16)
    } else {
        seq![255u8, 255u8, 255u8] + super::wire::le32(n)
    }
}

proof fn a_length_reads_back(c: Cursor, n: u32)
    requires
        c.faces(length_bytes(n)),
    ensures
        run_length_step(c) == Step::Got(n, c.plus(length_bytes(n).len() as int)),
{
    facing(c, length_bytes(n));
    assert(c.bytes[c.at + 0] == length_bytes(n)[0]);
    if 255 <= n < 65535 {
        facing_both(c, seq![255u8], le16(n as u16));
        a_word_reads_back(c.plus(1), n as u16);
        assert(c.plus(1).plus(2) == c.plus(3));
    } else if n >= 65535 {
        let four = super::wire::le32(n);
        facing_both(c, seq![255u8, 255u8, 255u8], four);
        assert(c.bytes[c.at + 1] == length_bytes(n)[1] && c.bytes[c.at + 2] == length_bytes(n)[2]);
        let d = c.plus(3);
        a_long_reads_back(d, n);
        assert(super::wire::le16_at(c.bytes, c.at + 1) == 0xFFFF);
        assert(c.plus(1).plus(2) == d && d.plus(4) == c.plus(7));
    }
}

pub open spec fn runs_bytes(runs: Seq<Run>) -> Seq<u8>
    decreases runs.len(),
{
    if runs.len() == 0 {
        seq![]
    } else {
        let r = runs[0];
        seq![r.colour.b, r.colour.g, r.colour.r] + length_bytes(r.n) + runs_bytes(runs.skip(1))
    }
}

pub open spec fn runs_shown(runs: Seq<Run>) -> Seq<Bgr>
    decreases runs.len(),
{
    if runs.len() == 0 { seq![] } else { run_of(runs[0].colour, runs[0].n as nat) + runs_shown(runs.skip(1)) }
}

proof fn runs_are_laid(c: Cursor, a: Area, cv: CanvasView, at: int, runs: Seq<Run>)
    requires
        cv.wf(),
        a.inside(cv),
        a.w > 0 && a.h > 0,
        forall|i: int| 0 <= i < runs.len() ==> (#[trigger] runs[i]).n > 0,
        c.faces(runs_bytes(runs)),
        c.left() == runs_bytes(runs).len(),
        0 <= at,
        at + runs_shown(runs).len() == a.w * a.h,
    ensures
        ({
            let (after, res) = residual_spec(c, a, cv, at);
            res is Ok && laid(cv, after, a, 0, 0, a.w as int, a.h as int, at, runs_shown(runs))
        }),
    decreases runs.len(),
{
    let (wide, tall) = (a.w as int, a.h as int);
    if runs.len() == 0 {
        nothing_is_laid(cv, a, 0, 0, wide, tall, at);
    } else {
        let (r, rest) = (runs[0], runs.skip(1));
        assert(r.n > 0);
        let colour = seq![r.colour.b, r.colour.g, r.colour.r];
        facing_both(c, colour + length_bytes(r.n), runs_bytes(rest));
        facing_both(c, colour, length_bytes(r.n));
        a_colour_reads_back(c, r.colour);
        a_length_reads_back(c.plus(3), r.n);
        let next = c.plus(3).plus(length_bytes(r.n).len() as int);
        assert(next == c.plus((colour + length_bytes(r.n)).len() as int));
        let n = r.n as nat;
        assert(runs_shown(runs).len() == n + runs_shown(rest).len());
        let mid = fill_spec(cv, a, 0, 0, wide, at, r.colour, n);
        a_fill_is_laid(cv, a, 0, 0, wide, tall, at, r.colour, n);
        assert forall|i: int| 0 <= i < rest.len() implies (#[trigger] rest[i]).n > 0 by {
            assert(rest[i] == runs[i + 1]);
        }
        runs_are_laid(next, a, mid, at + n, rest);
        let after = residual_spec(next, a, mid, at + n).0;
        laying_goes_on(cv, mid, after, a, 0, 0, wide, tall, at, run_of(r.colour, n), runs_shown(rest));
    }
}

/// A residual layer is its runs of colour, one after another along the rows of the
/// rectangle from its top left corner.
pub proof fn a_residual_layer_is_its_runs(a: Area, cv: CanvasView, runs: Seq<Run>)
    requires
        cv.wf(),
        a.inside(cv),
        a.w > 0 && a.h > 0,
        forall|i: int| 0 <= i < runs.len() ==> (#[trigger] runs[i]).n > 0,
        runs_shown(runs).len() == a.w * a.h,
    ensures
        ({
            let (after, res) = residual_spec(cursor(WHAT, runs_bytes(runs)), a, cv, 0);
            res is Ok && laid(cv, after, a, 0, 0, a.w as int, a.h as int, 0, runs_shown(runs))
        }),
{
    let bytes = runs_bytes(runs);
    assert(bytes.subrange(0, bytes.len() as int) =~= bytes);
    runs_are_laid(cursor(WHAT, bytes), a, cv, 0, runs);
}

/// A sub-rectangle sent as it is, or in NSCodec, shows its pixels along its own rows, at its
/// own place in the rectangle.
pub proof fn a_sub_rectangle_shows_its_pixels(s: Sub, data: Seq<u8>, a: Area, cv: CanvasView)
    requires
        cv.wf(),
        a.inside(cv),
        part_of(a, s.x as int, s.y as int, s.w as int, s.h as int),
    ensures
        ({
            let n = (s.w * s.h) as nat;
            let (left, top, wide, tall) = (s.x as int, s.y as int, s.w as int, s.h as int);
            let (raw, res) = sub_spec(s, 0, data, a, cv);
            &&& data.len() == 3 * n ==> res is Ok && laid(
                cv,
                raw,
                a,
                left,
                top,
                wide,
                tall,
                0,
                packed_colours(data, n),
            )
            &&& data.len() != 3 * n ==> res is Err && raw == cv
            &&& match nsc::decode_spec(data, s.w as nat, s.h as nat) {
                Ok(bgr) => sub_spec(s, 1, data, a, cv).1 is Ok && laid(
                    cv,
                    sub_spec(s, 1, data, a, cv).0,
                    a,
                    left,
                    top,
                    wide,
                    tall,
                    0,
                    packed_colours(bgr, n),
                ),
                Err(e) => sub_spec(s, 1, data, a, cv) == (cv, Err::<(), Malformed>(e)),
            }
        }),
{
    let n = (s.w * s.h) as nat;
    assert(0 <= s.w * s.h) by (nonlinear_arith)
        requires
            0 <= s.w,
            0 <= s.h,
    ;
    let (left, top, wide, tall) = (s.x as int, s.y as int, s.w as int, s.h as int);
    a_paint_is_laid(cv, a, left, top, wide, tall, data, n);
    match nsc::decode_spec(data, s.w as nat, s.h as nat) {
        Err(_) => {},
        Ok(bgr) => a_paint_is_laid(cv, a, left, top, wide, tall, bgr, n),
    }
}

/// A stretch of an RLEX sub-rectangle: a run of one of its colours, and then the colours
/// from that one to another, each once.
pub struct Climb {
    pub first: u8,
    pub last: u8,
    pub run: u32,
}

impl Climb {
    pub open spec fn fits(self, count: int) -> bool {
        self.first <= self.last < count
    }

    /// The last colour's number in as few low bits as count the colours, and how far above
    /// the first it is in the bits over them.
    pub open spec fn bytes(self, span: int) -> Seq<u8> {
        seq![(span * (self.last - self.first) + self.last) as u8] + length_bytes(self.run)
    }

    pub open spec fn shown(self, palette: Seq<Bgr>) -> Seq<Bgr> {
        run_of(palette[self.first as int], self.run as nat) + palette.subrange(
            self.first as int,
            self.last + 1,
        )
    }
}

/// The least power of two that tells so many colours apart, and two at the least.
pub open spec fn span_for(count: int) -> int {
    if count <= 2 {
        2
    } else if count <= 4 {
        4
    } else if count <= 8 {
        8
    } else if count <= 16 {
        16
    } else if count <= 32 {
        32
    } else if count <= 64 {
        64
    } else {
        128
    }
}

pub open spec fn climbs_bytes(climbs: Seq<Climb>, span: int) -> Seq<u8>
    decreases climbs.len(),
{
    if climbs.len() == 0 { seq![] } else { climbs[0].bytes(span) + climbs_bytes(climbs.skip(1), span) }
}

pub open spec fn climbs_shown(climbs: Seq<Climb>, palette: Seq<Bgr>) -> Seq<Bgr>
    decreases climbs.len(),
{
    if climbs.len() == 0 {
        seq![]
    } else {
        climbs[0].shown(palette) + climbs_shown(climbs.skip(1), palette)
    }
}

pub open spec fn climbs_fit(climbs: Seq<Climb>, count: int) -> bool {
    forall|i: int|
        0 <= i < climbs.len() ==> (#[trigger] climbs[i]).fits(count) && span_for(count) * (climbs[i].last
            - climbs[i].first) + climbs[i].last < 256
}

#[verifier::rlimit(40)]
proof fn climbs_are_laid(
    c: Cursor,
    a: Area,
    s: Sub,
    palette: Seq<Bgr>,
    cv: CanvasView,
    at: int,
    climbs: Seq<Climb>,
)
    requires
        cv.wf(),
        a.inside(cv),
        part_of(a, s.x as int, s.y as int, s.w as int, s.h as int),
        1 <= palette.len() <= 127,
        climbs_fit(climbs, palette.len() as int),
        c.faces(climbs_bytes(climbs, span_for(palette.len() as int))),
        c.left() == climbs_bytes(climbs, span_for(palette.len() as int)).len(),
        0 <= at,
        at + climbs_shown(climbs, palette).len() == s.w * s.h,
    ensures
        ({
            let (after, res) = rlex_runs_spec(c, a, s, palette, cv, at);
            res is Ok && laid(
                cv,
                after,
                a,
                s.x as int,
                s.y as int,
                s.w as int,
                s.h as int,
                at,
                climbs_shown(climbs, palette),
            )
        }),
    decreases climbs.len(),
{
    let (left, top, wide, tall) = (s.x as int, s.y as int, s.w as int, s.h as int);
    let count = palette.len() as int;
    let span = span_for(count);
    if climbs.len() == 0 {
        nothing_is_laid(cv, a, left, top, wide, tall, at);
    } else {
        let (k, rest) = (climbs[0], climbs.skip(1));
        assert(k.fits(count) && span * (k.last - k.first) + k.last < 256);
        let tmp = (span * (k.last - k.first) + k.last) as u8;
        facing_both(c, k.bytes(span), climbs_bytes(rest, span));
        facing_both(c, seq![tmp], length_bytes(k.run));
        facing(c, seq![tmp]);
        assert(c.bytes[c.at + 0] == seq![tmp][0]);
        a_length_reads_back(c.plus(1), k.run);
        let next = c.plus(1).plus(length_bytes(k.run).len() as int);
        assert(next == c.plus(k.bytes(span).len() as int));
        let depth = (k.last - k.first) as int;
        a_climb_is_told_apart(count, k);
        let n = (depth + 1) as nat;
        let run = k.run as nat;
        let shown = k.shown(palette);
        assert(shown.len() == run + n);
        let filled = fill_spec(cv, a, left, top, wide, at, palette[k.first as int], run);
        a_fill_is_laid(cv, a, left, top, wide, tall, at, palette[k.first as int], run);
        let suited = suite_spec(filled, a, s, at + run, palette, k.first as int, n);
        a_suite_is_laid(filled, a, s, at + run, palette, k.first as int, n);
        laying_goes_on(
            cv,
            filled,
            suited,
            a,
            left,
            top,
            wide,
            tall,
            at,
            run_of(palette[k.first as int], run),
            palette.subrange(k.first as int, k.first + n),
        );
        assert forall|i: int| 0 <= i < rest.len() implies (#[trigger] rest[i]).fits(count) && span * (
        rest[i].last - rest[i].first) + rest[i].last < 256 by {
            assert(rest[i] == climbs[i + 1]);
        }
        climbs_are_laid(next, a, s, palette, suited, at + run + n, rest);
        let after = rlex_runs_spec(next, a, s, palette, suited, at + run + n).0;
        laying_goes_on(cv, suited, after, a, left, top, wide, tall, at, shown, climbs_shown(rest, palette));
    }
}

proof fn a_climb_is_told_apart(count: int, k: Climb)
    requires
        1 <= count <= 127,
        k.fits(count),
        span_for(count) * (k.last - k.first) + k.last < 256,
    ensures
        ({
            let tmp = (span_for(count) * (k.last - k.first) + k.last) as u8;
            let span = index_span(count as u8);
            &&& span == span_for(count)
            &&& tmp / span == k.last - k.first
            &&& tmp % span == k.last
        }),
{
    let span = span_for(count);
    let d = k.last - k.first;
    let t = span * d + k.last;
    vstd::arithmetic::div_mod::lemma_fundamental_div_mod_converse(t, span, d, k.last as int);
}

/// An RLEX sub-rectangle shows its stretches one after another along its own rows: its
/// palette is the colours that open it, and a stretch is a run of one of them and then the
/// colours from that one to another.
pub proof fn an_rlex_sub_rectangle_shows_its_colours(
    s: Sub,
    palette: Seq<Bgr>,
    climbs: Seq<Climb>,
    a: Area,
    cv: CanvasView,
)
    requires
        cv.wf(),
        a.inside(cv),
        part_of(a, s.x as int, s.y as int, s.w as int, s.h as int),
        1 <= palette.len() <= 127,
        climbs_fit(climbs, palette.len() as int),
        climbs_shown(climbs, palette).len() == s.w * s.h,
    ensures
        ({
            let data = seq![palette.len() as u8] + sent(palette) + climbs_bytes(
                climbs,
                span_for(palette.len() as int),
            );
            let (after, res) = sub_spec(s, 2, data, a, cv);
            res is Ok && laid(
                cv,
                after,
                a,
                s.x as int,
                s.y as int,
                s.w as int,
                s.h as int,
                0,
                climbs_shown(climbs, palette),
            )
        }),
{
    let stretches = climbs_bytes(climbs, span_for(palette.len() as int));
    let head = seq![palette.len() as u8];
    let data = head + sent(palette) + stretches;
    let c = cursor(WHAT, data);
    assert(data.subrange(0, data.len() as int) =~= data);
    facing_both(c, head + sent(palette), stretches);
    facing_both(c, head, sent(palette));
    facing(c, head);
    assert(c.bytes[c.at + 0] == head[0]);
    a_palette_reads_back(c.plus(1), palette, seq![]);
    assert(seq![] + palette =~= palette);
    let d = c.plus(1).plus(3 * palette.len() as int);
    assert(d == c.plus((head + sent(palette)).len() as int));
    climbs_are_laid(d, a, s, palette, cv, 0, climbs);
}

proof fn a_palette_reads_back(c: Cursor, palette: Seq<Bgr>, got: Seq<Bgr>)
    requires
        c.faces(sent(palette)),
    ensures
        palette_step(c, palette.len(), got) == Step::Got(got + palette, c.plus(3 * palette.len() as int)),
        sent(palette).len() == 3 * palette.len(),
    decreases palette.len(),
{
    if palette.len() == 0 {
        assert(got + palette =~= got);
        assert(c.plus(0) == c);
    } else {
        let (first, rest) = (palette[0], palette.skip(1));
        facing_both(c, seq![first.b, first.g, first.r], sent(rest));
        a_colour_reads_back(c, first);
        a_palette_reads_back(c.plus(3), rest, got.push(first));
        assert(got.push(first) + rest =~= got + palette);
        assert(c.plus(3).plus(3 * rest.len() as int) == c.plus(3 * palette.len() as int));
    }
}

/// What opens a sub-rectangle is what was written: where it is and how large, how much of
/// the stream it takes, and which subcodec it is in.
pub proof fn a_sub_rectangle_opens_as_it_was_written(c: Cursor, s: Sub, id: u8, data: Seq<u8>)
    requires
        data.len() <= u32::MAX,
        c.faces(
            le16(s.x) + le16(s.y) + le16(s.w) + le16(s.h) + super::wire::le32(data.len() as u32) + seq![id]
                + data,
        ),
    ensures
        sub_step(c) == Step::Got((s, id, data), c.plus(13int + data.len())),
{
    let four = super::wire::le32(data.len() as u32);
    facing_both(c, le16(s.x) + le16(s.y) + le16(s.w) + le16(s.h) + four + seq![id], data);
    facing_both(c, le16(s.x) + le16(s.y) + le16(s.w) + le16(s.h) + four, seq![id]);
    facing_both(c, le16(s.x) + le16(s.y) + le16(s.w) + le16(s.h), four);
    facing_both(c, le16(s.x) + le16(s.y) + le16(s.w), le16(s.h));
    facing_both(c, le16(s.x) + le16(s.y), le16(s.w));
    facing_both(c, le16(s.x), le16(s.y));
    a_word_reads_back(c, s.x);
    a_word_reads_back(c.plus(2), s.y);
    assert(c.plus(2).plus(2) == c.plus(4));
    a_word_reads_back(c.plus(4), s.w);
    assert(c.plus(4).plus(2) == c.plus(6));
    a_word_reads_back(c.plus(6), s.h);
    assert(c.plus(6).plus(2) == c.plus(8));
    let d = c.plus(8);
    facing(d, four);
    assert(d.bytes[d.at + 0] == four[0] && d.bytes[d.at + 1] == four[1] && d.bytes[d.at + 2] == four[2]
        && d.bytes[d.at + 3] == four[3]);
    assert(super::wire::le32_at(d.bytes, d.at) == data.len());
    assert(d.plus(4) == c.plus(12));
    facing(c.plus(12), seq![id]);
    assert(c.plus(12).bytes[c.plus(12).at + 0] == seq![id][0]);
    assert(c.plus(12).plus(1) == c.plus(13));
    assert(c.plus(13).plus(data.len() as int) == c.plus(13int + data.len()));
}

/// A rectangle as it is written with no glyph: its flags, its number in the sequence, how
/// long its three layers are, and the layers.
pub open spec fn written(flags: u8, number: u8, residual: Seq<u8>, bands: Seq<u8>, subcodecs: Seq<u8>) -> Seq<u8> {
    seq![flags, number] + layers_bytes(residual, bands, subcodecs)
}

pub open spec fn layers_bytes(residual: Seq<u8>, bands: Seq<u8>, subcodecs: Seq<u8>) -> Seq<u8> {
    lengths_of(residual.len(), bands.len(), subcodecs.len()) + residual + bands + subcodecs
}

#[verifier::opaque]
pub open spec fn lengths_of(residual: nat, bands: nat, subcodecs: nat) -> Seq<u8> {
    super::wire::le32(residual as u32) + super::wire::le32(bands as u32) + super::wire::le32(subcodecs as u32)
}

proof fn a_long_reads_back(c: Cursor, n: u32)
    requires
        c.faces(super::wire::le32(n)),
    ensures
        c.u32_le() == Step::Got(n, c.plus(4)),
{
    let four = super::wire::le32(n);
    facing(c, four);
    assert(c.bytes[c.at + 0] == four[0] && c.bytes[c.at + 1] == four[1] && c.bytes[c.at + 2] == four[2]
        && c.bytes[c.at + 3] == four[3]);
    assert(super::wire::le32_at(c.bytes, c.at) == n);
}

proof fn lengths_read_back(c: Cursor, residual: nat, bands: nat, subcodecs: nat)
    requires
        residual <= u32::MAX,
        bands <= u32::MAX,
        subcodecs <= u32::MAX,
        c.faces(lengths_of(residual, bands, subcodecs)),
    ensures
        c.u32_le() == Step::Got(residual as u32, c.plus(4)),
        c.plus(4).u32_le() == Step::Got(bands as u32, c.plus(4).plus(4)),
        c.plus(4).plus(4).u32_le() == Step::Got(subcodecs as u32, c.plus(4).plus(4).plus(4)),
        lengths_of(residual, bands, subcodecs).len() == 12,
        c.left() >= 12,
{
    reveal(lengths_of);
    let (r, b, s) = (
        super::wire::le32(residual as u32),
        super::wire::le32(bands as u32),
        super::wire::le32(subcodecs as u32),
    );
    facing_both(c, r + b, s);
    facing_both(c, r, b);
    a_long_reads_back(c, residual as u32);
    a_long_reads_back(c.plus(4), bands as u32);
    assert(c.plus(4).plus(4) == c.plus(8));
    a_long_reads_back(c.plus(8), subcodecs as u32);
}

/// What the three layers of a rectangle come to, each over what the one before it left.
pub open spec fn layered(a: Area, w: Work, residual: Seq<u8>, bands: Seq<u8>, subcodecs: Seq<u8>) -> (
    Work,
    bool,
) {
    let (one, ok) = if residual.len() == 0 {
        (w.canvas, true)
    } else {
        let (canvas, res) = residual_spec(cursor(WHAT, residual), a, w.canvas, 0);
        (canvas, res is Ok)
    };
    if !ok {
        (Work { canvas: one, ..w }, false)
    } else {
        let (two, ok) = if bands.len() == 0 {
            (Work { canvas: one, ..w }, true)
        } else {
            let (after, res) = bands_spec(cursor(WHAT, bands), Work { canvas: one, ..w }, a);
            (after, res is Ok)
        };
        if !ok {
            (two, false)
        } else if subcodecs.len() == 0 {
            (two, true)
        } else {
            let (canvas, res) = subcodec_spec(cursor(WHAT, subcodecs), a, two.canvas);
            (Work { canvas, ..two }, res is Ok)
        }
    }
}

proof fn layers_are_laid_in_order(
    c: Cursor,
    flags: u8,
    a: Area,
    w: Work,
    residual: Seq<u8>,
    bands: Seq<u8>,
    subcodecs: Seq<u8>,
)
    requires
        residual.len() <= u32::MAX,
        bands.len() <= u32::MAX,
        subcodecs.len() <= u32::MAX,
        c.faces(layers_bytes(residual, bands, subcodecs)),
    ensures
        composition_spec(c, flags, a, w).0 == layered(a, w, residual, bands, subcodecs).0,
        composition_spec(c, flags, a, w).1 is Ok == layered(a, w, residual, bands, subcodecs).1,
{
    let h = lengths_of(residual.len(), bands.len(), subcodecs.len());
    facing_both(c, h + residual + bands, subcodecs);
    facing_both(c, h + residual, bands);
    facing_both(c, h, residual);
    lengths_read_back(c, residual.len(), bands.len(), subcodecs.len());
    let d = c.plus(4).plus(4).plus(4);
    assert(d == c.plus(12));
    assert(d.bytes(residual.len() as int) == Step::Got(residual, d.plus(residual.len() as int)));
    let e = d.plus(residual.len() as int);
    assert(e == c.plus((h + residual).len() as int));
    assert(e.bytes(bands.len() as int) == Step::Got(bands, e.plus(bands.len() as int)));
    let f = e.plus(bands.len() as int);
    assert(f == c.plus((h + residual + bands).len() as int));
    assert(f.bytes(subcodecs.len() as int) == Step::Got(subcodecs, f.plus(subcodecs.len() as int)));
    if residual.len() == 0 {
        assert(e == d);
    }
    if bands.len() == 0 {
        assert(f == e);
    }
}

/// A rectangle with no glyph is its residual layer, then its bands over that, then its
/// sub-rectangles over those. It has to carry the number after the last one's, round the
/// byte, unless there was none; one that does not changes nothing.
pub proof fn a_rectangle_is_its_layers_in_order(
    number: u8,
    residual: Seq<u8>,
    bands: Seq<u8>,
    subcodecs: Seq<u8>,
    w: Work,
    a: Area,
)
    requires
        residual.len() <= u32::MAX,
        bands.len() <= u32::MAX,
        subcodecs.len() <= u32::MAX,
    ensures
        ({
            let (after, res) = decompress_spec(written(0, number, residual, bands, subcodecs), w, a);
            if w.clear.seq != 0 && number != w.clear.seq {
                res is Err && after == w
            } else {
                let next = if number == 255 { 0u32 } else { (number + 1) as u32 };
                let (want, ok) = layered(
                    a,
                    Work { clear: ClearView { seq: next, ..w.clear }, ..w },
                    residual,
                    bands,
                    subcodecs,
                );
                after == want && (res is Ok) == ok
            }
        }),
{
    assert(0u8 & 1u8 == 0 && 0u8 & 2u8 == 0 && 0u8 & 4u8 == 0) by (bit_vector);
    let src = written(0, number, residual, bands, subcodecs);
    let head = seq![0u8, number];
    let c = cursor(WHAT, src);
    assert(src.subrange(0, src.len() as int) =~= src);
    facing_both(c, head, layers_bytes(residual, bands, subcodecs));
    facing(c, head);
    assert(c.bytes[c.at + 0] == head[0] && c.bytes[c.at + 1] == head[1]);
    let d = c.plus(1).plus(1);
    assert(d == c.plus(2));
    let clear = sequenced(w.clear, number, 0);
    layers_are_laid_in_order(d, 0, a, Work { clear, ..w }, residual, bands, subcodecs);
    if w.clear.seq == 0 || number == w.clear.seq {
        let next = if number == 255 { 0u32 } else { (number + 1) as u32 };
        assert(clear == (ClearView { seq: next, ..w.clear }));
    }
}

proof fn a_glyph_to_keep_is_named(number: u8, index: u16, layers: Seq<u8>, clear: ClearView, a: Area, canvas: CanvasView)
    requires
        index < 4000,
        a.w * a.h <= 0x10_0000,
        clear.wf(),
    ensures
        ({
            let c = cursor(WHAT, seq![1u8, number] + (le16(index) + layers));
            let d = c.plus(1).plus(1);
            &&& c.u8() == Step::Got(1u8, c.plus(1))
            &&& c.plus(1).u8() == Step::Got(number, d)
            &&& glyph_spec(d, clear, 1, a, canvas) == (canvas, Step::Got(
                Glyphish::Store(index as usize),
                d.plus(2),
            ))
            &&& d.plus(2).faces(layers)
        }),
{
    assert(1u8 & 1u8 == 1 && 1u8 & 2u8 == 0 && 1u8 & 4u8 == 0) by (bit_vector);
    let (head, glyph) = (seq![1u8, number], le16(index));
    let store = head + (glyph + layers);
    let c = cursor(WHAT, store);
    assert(store.subrange(0, store.len() as int) =~= store);
    facing_both(c, head, glyph + layers);
    facing_both(c.plus(2), glyph, layers);
    facing(c, head);
    assert(c.bytes[c.at + 0] == head[0] && c.bytes[c.at + 1] == head[1]);
    let d = c.plus(1).plus(1);
    assert(d == c.plus(2));
    a_word_reads_back(d, index);
}

/// A rectangle with a glyph index and its layers is kept, as the surface then shows it, under
/// that index, and no other glyph changes.
#[verifier::rlimit(60)]
pub proof fn a_glyph_is_kept_by_its_index(
    number: u8,
    index: u16,
    residual: Seq<u8>,
    bands: Seq<u8>,
    subcodecs: Seq<u8>,
    w: Work,
    a: Area,
)
    requires
        residual.len() <= u32::MAX,
        bands.len() <= u32::MAX,
        subcodecs.len() <= u32::MAX,
        w.clear.wf(),
        index < 4000,
        a.w * a.h <= 0x10_0000,
        w.clear.seq == 0 || number == w.clear.seq,
    ensures
        ({
            let store = seq![1u8, number] + (le16(index) + layers_bytes(residual, bands, subcodecs));
            let (after, res) = decompress_spec(store, w, a);
            let next = if number == 255 { 0u32 } else { (number + 1) as u32 };
            let (want, ok) = layered(
                a,
                Work { clear: ClearView { seq: next, ..w.clear }, ..w },
                residual,
                bands,
                subcodecs,
            );
            &&& (res is Ok) == ok
            &&& after.canvas == want.canvas
            &&& ok && index < want.clear.glyphs.len() ==> {
                &&& after.clear.glyphs[index as int] == (GlyphView {
                    pixels: lifted(after.canvas, a, a.h as nat),
                    count: (a.w * a.h) as nat,
                })
                &&& forall|i: int|
                    0 <= i < want.clear.glyphs.len() && i != index ==> #[trigger] after.clear.glyphs[i]
                        == want.clear.glyphs[i]
            }
        }),
{
    assert(1u8 & 4u8 == 0) by (bit_vector);
    let layers = layers_bytes(residual, bands, subcodecs);
    let store = seq![1u8, number] + (le16(index) + layers);
    let d = cursor(WHAT, store).plus(1).plus(1);
    let clear = sequenced(w.clear, number, 1);
    let next = if number == 255 { 0u32 } else { (number + 1) as u32 };
    assert(clear == (ClearView { seq: next, ..w.clear }));
    let start = Work { clear, ..w };
    a_glyph_to_keep_is_named(number, index, layers, clear, a, w.canvas);
    layers_are_laid_in_order(d.plus(2), 1, a, start, residual, bands, subcodecs);
    assert(number == expected_seq(w.clear.seq, number));
}

/// A glyph index alone, with the flag that says it is kept, shows the rows of what is kept
/// there, in as much of a rectangle as it is asked for; and one that is not kept, or is
/// smaller than that, is refused and shows nothing.
#[verifier::spinoff_prover]
#[verifier::rlimit(60)]
pub proof fn a_glyph_is_shown_by_its_index(number: u8, index: u16, w: Work, a: Area)
    requires
        w.clear.wf(),
        w.canvas.wf(),
        a.inside(w.canvas),
        index < 4000,
        a.w * a.h <= 0x10_0000,
        w.clear.seq == 0 || number == w.clear.seq,
    ensures
        ({
            let kept = w.clear.glyphs[index as int];
            let (after, res) = decompress_spec(seq![3u8, number] + le16(index), w, a);
            if kept.pixels.len() == 0 || kept.count < a.w * a.h {
                res is Err && after.canvas == w.canvas
            } else {
                &&& res is Ok
                &&& after.clear.glyphs == w.clear.glyphs
                &&& forall|row: int|
                    0 <= row < a.h ==> #[trigger] area_row(after.canvas, a, row) == kept.pixels.subrange(
                        4 * (row * a.w),
                        4 * (row * a.w) + 4 * a.w,
                    )
            }
        }),
{
    assert(3u8 & 1u8 == 1 && 3u8 & 2u8 == 2 && 3u8 & 4u8 == 0) by (bit_vector);
    let (head, glyph) = (seq![3u8, number], le16(index));
    let hit = head + glyph;
    let e = cursor(WHAT, hit);
    assert(hit.subrange(0, hit.len() as int) =~= hit);
    facing_both(e, head, glyph);
    facing(e, head);
    assert(e.bytes[e.at + 0] == head[0] && e.bytes[e.at + 1] == head[1]);
    let f = e.plus(1).plus(1);
    assert(f == e.plus(2));
    a_word_reads_back(f, index);
    assert(f.plus(2).left() == 0);
    let kept = w.clear.glyphs[index as int];
    if !(kept.pixels.len() == 0 || kept.count < a.w * a.h) {
        assert(kept.pixels.len() == 4 * kept.count);
        let after = decompress_spec(hit, w, a).0;
        assert(after.canvas == stamp_spec(w.canvas, a, kept.pixels, a.h as nat));
        assert forall|row: int| 0 <= row < a.h implies #[trigger] area_row(after.canvas, a, row)
            == kept.pixels.subrange(4 * (row * a.w), 4 * (row * a.w) + 4 * a.w) by {
            stamped_row(w.canvas, a, kept.pixels, a.h as nat, row);
        }
    }
}

} // verus!
