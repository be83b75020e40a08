//! The owned copy of the remote desktop.

use vstd::prelude::*;
use vstd::slice::slice_subrange;

use crate::pixels::{overwrite, pixel_at, pixels_are_apart, place, row_is_inside, splice, zeroed};
use crate::proto::bitmap::MAX_DESKTOP_BYTES;
use crate::text;

verus! {

/// A rectangle of the desktop, in pixels from the top left.
#[derive(Clone, Copy, Debug, PartialEq, Eq)]
pub struct Rect {
    pub x: u32,
    pub y: u32,
    pub width: u32,
    pub height: u32,
}

pub open spec fn lesser(a: int, b: int) -> int {
    if a < b { a } else { b }
}

pub open spec fn greater(a: int, b: int) -> int {
    if a > b { a } else { b }
}

/// A sum held to 32 bits.
pub open spec fn saturated(a: u32, b: u32) -> int {
    lesser(a + b, u32::MAX as int)
}

impl Rect {
    pub open spec fn right(self) -> int {
        self.x + self.width
    }

    pub open spec fn bottom(self) -> int {
        self.y + self.height
    }

    /// The far edges fit 32 bits.
    pub open spec fn bounded(self) -> bool {
        self.right() <= u32::MAX && self.bottom() <= u32::MAX
    }

    /// Whether a pixel is one of this rectangle's.
    pub open spec fn holds(self, x: int, y: int) -> bool {
        self.x <= x < self.right() && self.y <= y < self.bottom()
    }

    pub open spec fn spec_area(self) -> nat {
        (self.width * self.height) as nat
    }

    pub open spec fn spec_overlaps(self, other: Rect) -> bool {
        &&& self.width > 0 && self.height > 0 && other.width > 0 && other.height > 0
        &&& self.x < other.right() && other.x < self.right()
        &&& self.y < other.bottom() && other.y < self.bottom()
    }

    pub open spec fn spec_union(self, other: Rect) -> Rect {
        let (x, y) = (lesser(self.x as int, other.x as int), lesser(self.y as int, other.y as int));
        Rect {
            x: x as u32,
            y: y as u32,
            width: (greater(self.right(), other.right()) - x) as u32,
            height: (greater(self.bottom(), other.bottom()) - y) as u32,
        }
    }

    pub open spec fn spec_clipped(self, bounds: Rect) -> Option<Rect> {
        let x = greater(self.x as int, bounds.x as int);
        let y = greater(self.y as int, bounds.y as int);
        let right = lesser(saturated(self.x, self.width), saturated(bounds.x, bounds.width));
        let bottom = lesser(saturated(self.y, self.height), saturated(bounds.y, bounds.height));
        if right > x && bottom > y {
            Some(
                Rect {
                    x: x as u32,
                    y: y as u32,
                    width: (right - x) as u32,
                    height: (bottom - y) as u32,
                },
            )
        } else {
            None
        }
    }

    pub fn is_empty(&self) -> (empty: bool)
        ensures
            empty == (self.width == 0 || self.height == 0),
            empty == (forall|x: int, y: int| !#[trigger] self.holds(x, y)),
    {
        if self.width > 0 && self.height > 0 {
            assert(self.holds(self.x as int, self.y as int));
        }
        self.width == 0 || self.height == 0
    }

    /// Whether the two share any pixel.
    pub fn overlaps(&self, other: &Rect) -> (overlap: bool)
        requires
            self.bounded(),
            other.bounded(),
        ensures
            overlap == self.spec_overlaps(*other),
            overlap <==> exists|x: int, y: int| self.holds(x, y) && other.holds(x, y),
    {
        proof { overlapping_is_sharing_a_pixel(*self, *other); }
        !self.is_empty() && !other.is_empty() && self.x < other.x + other.width && other.x < self.x
            + self.width && self.y < other.y + other.height && other.y < self.y + self.height
    }

    /// The pixels this rectangle holds, wide enough that a desktop-sized union
    /// cannot overflow the arithmetic [`stage`] does with it.
    pub fn area(&self) -> (area: u64)
        ensures
            area == self.spec_area(),
    {
        proof {
            assert(0 <= self.width * self.height <= 0xFFFF_FFFF * 0xFFFF_FFFF) by (nonlinear_arith)
                requires
                    0 <= self.width <= 0xFFFF_FFFF,
                    0 <= self.height <= 0xFFFF_FFFF,
            ;
        }
        self.width as u64 * self.height as u64
    }

    /// The smallest rectangle holding both.
    pub fn union(self, other: Rect) -> (r: Rect)
        requires
            self.bounded(),
            other.bounded(),
        ensures
            r == self.spec_union(other),
            r.bounded(),
    {
        let x: u32 = if self.x < other.x { self.x } else { other.x };
        let y: u32 = if self.y < other.y { self.y } else { other.y };
        let (a, b) = (self.x + self.width, other.x + other.width);
        let right: u32 = if a > b { a } else { b };
        let (a, b) = (self.y + self.height, other.y + other.height);
        let bottom: u32 = if a > b { a } else { b };
        Rect { x, y, width: right - x, height: bottom - y }
    }

    /// The part of this rectangle inside `bounds`, or `None` when nothing is.
    pub fn clipped(self, bounds: Rect) -> (r: Option<Rect>)
        ensures
            r == self.spec_clipped(bounds),
            r matches Some(r) ==> r.bounded(),
    {
        let x: u32 = if self.x > bounds.x { self.x } else { bounds.x };
        let y: u32 = if self.y > bounds.y { self.y } else { bounds.y };
        let (a, b) = (self.x.saturating_add(self.width), bounds.x.saturating_add(bounds.width));
        let right: u32 = if a < b { a } else { b };
        let (a, b) = (self.y.saturating_add(self.height), bounds.y.saturating_add(bounds.height));
        let bottom: u32 = if a < b { a } else { b };
        if right > x && bottom > y {
            Some(Rect { x, y, width: right - x, height: bottom - y })
        } else {
            None
        }
    }
}

/// Two rectangles overlap just where they share a pixel, whichever of them is asked.
pub proof fn overlapping_is_sharing_a_pixel(a: Rect, b: Rect)
    ensures
        a.spec_overlaps(b) == b.spec_overlaps(a),
        a.spec_overlaps(b) <==> exists|x: int, y: int| a.holds(x, y) && b.holds(x, y),
{
    if a.spec_overlaps(b) {
        let x = greater(a.x as int, b.x as int);
        let y = greater(a.y as int, b.y as int);
        assert(a.holds(x, y) && b.holds(x, y));
    }
}

/// A union holds every pixel of both, and no rectangle that does is smaller on any side.
pub proof fn a_union_is_the_smallest_with_both(a: Rect, b: Rect)
    requires
        a.bounded(),
        b.bounded(),
    ensures
        forall|x: int, y: int| a.holds(x, y) || b.holds(x, y) ==> #[trigger] a.spec_union(b).holds(x, y),
        forall|r: Rect|
            r.x <= a.x && r.x <= b.x && r.y <= a.y && r.y <= b.y && r.right() >= a.right() && r.right()
                >= b.right() && r.bottom() >= a.bottom() && r.bottom() >= b.bottom() ==> {
                &&& #[trigger] r.x <= a.spec_union(b).x && a.spec_union(b).right() <= r.right()
                &&& r.y <= a.spec_union(b).y && a.spec_union(b).bottom() <= r.bottom()
            },
{
}

/// What is left of a rectangle once clipped is the pixels both have, where neither runs
/// past what 32 bits can say.
pub proof fn clipping_keeps_the_shared_pixels(a: Rect, b: Rect)
    requires
        a.bounded(),
        b.bounded(),
    ensures
        match a.spec_clipped(b) {
            Some(r) => forall|x: int, y: int| #[trigger] r.holds(x, y) <==> a.holds(x, y) && b.holds(x, y),
            None => forall|x: int, y: int| !(#[trigger] a.holds(x, y) && b.holds(x, y)),
        },
{
}

/// Rectangles that do not overlap lose nothing to a union but what is added to them.
pub proof fn disjoint_areas_add_up(a: Rect, b: Rect)
    requires
        a.bounded(),
        b.bounded(),
        !a.spec_overlaps(b),
    ensures
        a.spec_area() + b.spec_area() <= a.spec_union(b).spec_area(),
{
    let u = a.spec_union(b);
    if a.width == 0 || a.height == 0 || b.width == 0 || b.height == 0 {
        let (one, other) = if a.width == 0 || a.height == 0 { (a, b) } else { (b, a) };
        assert(one.width * one.height == 0) by (nonlinear_arith)
            requires
                one.width == 0 || one.height == 0,
        ;
        assert(other.width * other.height <= u.width * u.height) by (nonlinear_arith)
            requires
                0 <= other.width <= u.width,
                0 <= other.height <= u.height,
        ;
    }
    let (aw, ah, bw, bh, uw, uh) = (
        a.width as int,
        a.height as int,
        b.width as int,
        b.height as int,
        u.width as int,
        u.height as int,
    );
    assert(aw <= uw && bw <= uw && ah <= uh && bh <= uh);
    let some = aw > 0 && ah > 0 && bw > 0 && bh > 0;
    assert(some ==> aw + bw <= uw || ah + bh <= uh);
    if some && aw + bw <= uw {
        assert(aw * ah + bw * bh <= uw * uh) by (nonlinear_arith)
            requires
                0 <= aw,
                0 <= bw,
                0 <= ah <= uh,
                0 <= bh <= uh,
                aw + bw <= uw,
        ;
    } else if some {
        assert(aw * ah + bw * bh <= uw * uh) by (nonlinear_arith)
            requires
                0 <= ah,
                0 <= bh,
                0 <= aw <= uw,
                0 <= bw <= uw,
                ah + bh <= uh,
        ;
    }
}

/// Why a desktop will not be held.
#[derive(Clone, Copy, Debug, PartialEq, Eq)]
pub struct TooLarge {
    pub width: u32,
    pub height: u32,
}

impl TooLarge {
    pub open spec fn text(self) -> Seq<char> {
        "the server asked for a "@ + text::decimal(self.width as nat) + "x"@ + text::decimal(
            self.height as nat,
        ) + " desktop, which is more than the "@ + text::decimal(512)
            + " MiB this client will hold"@
    }

    pub fn to_string(&self) -> (s: String)
        ensures
            s@ == self.text(),
    {
        let mut s = String::new();
        s.append("the server asked for a ");
        text::push_decimal(&mut s, self.width as u64);
        s.append("x");
        text::push_decimal(&mut s, self.height as u64);
        s.append(" desktop, which is more than the ");
        text::push_decimal(&mut s, 512);
        s.append(" MiB this client will hold");
        assert(s@ =~= self.text());
        s
    }
}

/// A desktop size the server named, refused before anything is allocated for it: see
/// [`MAX_DESKTOP_BYTES`]. Both a real desktop's size and an absurd one are legal
/// on the wire, so the difference is made here.
pub fn affordable(width: u32, height: u32) -> (res: Result<(), TooLarge>)
    ensures
        res == (if width * height * 4 <= MAX_DESKTOP_BYTES {
            Ok::<(), TooLarge>(())
        } else {
            Err::<(), TooLarge>(TooLarge { width, height })
        }),
{
    proof {
        assert(0 <= width * height <= 0xFFFF_FFFF * 0xFFFF_FFFF) by (nonlinear_arith)
            requires
                0 <= width <= 0xFFFF_FFFF,
                0 <= height <= 0xFFFF_FFFF,
        ;
    }
    let pixels: u64 = width as u64 * height as u64;
    if pixels <= MAX_DESKTOP_BYTES as u64 / 4 { Ok(()) } else { Err(TooLarge { width, height }) }
}

/// One complete frame, in `RGBX32`: four bytes per pixel, red first, the fourth
/// byte unused.
pub struct Frame {
    pub width: u32,
    pub height: u32,
    /// Bytes per row. Equal to `width * 4` (the buffer is packed), but read it
    /// rather than recomputing it, so that a future stride does not silently
    /// corrupt a caller.
    pub stride: usize,
    pub pixels: Vec<u8>,
}

/// A [`Frame`] by its contents.
pub struct FrameView {
    pub width: u32,
    pub height: u32,
    pub pixels: Seq<u8>,
}

impl FrameView {
    /// Whether a rectangle is wholly inside the frame.
    pub open spec fn fits(self, rect: Rect) -> bool {
        rect.right() <= self.width && rect.bottom() <= self.height
    }

    /// One row of a rectangle.
    pub open spec fn row(self, rect: Rect, row: int) -> Seq<u8> {
        let at = place(self.width as int, rect.x as int, rect.y + row);
        self.pixels.subrange(at, at + 4 * rect.width)
    }

    pub open spec fn wf(self) -> bool {
        self.pixels.len() == 4 * (self.width * self.height)
    }
}

impl View for Frame {
    type V = FrameView;

    open spec fn view(&self) -> FrameView {
        FrameView { width: self.width, height: self.height, pixels: self.pixels@ }
    }
}

impl Frame {
    pub open spec fn wf(&self) -> bool {
        self@.wf() && self.stride == 4 * self.width
    }

    /// The rows of one rectangle, top to bottom, each already narrowed to the
    /// rectangle's width.
    ///
    /// The shape a damage-driven encoder wants, and the reason it exists here
    /// rather than in every caller: getting `stride` into the arithmetic by hand is
    /// the classic way to produce a picture that is *nearly* right, sheared by a
    /// few pixels a row.
    ///
    /// Returns nothing for a rectangle that is not wholly inside the frame. A
    /// damage rectangle from the session always is, but a resize the caller has not
    /// processed yet could make one stale, and nothing is a better answer to that
    /// than a panic in an encoder.
    pub fn rows(&self, rect: Rect) -> (rows: Vec<&[u8]>)
        requires
            self.wf(),
        ensures
            rows@.len() == (if self@.fits(rect) { rect.height as int } else { 0 }),
            forall|i: int| 0 <= i < rows@.len() ==> (#[trigger] rows@[i])@ == self@.row(rect, i),
    {
        let fits = rect.x as u64 + rect.width as u64 <= self.width as u64 && rect.y as u64
            + rect.height as u64 <= self.height as u64;
        let len: usize = self.pixels.len();
        let count: u32 = if fits { rect.height } else { 0 };
        let mut rows: Vec<&[u8]> = Vec::new();
        for i in 0..count
            invariant
                self.wf(),
                len == self.pixels@.len(),
                count > 0 ==> rect.right() <= self.width && rect.bottom() <= self.height,
                count == (if self@.fits(rect) { rect.height as int } else { 0 }),
                rows@.len() == i,
                forall|j: int| 0 <= j < i ==> (#[trigger] rows@[j])@ == self@.row(rect, j),
        {
            proof {
                row_is_inside(
                    self.width as int,
                    self.height as int,
                    rect.x as int,
                    rect.y + i,
                    rect.width as int,
                );
                assert((rect.y + i) * self.stride == 4 * ((rect.y + i) * self.width)) by (nonlinear_arith)
                    requires
                        self.stride == 4 * self.width,
                ;
            }
            let at: usize = (rect.y + i) as usize * self.stride + rect.x as usize * 4;
            rows.push(slice_subrange(self.pixels.as_slice(), at, at + rect.width as usize * 4));
        }
        rows
    }
}

/// The first `n` rows of a rectangle copied in out of a picture whose rows are
/// `src_stride` bytes apart, from `origin` in it, and whether the picture had them all.
/// What was copied before it ran out stays.
pub open spec fn copied(
    frame: FrameView,
    src: Seq<u8>,
    src_stride: int,
    origin: (int, int),
    rect: Rect,
    n: nat,
) -> (FrameView, bool)
    decreases n,
{
    if n == 0 {
        (frame, true)
    } else {
        let (f, ok) = copied(frame, src, src_stride, origin, rect, (n - 1) as nat);
        let from = (origin.1 + n - 1) * src_stride + origin.0 * 4;
        let to = place(frame.width as int, rect.x as int, rect.y + n - 1);
        if !ok || from + 4 * rect.width > src.len() {
            (f, false)
        } else {
            (
                FrameView {
                    pixels: splice(f.pixels, to, src.subrange(from, from + 4 * rect.width)),
                    ..f
                },
                true,
            )
        }
    }
}

/// What a blit leaves, and whether it was one.
pub open spec fn blit_from_spec(
    frame: FrameView,
    src: Seq<u8>,
    src_stride: int,
    origin: (int, int),
    rect: Rect,
) -> (FrameView, bool) {
    if frame.fits(rect) {
        copied(frame, src, src_stride, origin, rect, rect.height as nat)
    } else {
        (frame, false)
    }
}

/// The framebuffer the session writes and the caller reads.
///
/// It is a *copy* of what the decoders hold, not the decoders' own buffer. That costs
/// one copy of each damaged region, negligible beside encoding it, and buys the
/// property that matters: a reader of the [`Frame`] cannot be looking at memory a
/// resize is reallocating underneath it.
pub struct Framebuffer {
    pub frame: Frame,
}

impl View for Framebuffer {
    type V = FrameView;

    open spec fn view(&self) -> FrameView {
        self.frame@
    }
}

impl Framebuffer {
    pub open spec fn wf(&self) -> bool {
        self.frame.wf()
    }

    pub fn new() -> (fb: Framebuffer)
        ensures
            fb@ == (FrameView { width: 0, height: 0, pixels: seq![] }),
            fb.wf(),
    {
        let fb = Framebuffer { frame: Frame { width: 0, height: 0, stride: 0, pixels: Vec::new() } };
        assert(fb@.pixels =~= seq![]);
        fb
    }

    /// Read the frame.
    pub fn with<R, F: FnOnce(&Frame) -> R>(&self, f: F) -> (r: R)
        requires
            f.requires((&self.frame,)),
        ensures
            f.ensures((&self.frame,), r),
    {
        f(&self.frame)
    }

    /// Resize and clear. Called on connect and on every desktop resize.
    pub fn resize(&mut self, width: u32, height: u32)
        requires
            width * height * 4 <= usize::MAX,
            width * 4 <= usize::MAX,
        ensures
            final(self).wf(),
            final(self)@ == blank(width, height),
    {
        self.frame.width = width;
        self.frame.height = height;
        self.frame.stride = width as usize * 4;
        proof {
            assert(4 * width * height == 4 * (width * height)) by (nonlinear_arith);
            assert(width * height * 4 == 4 * (width * height)) by (nonlinear_arith);
        }
        self.frame.pixels = zeroed(self.frame.stride * height as usize);
        assert(self@.pixels =~= blank(width, height).pixels);
    }

    /// Copy one decoded rectangle in, from a buffer holding nothing but that
    /// rectangle: `rect.width * rect.height` pixels, top row first, packed.
    ///
    /// That is the shape a bitmap update decodes to, one rectangle at a time, so
    /// nothing between the decoder and here has to know the desktop's own stride.
    ///
    /// `false` for a rectangle that does not fit the frame or a source that is not the
    /// size it claims: the first can only mean the two disagree about the desktop's
    /// size, which is a missed resize, and clamping would paint a sheared image and
    /// hide it.
    pub fn blit(&mut self, src: &[u8], rect: Rect) -> (done: bool)
        requires
            old(self).wf(),
        ensures
            final(self).wf(),
            (final(self)@, done) == (if src@.len() == 4 * (rect.width * rect.height) {
                blit_from_spec(old(self)@, src@, 4 * rect.width, (0, 0), rect)
            } else {
                (old(self)@, false)
            }),
    {
        proof {
            assert(0 <= rect.width * rect.height <= 0xFFFF_FFFF * 0xFFFF_FFFF) by (nonlinear_arith)
                requires
                    0 <= rect.width <= 0xFFFF_FFFF,
                    0 <= rect.height <= 0xFFFF_FFFF,
            ;
        }
        let pixels: u64 = rect.width as u64 * rect.height as u64;
        if src.len() as u128 != 4 * pixels as u128 {
            return false;
        }
        if rect.height == 0 {
            return rect.x as u64 + rect.width as u64 <= self.frame.width as u64 && rect.y
                <= self.frame.height;
        }
        proof {
            assert(4 * rect.width <= 4 * (rect.width * rect.height)) by (nonlinear_arith)
                requires
                    rect.height >= 1,
                    rect.width >= 0,
            ;
            assert((0 + rect.height) * (4 * rect.width) == 4 * (rect.width * rect.height))
                by (nonlinear_arith);
        }
        self.blit_from(src, rect.width as usize * 4, (0, 0), rect)
    }

    /// Copy `rect` in out of a larger picture (a graphics pipeline surface) whose
    /// rows are `src_stride` bytes apart, taking the pixels from `origin` in it:
    /// the framebuffer's `(rect.x, rect.y)` is the source's `(origin.0, origin.1)`.
    ///
    /// `false` for a rectangle that does not fit either side, for the reason
    /// [`Framebuffer::blit`] gives.
    pub fn blit_from(&mut self, src: &[u8], src_stride: usize, origin: (usize, usize), rect: Rect) -> (done:
        bool)
        requires
            old(self).wf(),
            origin.1 + rect.height <= usize::MAX,
            (origin.1 + rect.height) * src_stride + origin.0 * 4 <= usize::MAX,
        ensures
            final(self).wf(),
            (final(self)@, done) == blit_from_spec(
                old(self)@,
                src@,
                src_stride as int,
                (origin.0 as int, origin.1 as int),
                rect,
            ),
    {
        if rect.x as u64 + rect.width as u64 > self.frame.width as u64 || rect.y as u64
            + rect.height as u64 > self.frame.height as u64 {
            return false;
        }
        let ghost from_x = (origin.0 as int, origin.1 as int);
        let held: usize = self.frame.pixels.len();
        let len: usize = src.len();
        for row in 0..rect.height
            invariant
                self.wf(),
                self@.width == old(self)@.width,
                self@.height == old(self)@.height,
                rect.right() <= self@.width,
                rect.bottom() <= self@.height,
                origin.1 + rect.height <= usize::MAX,
                (origin.1 + rect.height) * src_stride + origin.0 * 4 <= usize::MAX,
                held == self.frame.pixels@.len(),
                from_x == (origin.0 as int, origin.1 as int),
                old(self)@.fits(rect),
                len == src@.len(),
                (self@, true) == copied(old(self)@, src@, src_stride as int, from_x, rect, row as nat),
        {
            proof {
                row_is_inside(
                    self@.width as int,
                    self@.height as int,
                    rect.x as int,
                    rect.y + row,
                    rect.width as int,
                );
                assert((rect.y + row) * self.frame.stride == 4 * ((rect.y + row) * self@.width))
                    by (nonlinear_arith)
                    requires
                        self.frame.stride == 4 * self@.width,
                ;
                assert(0 <= (origin.1 + row) * src_stride <= (origin.1 + rect.height) * src_stride)
                    by (nonlinear_arith)
                    requires
                        0 <= row <= rect.height,
                        0 <= src_stride,
                        0 <= origin.1,
                ;
            }
            let from: usize = (origin.1 + row as usize) * src_stride + origin.0 * 4;
            let bytes: usize = rect.width as usize * 4;
            if from > len || bytes > len - from {
                proof {
                    source_ends(old(self)@, src@, src_stride as int, from_x, rect, (row + 1) as nat);
                }
                return false;
            }
            let to: usize = (rect.y + row) as usize * self.frame.stride + rect.x as usize * 4;
            let line = slice_subrange(src, from, from + bytes);
            overwrite(self.frame.pixels.as_mut_slice(), to, line);
        }
        true
    }
}

/// Every pixel black.
pub open spec fn blank(width: u32, height: u32) -> FrameView {
    FrameView {
        width,
        height,
        pixels: Seq::new((4 * (width * height)) as nat, |i: int| 0u8),
    }
}

/// A copy that has run out of source stays as it is.
proof fn source_ends(
    frame: FrameView,
    src: Seq<u8>,
    src_stride: int,
    origin: (int, int),
    rect: Rect,
    n: nat,
)
    requires
        0 < n <= rect.height,
        !copied(frame, src, src_stride, origin, rect, n).1,
        copied(frame, src, src_stride, origin, rect, (n - 1) as nat).1,
    ensures
        copied(frame, src, src_stride, origin, rect, rect.height as nat) == (
            copied(frame, src, src_stride, origin, rect, (n - 1) as nat).0,
            false,
        ),
    decreases rect.height - n,
{
    stays_ended(frame, src, src_stride, origin, rect, n, rect.height as nat);
}

proof fn stays_ended(
    frame: FrameView,
    src: Seq<u8>,
    src_stride: int,
    origin: (int, int),
    rect: Rect,
    n: nat,
    m: nat,
)
    requires
        0 < n <= m,
        !copied(frame, src, src_stride, origin, rect, n).1,
    ensures
        copied(frame, src, src_stride, origin, rect, m) == copied(
            frame,
            src,
            src_stride,
            origin,
            rect,
            n,
        ),
    decreases m - n,
{
    if n < m {
        stays_ended(frame, src, src_stride, origin, rect, n, (m - 1) as nat);
    }
}

/// The first staged rectangle from the `i`th on that overlaps `rect`, or how many there
/// are.
pub open spec fn overlap_from(pending: Seq<Rect>, rect: Rect, i: int) -> int
    decreases pending.len() - i,
{
    if i >= pending.len() || pending[i].spec_overlaps(rect) { i } else { overlap_from(pending, rect, i + 1) }
}

/// The pixels a union would add to two rectangles.
pub open spec fn waste(waiting: Rect, rect: Rect) -> int {
    waiting.spec_union(rect).spec_area() - waiting.spec_area() - rect.spec_area()
}

/// Which of the first `n` staged rectangles wastes the fewest pixels, the first of them
/// where there are several.
pub open spec fn cheapest(pending: Seq<Rect>, rect: Rect, n: nat) -> int
    decreases n,
{
    if n <= 1 {
        0
    } else {
        let before = cheapest(pending, rect, (n - 1) as nat);
        if waste(pending[n - 1], rect) < waste(pending[before], rect) { n - 1 } else { before }
    }
}

/// The staged damage once a rectangle is folded into it.
pub open spec fn staged(pending: Seq<Rect>, rect: Rect, cap: nat) -> Seq<Rect> {
    let overlap = overlap_from(pending, rect, 0);
    if overlap < pending.len() {
        pending.update(overlap, pending[overlap].spec_union(rect))
    } else if pending.len() < cap || pending.len() == 0 {
        pending.push(rect)
    } else {
        let pick = cheapest(pending, rect, pending.len());
        pending.update(pick, pending[pick].spec_union(rect))
    }
}

pub open spec fn all_bounded(pending: Seq<Rect>) -> bool {
    forall|i: int| 0 <= i < pending.len() ==> (#[trigger] pending[i]).bounded()
}

/// Fold `rect` into the damage already staged, keeping the list to `cap`
/// rectangles.
///
/// A rectangle overlapping one already there is unioned into it. Past the cap the
/// list is kept bounded by merging `rect` into whichever rectangle wastes the
/// fewest pixels: the neighbouring tile of the same damaged block, almost always,
/// which unions with no waste at all.
///
/// **Not a bounding box over everything**, which the graphics pipeline cannot afford:
/// it reports a frame as disjoint tiles, so a box round a video in one corner and a
/// clock in the other is most of the desktop. Merging the cheapest pair keeps the list
/// bounded *and* the damage the shape the host drew it.
pub fn stage(pending: &mut Vec<Rect>, rect: Rect, cap: usize)
    requires
        all_bounded(old(pending)@),
        rect.bounded(),
    ensures
        final(pending)@ == staged(old(pending)@, rect, cap as nat),
        all_bounded(final(pending)@),
{
    let len: usize = pending.len();
    let mut at: usize = 0;
    while at < len && !pending[at].overlaps(&rect)
        invariant
            len == pending@.len(),
            pending@ == old(pending)@,
            all_bounded(pending@),
            rect.bounded(),
            at <= len,
            overlap_from(pending@, rect, 0) == overlap_from(pending@, rect, at as int),
            forall|i: int| 0 <= i < at ==> !(#[trigger] pending@[i]).spec_overlaps(rect),
        decreases len - at,
    {
        at = at + 1;
    }
    if at < len {
        let merged = pending[at].union(rect);
        pending.set(at, merged);
        return;
    }
    if len < cap || len == 0 {
        pending.push(rect);
        return;
    }
    // Disjoint from every one of them, so the waste of a merge is what the union adds
    // beyond the two rectangles themselves.
    let mut pick: usize = 0;
    let mut least: u64 = wasted(pending[0], rect);
    for i in 1..len
        invariant
            len == pending@.len(),
            pending@ == old(pending)@,
            all_bounded(pending@),
            rect.bounded(),
            forall|j: int| 0 <= j < len ==> !(#[trigger] pending@[j]).spec_overlaps(rect),
            pick < i <= len,
            pick == cheapest(pending@, rect, i as nat),
            least == waste(pending@[pick as int], rect),
    {
        let here: u64 = wasted(pending[i], rect);
        if here < least {
            pick = i;
            least = here;
        }
    }
    let merged = pending[pick].union(rect);
    pending.set(pick, merged);
}

fn wasted(waiting: Rect, rect: Rect) -> (n: u64)
    requires
        waiting.bounded(),
        rect.bounded(),
        !waiting.spec_overlaps(rect),
    ensures
        n == waste(waiting, rect),
{
    proof { disjoint_areas_add_up(waiting, rect); }
    waiting.union(rect).area() - waiting.area() - rect.area()
}

/// Whether a pixel is in any of the staged rectangles.
pub open spec fn damaged(pending: Seq<Rect>, x: int, y: int) -> bool {
    exists|i: int| 0 <= i < pending.len() && (#[trigger] pending[i]).holds(x, y)
}

proof fn cheapest_is_one_of_them(pending: Seq<Rect>, rect: Rect, n: nat)
    requires
        1 <= n <= pending.len(),
    ensures
        0 <= cheapest(pending, rect, n) < n,
        forall|i: int| 0 <= i < n ==> waste(pending[cheapest(pending, rect, n)], rect) <= #[trigger] waste(
            pending[i],
            rect,
        ),
    decreases n,
{
    if n > 1 {
        cheapest_is_one_of_them(pending, rect, (n - 1) as nat);
    }
}

/// Damage is never lost: what was staged stays damaged, and so does what was folded in;
/// and a list that was no longer than its cap never gets longer than it.
pub proof fn staging_loses_nothing_and_keeps_to_its_cap(pending: Seq<Rect>, rect: Rect, cap: nat)
    requires
        all_bounded(pending),
        rect.bounded(),
    ensures
        forall|x: int, y: int| damaged(pending, x, y) || rect.holds(x, y) ==> #[trigger] damaged(
            staged(pending, rect, cap),
            x,
            y,
        ),
        cap > 0 && pending.len() <= cap ==> staged(pending, rect, cap).len() <= cap,
{
    overlap_is_in_range(pending, rect, 0);
    let after = staged(pending, rect, cap);
    let overlap = overlap_from(pending, rect, 0);
    if pending.len() > 0 {
        cheapest_is_one_of_them(pending, rect, pending.len());
    }
    let grown = if overlap < pending.len() { overlap } else { cheapest(pending, rect, pending.len()) };
    assert forall|x: int, y: int| damaged(pending, x, y) || rect.holds(x, y) implies #[trigger] damaged(
        after,
        x,
        y,
    ) by {
        if after.len() > pending.len() {
            if rect.holds(x, y) {
                assert(after[pending.len() as int].holds(x, y));
            } else {
                let i = choose|i: int| 0 <= i < pending.len() && (#[trigger] pending[i]).holds(x, y);
                assert(after[i].holds(x, y));
            }
        } else {
            a_union_is_the_smallest_with_both(pending[grown], rect);
            if rect.holds(x, y) {
                assert(after[grown].holds(x, y));
            } else {
                let i = choose|i: int| 0 <= i < pending.len() && (#[trigger] pending[i]).holds(x, y);
                assert(after[i].holds(x, y));
            }
        }
    }
}

proof fn overlap_is_in_range(pending: Seq<Rect>, rect: Rect, i: int)
    requires
        0 <= i <= pending.len(),
    ensures
        i <= overlap_from(pending, rect, i) <= pending.len(),
    decreases pending.len() - i,
{
    if i < pending.len() && !pending[i].spec_overlaps(rect) {
        overlap_is_in_range(pending, rect, i + 1);
    }
}

/// A blit that is done shows the source's pixels in its rectangle and leaves every other
/// pixel as it was.
pub proof fn a_blit_lands_where_its_rectangle_says(
    frame: FrameView,
    src: Seq<u8>,
    src_width: int,
    origin: (int, int),
    rect: Rect,
    x: int,
    y: int,
)
    requires
        frame.wf(),
        0 <= origin.0,
        0 <= origin.1,
        origin.0 + rect.width <= src_width,
        blit_from_spec(frame, src, 4 * src_width, origin, rect).1,
        0 <= x < frame.width,
        0 <= y < frame.height,
    ensures
        ({
            let after = blit_from_spec(frame, src, 4 * src_width, origin, rect).0;
            pixel_at(after.pixels, frame.width as int, x, y) == if rect.holds(x, y) {
                pixel_at(src, src_width, origin.0 + x - rect.x, origin.1 + y - rect.y)
            } else {
                pixel_at(frame.pixels, frame.width as int, x, y)
            }
        }),
{
    rows_land(frame, src, src_width, origin, rect, rect.height as nat, x, y);
}

proof fn rows_land(
    frame: FrameView,
    src: Seq<u8>,
    src_width: int,
    origin: (int, int),
    rect: Rect,
    n: nat,
    x: int,
    y: int,
)
    requires
        frame.wf(),
        frame.fits(rect),
        n <= rect.height,
        0 <= origin.0,
        0 <= origin.1,
        origin.0 + rect.width <= src_width,
        copied(frame, src, 4 * src_width, origin, rect, n).1,
        0 <= x < frame.width,
        0 <= y < frame.height,
    ensures
        copied(frame, src, 4 * src_width, origin, rect, n).0.wf(),
        copied(frame, src, 4 * src_width, origin, rect, n).0.width == frame.width,
        copied(frame, src, 4 * src_width, origin, rect, n).0.height == frame.height,
        pixel_at(
            copied(frame, src, 4 * src_width, origin, rect, n).0.pixels,
            frame.width as int,
            x,
            y,
        ) == (if rect.holds(x, y) && y < rect.y + n {
            pixel_at(src, src_width, origin.0 + x - rect.x, origin.1 + y - rect.y)
        } else {
            pixel_at(frame.pixels, frame.width as int, x, y)
        }),
    decreases n,
{
    if n > 0 {
        rows_land(frame, src, src_width, origin, rect, (n - 1) as nat, x, y);
        let width = frame.width as int;
        let before = copied(frame, src, 4 * src_width, origin, rect, (n - 1) as nat).0;
        let after = copied(frame, src, 4 * src_width, origin, rect, n).0;
        let row = rect.y + n - 1;
        row_is_inside(width, frame.height as int, rect.x as int, row, rect.width as int);
        row_is_inside(width, frame.height as int, x, y, 1);
        let from = (origin.1 + n - 1) * (4 * src_width) + origin.0 * 4;
        assert(from == place(src_width, origin.0, origin.1 + n - 1) && from >= 0) by (nonlinear_arith)
            requires
                from == (origin.1 + n - 1) * (4 * src_width) + origin.0 * 4,
                place(src_width, origin.0, origin.1 + n - 1) == 4 * ((origin.1 + n - 1) * src_width
                    + origin.0),
                0 <= origin.0,
                0 <= origin.1 + n - 1,
                0 <= src_width,
        ;
        if rect.holds(x, y) && y == row {
            assert(pixel_at(after.pixels, width, x, y) =~= pixel_at(
                src,
                src_width,
                origin.0 + x - rect.x,
                origin.1 + y - rect.y,
            ));
        } else {
            pixels_are_apart(width, rect.x as int, row, rect.width as int, x, y);
            assert(pixel_at(after.pixels, width, x, y) =~= pixel_at(before.pixels, width, x, y));
        }
    }
}

/// Whether two rectangles have a pixel in common.
pub open spec fn share_a_pixel(a: Rect, b: Rect) -> bool {
    exists|x: int, y: int| #[trigger] a.holds(x, y) && b.holds(x, y)
}

/// Damage is folded in where it makes the list no coarser than it must: into the first
/// rectangle it overlaps; on its own, where it overlaps none and there is room; and where there
/// is none, into the rectangle whose growth takes in the fewest pixels that neither held.
pub proof fn damage_grows_no_more_than_it_must(pending: Seq<Rect>, rect: Rect, cap: nat, i: int)
    requires
        all_bounded(pending),
        rect.bounded(),
        0 <= i < pending.len(),
    ensures
        ({
            let after = staged(pending, rect, cap);
            &&& share_a_pixel(pending[i], rect) && (forall|j: int|
                0 <= j < i ==> !share_a_pixel(#[trigger] pending[j], rect)) ==> after == pending.update(
                i,
                pending[i].spec_union(rect),
            )
            &&& (forall|j: int| 0 <= j < pending.len() ==> !share_a_pixel(#[trigger] pending[j], rect)) ==> if pending.len() < cap {
                after == pending.push(rect)
            } else {
                exists|pick: int|
                    0 <= pick < pending.len() && after == pending.update(
                        pick,
                        #[trigger] pending[pick].spec_union(rect),
                    ) && pending[pick].spec_union(rect).spec_area() - pending[pick].spec_area()
                        <= pending[i].spec_union(rect).spec_area() - pending[i].spec_area()
            }
        }),
{
    overlap_is_in_range(pending, rect, 0);
    let at = overlap_from(pending, rect, 0);
    the_first_that_overlaps(pending, rect, 0);
    assert forall|j: int| 0 <= j < pending.len() implies share_a_pixel(#[trigger] pending[j], rect)
        == pending[j].spec_overlaps(rect) by {
        overlapping_is_sharing_a_pixel(pending[j], rect);
    }
    cheapest_is_one_of_them(pending, rect, pending.len());
    let pick = cheapest(pending, rect, pending.len());
    assert(waste(pending[pick], rect) <= waste(pending[i], rect));
    if share_a_pixel(pending[i], rect) && (forall|j: int| 0 <= j < i ==> !share_a_pixel(#[trigger] pending[j], rect)) {
        assert(pending[i].spec_overlaps(rect));
        if at < i {
            assert(share_a_pixel(pending[at], rect));
        }
        assert(at == i);
    }
    if forall|j: int| 0 <= j < pending.len() ==> !share_a_pixel(#[trigger] pending[j], rect) {
        if at < pending.len() {
            assert(share_a_pixel(pending[at], rect));
        }
        assert(at == pending.len());
        if pending.len() >= cap {
            assert(staged(pending, rect, cap) == pending.update(pick, pending[pick].spec_union(rect)));
        }
    }
}

proof fn the_first_that_overlaps(pending: Seq<Rect>, rect: Rect, from: int)
    requires
        0 <= from <= pending.len(),
    ensures
        ({
            let at = overlap_from(pending, rect, from);
            &&& at < pending.len() ==> pending[at].spec_overlaps(rect)
            &&& forall|j: int| from <= j < at && j < pending.len() ==> !(#[trigger] pending[j]).spec_overlaps(rect)
        }),
    decreases pending.len() - from,
{
    if from < pending.len() && !pending[from].spec_overlaps(rect) {
        the_first_that_overlaps(pending, rect, from + 1);
    }
}

} // verus!
