//! The H.264 the graphics pipeline draws video with, decoded and put back into colour.
//!
//! A Windows host that finds the client able to take H.264 does not switch the desktop to
//! it. It goes on drawing text and windows with ClearCodec and Progressive, and hands the
//! parts that move like video, a player, a game, a scrolling page, to the AVC codecs in
//! the same frames, each surface with an H.264 stream of its own whose picture is the
//! surface rounded up to macroblocks. The metablock in front of every access unit
//! ([`crate::proto::avc`]) says which rectangles of that picture are to be shown; the rest
//! is whatever the encoder left there.
//!
//! [`Avc`] is one surface's decoder, Cisco's OpenH264 built from source, and the luma view
//! kept beside it. AVC420 is the plain case: decode, convert the masked rectangles from
//! full-range BT.709 YUV to RGB, and hand them to the surface. AVC444 is the same picture
//! at full chroma resolution, carried as two YUV420 pictures through the one decoder: a
//! *luma* view holding the luma and a quarter of the chroma, averaged, and a *chroma* view
//! whose three planes hold the other three quarters, packed one of two ways ([`Layout`]).
//! The luma view is kept after it is shown, because the chroma view for a rectangle may
//! come in a later frame and combines with the last luma view that drew it. Putting the
//! views back together is MS-RDPEGFX 3.3.8.3.2 and 3.3.8.3.3, including the filter that
//! recovers the averaged samples from their three neighbours.

use openh264::decoder::{Decoder, DecoderConfig, Flush};
use openh264::formats::YUVSource;
use openh264::{Error as DecoderError, OpenH264API};
use vstd::arithmetic::div_mod::{lemma_fundamental_div_mod, lemma_fundamental_div_mod_converse};
use vstd::prelude::*;
use vstd::slice::slice_subrange;
use yuv::{YuvPlanarImage, YuvRange, YuvStandardMatrix};

use crate::pixels::zeroed;
use crate::proto::avc::{Avc420, Avc420View, Avc444, Region};
use crate::proto::gfx::Rect16;
use crate::proto::wire::copy;
use crate::text::{decimal, push_decimal};

verus! {

/// How a YUV444 picture is packed into its two YUV420 views.
#[derive(Clone, Copy, Debug, PartialEq, Eq)]
pub enum Layout {
    /// AVC444: the chroma view is laid out macroblock by macroblock, the odd rows of U and
    /// V in its luma plane and the odd columns of their even rows in its chroma planes.
    /// MS-RDPEGFX 3.3.8.3.2.
    V1,
    /// AVC444v2: the chroma view is laid out over the whole picture, the odd columns of U
    /// and V in the left and right halves of its luma plane and the odd rows of their even
    /// columns in the halves of its chroma planes. MS-RDPEGFX 3.3.8.3.3.
    V2,
}

/// The difference past which the recovered chroma sample is used in place of the averaged
/// one: MS-RDPEGFX 3.3.8.3.2's cutoff.
pub const FILTER_CUTOFF: i32 = 30;

/// The most bytes one plane of a picture may take: its colours take three times as many,
/// which the smallest machine has to be able to count, with a sign. It is many times the
/// largest picture of any H.264 level.
pub const MAX_PLANE: usize = 0x2AAA_AAAA;

/// A rectangle in picture pixels, right and bottom exclusive.
#[derive(Clone, Copy, Debug, PartialEq, Eq)]
pub struct Area {
    pub left: usize,
    pub top: usize,
    pub right: usize,
    pub bottom: usize,
}

pub open spec fn least(a: int, b: int) -> int {
    if a < b { a } else { b }
}

/// The least multiple of `unit` that is `n` or more.
pub open spec fn rounded_up(n: int, unit: int) -> int {
    if n % unit == 0 { n } else { n - n % unit + unit }
}

/// Half of `n`, rounded up.
pub open spec fn half_up(n: int) -> int {
    (n + 1) / 2
}

impl Area {
    /// The rectangle holds something, all of it inside a picture of this size.
    pub open spec fn inside(self, width: int, height: int) -> bool {
        self.left < self.right <= width && self.top < self.bottom <= height
    }

    /// The region rectangle, kept to the surface and to the picture.
    pub open spec fn clip_spec(rect: Rect16, surface: (u32, u32), picture: (usize, usize)) -> Option<Area> {
        let right = least(least(rect.right as int, surface.0 as int), picture.0 as int);
        let bottom = least(least(rect.bottom as int, surface.1 as int), picture.1 as int);
        if rect.left < right && rect.top < bottom {
            Some(
                Area {
                    left: rect.left as usize,
                    top: rect.top as usize,
                    right: right as usize,
                    bottom: bottom as usize,
                },
            )
        } else {
            None
        }
    }

    pub open spec fn aligned_spec(self, unit: int, picture: (usize, usize)) -> Area {
        Area {
            left: (self.left - self.left as int % unit) as usize,
            top: (self.top - self.top as int % unit) as usize,
            right: least(rounded_up(self.right as int, unit), picture.0 as int) as usize,
            bottom: least(rounded_up(self.bottom as int, unit), picture.1 as int) as usize,
        }
    }

    pub open spec fn rect_spec(self) -> Rect16 {
        Rect16 {
            left: least(self.left as int, 0xFFFF) as u16,
            top: least(self.top as int, 0xFFFF) as u16,
            right: least(self.right as int, 0xFFFF) as u16,
            bottom: least(self.bottom as int, 0xFFFF) as u16,
        }
    }

    pub fn width(&self) -> (width: usize)
        requires
            self.left <= self.right,
        ensures
            width == self.right - self.left,
    {
        self.right - self.left
    }

    pub fn height(&self) -> (height: usize)
        requires
            self.top <= self.bottom,
        ensures
            height == self.bottom - self.top,
    {
        self.bottom - self.top
    }

    /// The region rectangle, kept to the surface and to the picture; `None` when nothing
    /// of it is inside both.
    pub fn clip(rect: Rect16, surface: (u32, u32), picture: (usize, usize)) -> (area: Option<Area>)
        ensures
            area == Area::clip_spec(rect, surface, picture),
            area matches Some(a) ==> a.inside(picture.0 as int, picture.1 as int) && a.right <= 0xFFFF
                && a.bottom <= 0xFFFF,
    {
        let right: usize = lesser(lesser(rect.right as usize, surface.0 as usize), picture.0);
        let bottom: usize = lesser(lesser(rect.bottom as usize, surface.1 as usize), picture.1);
        let (left, top): (usize, usize) = (rect.left as usize, rect.top as usize);
        if left < right && top < bottom {
            Some(Area { left, top, right, bottom })
        } else {
            None
        }
    }

    /// This rectangle widened to a multiple of `unit` on every side, within the picture.
    pub fn aligned(&self, unit: usize, picture: (usize, usize)) -> (area: Area)
        requires
            unit > 0,
        ensures
            area == self.aligned_spec(unit as int, picture),
            self.inside(picture.0 as int, picture.1 as int) ==> area.inside(
                picture.0 as int,
                picture.1 as int,
            ) && area.left <= self.left && self.right <= area.right && area.top <= self.top
                && self.bottom <= area.bottom,
            area.left % unit == 0 && area.top % unit == 0,
    {
        proof {
            multiple_below(self.left as int, unit as int);
            multiple_below(self.top as int, unit as int);
        }
        Area {
            left: self.left - self.left % unit,
            top: self.top - self.top % unit,
            right: up_to(self.right, unit, picture.0),
            bottom: up_to(self.bottom, unit, picture.1),
        }
    }

    /// The rectangle as the surface names it: clipped to a surface whose sides came off
    /// the wire as 16 bits, so nothing is cut short here.
    pub fn rect16(&self) -> (rect: Rect16)
        ensures
            rect == self.rect_spec(),
    {
        Rect16 {
            left: lesser(self.left, 0xFFFF) as u16,
            top: lesser(self.top, 0xFFFF) as u16,
            right: lesser(self.right, 0xFFFF) as u16,
            bottom: lesser(self.bottom, 0xFFFF) as u16,
        }
    }
}

proof fn multiple_below(n: int, unit: int)
    requires
        n >= 0,
        unit > 0,
    ensures
        0 <= n % unit <= n,
        (n - n % unit) % unit == 0,
{
    lemma_fundamental_div_mod(n, unit);
    assert(0 <= n / unit && unit * (n / unit) >= 0) by (nonlinear_arith)
        requires
            n >= 0,
            unit > 0,
    ;
    assert(unit * (n / unit) == (n / unit) * unit) by (nonlinear_arith);
    lemma_fundamental_div_mod_converse(n - n % unit, unit, n / unit, 0);
}

fn lesser(a: usize, b: usize) -> (n: usize)
    ensures
        n == least(a as int, b as int),
{
    if a < b { a } else { b }
}

/// `n` rounded up to a multiple of `unit`, but no further than `most`.
fn up_to(n: usize, unit: usize, most: usize) -> (m: usize)
    requires
        unit > 0,
    ensures
        m == least(rounded_up(n as int, unit as int), most as int),
        n <= most ==> n <= m,
{
    proof {
        multiple_below(n as int, unit as int);
    }
    let over: usize = n % unit;
    if over == 0 {
        lesser(n, most)
    } else if usize::MAX - (n - over) < unit {
        most
    } else {
        lesser(n - over + unit, most)
    }
}

/// Three planes, borrowed from wherever they are: a decoded picture or a copy kept here.
/// Strides are in bytes; the chroma planes are half size each way.
#[derive(Clone, Copy)]
pub struct Picture<'a> {
    pub width: usize,
    pub height: usize,
    pub y: &'a [u8],
    pub y_stride: usize,
    pub u: &'a [u8],
    pub u_stride: usize,
    pub v: &'a [u8],
    pub v_stride: usize,
}

/// A plane holds `height` rows of `width` samples, each row `stride` after the one above
/// it.
pub open spec fn plane_holds(plane: Seq<u8>, stride: usize, width: int, height: int) -> bool {
    &&& width <= stride <= MAX_PLANE
    &&& stride * height <= plane.len()
    &&& stride * height <= MAX_PLANE
}

fn plane_is_whole(plane: &[u8], stride: usize, width: usize, height: usize) -> (whole: bool)
    ensures
        whole == plane_holds(plane@, stride, width as int, height as int),
{
    if stride < width || stride > MAX_PLANE {
        return false;
    }
    proof {
        assert(0 <= stride * height <= 0x2AAA_AAAA * 0xFFFF_FFFF_FFFF_FFFF) by (nonlinear_arith)
            requires
                0 <= stride <= 0x2AAA_AAAA,
                0 <= height <= 0xFFFF_FFFF_FFFF_FFFF,
        ;
    }
    let bytes: u128 = stride as u128 * height as u128;
    bytes <= plane.len() as u128 && bytes <= MAX_PLANE as u128
}

proof fn sample_is_inside(stride: int, width: int, height: int, x: int, y: int)
    requires
        0 <= x < width <= stride,
        0 <= y < height,
    ensures
        0 <= y * stride,
        0 <= y * stride + x < stride * height,
        y * stride + stride <= stride * height,
{
    assert(0 <= y * stride && y * stride + stride <= stride * height) by (nonlinear_arith)
        requires
            0 <= y < height,
            0 <= stride,
    ;
}

/// A [`Picture`] by its contents.
#[verifier::ext_equal]
pub struct PictureView {
    pub width: usize,
    pub height: usize,
    pub y: Seq<u8>,
    pub y_stride: usize,
    pub u: Seq<u8>,
    pub u_stride: usize,
    pub v: Seq<u8>,
    pub v_stride: usize,
}

impl<'a> View for Picture<'a> {
    type V = PictureView;

    open spec fn view(&self) -> PictureView {
        PictureView {
            width: self.width,
            height: self.height,
            y: self.y@,
            y_stride: self.y_stride,
            u: self.u@,
            u_stride: self.u_stride,
            v: self.v@,
            v_stride: self.v_stride,
        }
    }
}

impl PictureView {
    /// Every plane holds the samples its picture has.
    pub open spec fn wf(self) -> bool {
        &&& plane_holds(self.y, self.y_stride, self.width as int, self.height as int)
        &&& plane_holds(self.u, self.u_stride, half_up(self.width as int), half_up(self.height as int))
        &&& plane_holds(self.v, self.v_stride, half_up(self.width as int), half_up(self.height as int))
    }

    pub open spec fn size(self) -> (usize, usize) {
        (self.width, self.height)
    }

    /// A decoder that was given these units may give this picture for the next.
    pub open spec fn may_come_of(self, given: Seq<Seq<u8>>, unit: Seq<u8>) -> bool {
        unit.len() <= i32::MAX && may_decode_to(given, unit, Ok(Some(self)))
    }

    /// The samples, by column and row.
    #[verifier::opaque]
    pub open spec fn y_of(self, x: int, y: int) -> u8 {
        self.y[y * self.y_stride + x]
    }

    #[verifier::opaque]
    pub open spec fn u_of(self, x: int, y: int) -> u8 {
        self.u[y * self.u_stride + x]
    }

    #[verifier::opaque]
    pub open spec fn v_of(self, x: int, y: int) -> u8 {
        self.v[y * self.v_stride + x]
    }
}

impl<'a> Picture<'a> {
    /// Whether every plane holds the samples its picture has.
    pub fn is_whole(&self) -> (whole: bool)
        ensures
            whole == self@.wf(),
    {
        let columns: usize = self.width / 2 + self.width % 2;
        let rows: usize = self.height / 2 + self.height % 2;
        plane_is_whole(self.y, self.y_stride, self.width, self.height) && plane_is_whole(
            self.u,
            self.u_stride,
            columns,
            rows,
        ) && plane_is_whole(self.v, self.v_stride, columns, rows)
    }

    pub fn y_at(&self, x: usize, y: usize) -> (sample: u8)
        requires
            self@.wf(),
            x < self.width,
            y < self.height,
        ensures
            sample == self@.y_of(x as int, y as int),
    {
        proof {
            reveal(PictureView::y_of);
            sample_is_inside(self.y_stride as int, self.width as int, self.height as int, x as int, y as int);
        }
        self.y[y * self.y_stride + x]
    }

    pub fn u_at(&self, x: usize, y: usize) -> (sample: u8)
        requires
            self@.wf(),
            x < half_up(self.width as int),
            y < half_up(self.height as int),
        ensures
            sample == self@.u_of(x as int, y as int),
    {
        proof {
            reveal(PictureView::u_of);
            sample_is_inside(
                self.u_stride as int,
                half_up(self.width as int),
                half_up(self.height as int),
                x as int,
                y as int,
            );
        }
        self.u[y * self.u_stride + x]
    }

    pub fn v_at(&self, x: usize, y: usize) -> (sample: u8)
        requires
            self@.wf(),
            x < half_up(self.width as int),
            y < half_up(self.height as int),
        ensures
            sample == self@.v_of(x as int, y as int),
    {
        proof {
            reveal(PictureView::v_of);
            sample_is_inside(
                self.v_stride as int,
                half_up(self.width as int),
                half_up(self.height as int),
                x as int,
                y as int,
            );
        }
        self.v[y * self.v_stride + x]
    }
}

/// The 2x2's top-left sample back from the average of the four and the other three.
pub open spec fn unfilter_spec(average: u8, right: u8, below: u8, diagonal: u8) -> u8 {
    let reversed = average * 4 - right - below - diagonal;
    if -FILTER_CUTOFF <= average - reversed <= FILTER_CUTOFF {
        average
    } else if reversed < 0 {
        0
    } else if reversed > 255 {
        255
    } else {
        reversed as u8
    }
}

/// The 2x2's top-left sample back from the host's average of the four and the other three:
/// taken when it differs from the average by more than the cutoff, since past a quantized
/// average the reverse can be further from the truth than the average was. MS-RDPEGFX
/// 3.3.8.3.2.
pub fn unfilter(average: u8, right: u8, below: u8, diagonal: u8) -> (sample: u8)
    ensures
        sample == unfilter_spec(average, right, below, diagonal),
{
    let reversed: i32 = average as i32 * 4 - right as i32 - below as i32 - diagonal as i32;
    let apart: i32 = average as i32 - reversed;
    if -FILTER_CUTOFF <= apart && apart <= FILTER_CUTOFF {
        average
    } else if reversed < 0 {
        0
    } else if reversed > 255 {
        255
    } else {
        reversed as u8
    }
}

/// The U and V samples at (`x`, `y`) out of the chroma view, which carries every sample
/// but the even rows' even columns whole.
pub open spec fn carried(aux: PictureView, layout: Layout, x: int, y: int) -> (u8, u8) {
    match layout {
        Layout::V1 => if y % 2 == 1 {
            let r = y / 16 * 16 + y % 16 / 2;
            (aux.y_of(x, r), aux.y_of(x, r + 8))
        } else {
            (aux.u_of(x / 2, y / 2), aux.v_of(x / 2, y / 2))
        },
        Layout::V2 => if x % 2 == 1 {
            (aux.y_of(x / 2, y), aux.y_of(aux.width as int / 2 + x / 2, y))
        } else if x % 4 == 0 {
            (aux.u_of(x / 4, y / 2), aux.u_of(aux.width as int / 4 + x / 4, y / 2))
        } else {
            (aux.v_of(x / 4, y / 2), aux.v_of(aux.width as int / 4 + x / 4, y / 2))
        },
    }
}

/// The U and V samples at (`x`, `y`) of the two views put together over a block that ends
/// at `right` and `bottom`. The even-even samples are the luma view's chroma, which the
/// host averaged over each 2x2, recovered from the average and its three neighbours.
pub open spec fn chroma_spec(
    main: PictureView,
    aux: PictureView,
    layout: Layout,
    block: Area,
    x: int,
    y: int,
) -> (u8, u8) {
    if x % 2 == 1 || y % 2 == 1 {
        carried(aux, layout, x, y)
    } else {
        let (u, v) = (main.u_of(x / 2, y / 2), main.v_of(x / 2, y / 2));
        if x + 1 < block.right && y + 1 < block.bottom {
            let right = carried(aux, layout, x + 1, y);
            let below = carried(aux, layout, x, y + 1);
            let diagonal = carried(aux, layout, x + 1, y + 1);
            (
                unfilter_spec(u, right.0, below.0, diagonal.0),
                unfilter_spec(v, right.1, below.1, diagonal.1),
            )
        } else {
            (u, v)
        }
    }
}

/// Where the samples of a chroma view are read is inside its planes.
proof fn places_are_inside(w: int, h: int, x: int, y: int)
    requires
        w % 16 == 0,
        h % 16 == 0,
        0 <= x < w,
        0 <= y < h,
    ensures
        half_up(w) == w / 2 && half_up(h) == h / 2,
        ({
            let r = y / 16 * 16 + y % 16 / 2;
            0 <= r && r + 8 < h
        }),
        0 <= x / 2 < w / 2,
        w / 2 + x / 2 < w,
        0 <= x / 4 < w / 4,
        w / 4 + x / 4 < w / 2,
        0 <= y / 2 < h / 2,
{
    let (q, k, m) = (y / 16, h / 16, w / 16);
    assert(h == 16 * k && w == 16 * m);
    assert(y == 16 * q + y % 16 && q < k);
    assert(16 * q + 16 <= 16 * k);
    assert(w / 2 == 8 * m && w / 4 == 4 * m && h / 2 == 8 * k);
    assert(x / 4 < 4 * m && x / 2 < 8 * m && y / 2 < 8 * k);
    assert(0 <= y % 16 / 2 <= 7);
}

#[verifier::rlimit(60)]
fn carried_at(aux: &Picture<'_>, layout: Layout, x: usize, y: usize) -> (uv: (u8, u8))
    requires
        aux@.wf(),
        aux.width % 16 == 0,
        aux.height % 16 == 0,
        x < aux.width,
        y < aux.height,
        x % 2 == 1 || y % 2 == 1,
    ensures
        uv == carried(aux@, layout, x as int, y as int),
{
    proof { places_are_inside(aux.width as int, aux.height as int, x as int, y as int); }
    match layout {
        Layout::V1 => if y % 2 == 1 {
            // B4 and B5: the odd rows of U then of V, eight of each per macroblock, in
            // the chroma view's luma plane.
            let r: usize = y / 16 * 16 + y % 16 / 2;
            (aux.y_at(x, r), aux.y_at(x, r + 8))
        } else {
            // B6 and B7: the odd columns of the even rows, in its chroma planes.
            (aux.u_at(x / 2, y / 2), aux.v_at(x / 2, y / 2))
        },
        Layout::V2 => if x % 2 == 1 {
            // B4 and B5: the odd columns, every row, in the left and right halves of the
            // chroma view's luma plane.
            (aux.y_at(x / 2, y), aux.y_at(aux.width / 2 + x / 2, y))
        } else {
            // B6 to B9: the odd rows of the even columns, columns 4n in its U plane and
            // 4n+2 in its V plane, U's samples in each plane's left half and V's in its
            // right.
            let (column, r): (usize, usize) = (x / 4, y / 2);
            let quarter: usize = aux.width / 4;
            if x % 4 == 0 {
                (aux.u_at(column, r), aux.u_at(quarter + column, r))
            } else {
                (aux.v_at(column, r), aux.v_at(quarter + column, r))
            }
        },
    }
}

fn chroma_at(main: &Picture<'_>, aux: &Picture<'_>, layout: Layout, block: Area, x: usize, y: usize) -> (uv: (
    u8,
    u8,
))
    requires
        can_combine(main@, aux@, block),
        block.left <= x < block.right,
        block.top <= y < block.bottom,
    ensures
        uv == chroma_spec(main@, aux@, layout, block, x as int, y as int),
{
    if x % 2 == 1 || y % 2 == 1 {
        return carried_at(aux, layout, x, y);
    }
    let (u, v): (u8, u8) = (main.u_at(x / 2, y / 2), main.v_at(x / 2, y / 2));
    if x + 1 < block.right && y + 1 < block.bottom {
        let right: (u8, u8) = carried_at(aux, layout, x + 1, y);
        let below: (u8, u8) = carried_at(aux, layout, x, y + 1);
        let diagonal: (u8, u8) = carried_at(aux, layout, x + 1, y + 1);
        (unfilter(u, right.0, below.0, diagonal.0), unfilter(v, right.1, below.1, diagonal.1))
    } else {
        (u, v)
    }
}

/// Both views are whole pictures of one size in whole macroblocks, and the block is inside
/// them and starts on an even sample.
pub open spec fn can_combine(main: PictureView, aux: PictureView, block: Area) -> bool {
    &&& main.wf() && aux.wf()
    &&& main.width == aux.width && main.height == aux.height
    &&& aux.width % 16 == 0 && aux.height % 16 == 0
    &&& block.inside(aux.width as int, aux.height as int)
    &&& block.left % 2 == 0 && block.top % 2 == 0
}

/// The first `n` combined samples of a block, row after row.
pub open spec fn combined(main: PictureView, aux: PictureView, layout: Layout, block: Area, n: nat) -> Seq<
    (u8, u8),
> {
    let width = block.right - block.left;
    Seq::new(
        n,
        |i: int| chroma_spec(main, aux, layout, block, block.left + i % width, block.top + i / width),
    )
}

pub open spec fn firsts(s: Seq<(u8, u8)>) -> Seq<u8> {
    Seq::new(s.len(), |i: int| s[i].0)
}

pub open spec fn seconds(s: Seq<(u8, u8)>) -> Seq<u8> {
    Seq::new(s.len(), |i: int| s[i].1)
}

proof fn block_is_small(picture: PictureView, block: Area)
    requires
        picture.wf(),
        block.inside(picture.width as int, picture.height as int),
    ensures
        0 < (block.right - block.left) * (block.bottom - block.top) <= MAX_PLANE,
{
    let (w, h) = (block.right - block.left, block.bottom - block.top);
    assert(0 < w * h <= picture.y_stride * picture.height) by (nonlinear_arith)
        requires
            0 < w <= picture.y_stride,
            0 < h <= picture.height,
    ;
}

/// Put the two views' chroma back together over `block`, U and V at the block's width.
pub fn combine(main: &Picture<'_>, aux: &Picture<'_>, layout: Layout, block: Area) -> (planes: (Vec<u8>, Vec<u8>))
    requires
        can_combine(main@, aux@, block),
    ensures
        ({
            let n = ((block.right - block.left) * (block.bottom - block.top)) as nat;
            &&& planes.0@ == firsts(combined(main@, aux@, layout, block, n))
            &&& planes.1@ == seconds(combined(main@, aux@, layout, block, n))
        }),
{
    let width: usize = block.width();
    let mut u444: Vec<u8> = Vec::new();
    let mut v444: Vec<u8> = Vec::new();
    let ghost mut n = 0nat;
    assert((block.top - block.top) * width == 0) by (nonlinear_arith);
    assert(u444@ =~= firsts(combined(main@, aux@, layout, block, 0)));
    assert(v444@ =~= seconds(combined(main@, aux@, layout, block, 0)));
    for y in block.top..block.bottom
        invariant
            can_combine(main@, aux@, block),
            width == block.right - block.left,
            n == (y - block.top) * width,
            u444@ == firsts(combined(main@, aux@, layout, block, n)),
            v444@ == seconds(combined(main@, aux@, layout, block, n)),
    {
        for x in block.left..block.right
            invariant
                can_combine(main@, aux@, block),
                block.top <= y < block.bottom,
                width == block.right - block.left,
                n == (y - block.top) * width + (x - block.left),
                u444@ == firsts(combined(main@, aux@, layout, block, n)),
                v444@ == seconds(combined(main@, aux@, layout, block, n)),
        {
            let (u, v) = chroma_at(main, aux, layout, block, x, y);
            proof {
                lemma_fundamental_div_mod_converse(n as int, width as int, y - block.top, x - block.left);
            }
            u444.push(u);
            v444.push(v);
            proof {
                n = n + 1;
                assert(u444@ =~= firsts(combined(main@, aux@, layout, block, n)));
                assert(v444@ =~= seconds(combined(main@, aux@, layout, block, n)));
            }
        }
        assert((y - block.top) * width + width == (y + 1 - block.top) * width) by (nonlinear_arith);
    }
    assert((block.bottom - block.top) * width == (block.right - block.left) * (block.bottom - block.top))
        by (nonlinear_arith)
        requires
            width == block.right - block.left,
    ;
    (u444, v444)
}

/// One plane's worth of a rectangle: `old`, `width` wide, with the rectangle's samples
/// taken from `from`, `stride` wide.
pub open spec fn overlaid(
    old: Seq<u8>,
    width: int,
    from: Seq<u8>,
    stride: int,
    left: int,
    right: int,
    top: int,
    bottom: int,
) -> Seq<u8> {
    Seq::new(
        old.len(),
        |i: int|
            if left <= i % width < right && top <= i / width < bottom {
                from[i / width * stride + i % width]
            } else {
                old[i]
            },
    )
}

/// As [`overlaid`], but only the rows above `y` and, in row `y`, the columns before `x`.
spec fn overlaid_so_far(
    old: Seq<u8>,
    width: int,
    from: Seq<u8>,
    stride: int,
    left: int,
    right: int,
    top: int,
    x: int,
    y: int,
) -> Seq<u8> {
    Seq::new(
        old.len(),
        |i: int|
            if left <= i % width < right && top <= i / width && (i / width < y || (i / width == y && i % width
                < x)) {
                from[i / width * stride + i % width]
            } else {
                old[i]
            },
    )
}

fn overlay(
    plane: &mut Vec<u8>,
    width: usize,
    height: usize,
    from: &[u8],
    stride: usize,
    left: usize,
    right: usize,
    top: usize,
    bottom: usize,
)
    requires
        old(plane)@.len() == width * height,
        width <= stride,
        stride * height <= from@.len(),
        left <= right <= width,
        top <= bottom <= height,
    ensures
        final(plane)@ == overlaid(
            old(plane)@,
            width as int,
            from@,
            stride as int,
            left as int,
            right as int,
            top as int,
            bottom as int,
        ),
{
    let len: usize = plane.len();
    let available: usize = from.len();
    let ghost before = plane@;
    let ghost done = |x: int, y: int|
        overlaid_so_far(
            before,
            width as int,
            from@,
            stride as int,
            left as int,
            right as int,
            top as int,
            x,
            y,
        );
    assert(plane@ =~= done(left as int, top as int));
    for y in top..bottom
        invariant
            len == width * height,
            before.len() == len,
            stride * height <= available,
            available == from@.len(),
            width <= stride,
            left <= right <= width,
            bottom <= height,
            done == (|x: int, y: int|
                overlaid_so_far(
                    before,
                    width as int,
                    from@,
                    stride as int,
                    left as int,
                    right as int,
                    top as int,
                    x,
                    y,
                )),
            plane@ == done(left as int, y as int),
    {
        for x in left..right
            invariant
                len == width * height,
                before.len() == len,
                stride * height <= available,
                available == from@.len(),
                width <= stride,
                left <= right <= width,
                top <= y < bottom <= height,
                done == (|x: int, y: int|
                    overlaid_so_far(
                        before,
                        width as int,
                        from@,
                        stride as int,
                        left as int,
                        right as int,
                        top as int,
                        x,
                        y,
                    )),
                plane@ == done(x as int, y as int),
        {
            proof {
                sample_is_inside(width as int, width as int, height as int, x as int, y as int);
                sample_is_inside(stride as int, width as int, height as int, x as int, y as int);
                lemma_fundamental_div_mod_converse(y * width + x, width as int, y as int, x as int);
            }
            let ghost k = y * width + x;
            plane[y * width + x] = from[y * stride + x];
            assert(plane@ =~= done(x + 1, y as int)) by {
                assert forall|i: int| 0 <= i < len && i != k implies plane@[i] == done(x + 1, y as int)[i] by {
                    lemma_fundamental_div_mod(i, width as int);
                    assert(width * (i / width as int) == (i / width as int) * width) by (nonlinear_arith);
                }
            }
        }
        assert(done(right as int, y as int) =~= done(left as int, y + 1));
    }
    assert(plane@ =~= overlaid(
        before,
        width as int,
        from@,
        stride as int,
        left as int,
        right as int,
        top as int,
        bottom as int,
    ));
}

/// A picture of this module's own: the luma views' rectangles, each as the last luma view
/// that carried it left it, kept for the chroma views that combine with them. MS-RDPEGFX
/// 3.3.8.3.2 has a chroma rectangle combine with "the last corresponding rectangle in a
/// luma subframe", so a luma view updates only the rectangles in its mask: the picture
/// outside them is whatever its encoder left there, and taking it would overwrite
/// rectangles a later chroma view still needs.
pub struct Planes {
    pub width: usize,
    pub height: usize,
    pub y: Vec<u8>,
    pub u: Vec<u8>,
    pub v: Vec<u8>,
}

/// A [`Planes`] by its contents.
#[verifier::ext_equal]
pub struct PlanesView {
    pub width: usize,
    pub height: usize,
    pub y: Seq<u8>,
    pub u: Seq<u8>,
    pub v: Seq<u8>,
}

impl View for Planes {
    type V = PlanesView;

    open spec fn view(&self) -> PlanesView {
        PlanesView { width: self.width, height: self.height, y: self.y@, u: self.u@, v: self.v@ }
    }
}

/// A picture of this size fits in its planes.
pub open spec fn size_fits(width: usize, height: usize) -> bool {
    &&& width <= MAX_PLANE
    &&& width * height <= MAX_PLANE
    &&& half_up(width as int) * half_up(height as int) <= MAX_PLANE
}

impl PlanesView {
    pub open spec fn wf(self) -> bool {
        &&& size_fits(self.width, self.height)
        &&& self.y.len() == self.width * self.height
        &&& self.u.len() == half_up(self.width as int) * half_up(self.height as int)
        &&& self.v.len() == self.u.len()
    }

    /// The picture whose planes these are.
    pub open spec fn picture(self) -> PictureView {
        PictureView {
            width: self.width,
            height: self.height,
            y: self.y,
            y_stride: self.width,
            u: self.u,
            u_stride: half_up(self.width as int) as usize,
            v: self.v,
            v_stride: half_up(self.width as int) as usize,
        }
    }

    /// A picture of this size, black.
    pub open spec fn black(width: usize, height: usize) -> PlanesView {
        let luma = (width * height) as nat;
        let chroma = (half_up(width as int) * half_up(height as int)) as nat;
        PlanesView {
            width,
            height,
            y: Seq::new(luma, |i: int| 0u8),
            u: Seq::new(chroma, |i: int| 0u8),
            v: Seq::new(chroma, |i: int| 0u8),
        }
    }

    pub open spec fn fitted(self, width: usize, height: usize) -> PlanesView {
        if self.width == width && self.height == height {
            self
        } else {
            PlanesView::black(width, height)
        }
    }

    /// One rectangle taken from a picture, with the chroma samples that enclose it.
    pub open spec fn keeping(self, from: PictureView, area: Area) -> PlanesView {
        let columns = half_up(self.width as int);
        let (left, right) = (area.left as int / 2, half_up(area.right as int));
        let (top, bottom) = (area.top as int / 2, half_up(area.bottom as int));
        PlanesView {
            y: overlaid(
                self.y,
                self.width as int,
                from.y,
                from.y_stride as int,
                area.left as int,
                area.right as int,
                area.top as int,
                area.bottom as int,
            ),
            u: overlaid(self.u, columns, from.u, from.u_stride as int, left, right, top, bottom),
            v: overlaid(self.v, columns, from.v, from.v_stride as int, left, right, top, bottom),
            ..self
        }
    }
}

impl Planes {
    pub fn empty() -> (planes: Planes)
        ensures
            planes@ == PlanesView::black(0, 0),
            planes@.wf(),
    {
        let planes = Planes { width: 0, height: 0, y: Vec::new(), u: Vec::new(), v: Vec::new() };
        assert(planes@ =~= PlanesView::black(0, 0));
        planes
    }

    /// Sized to the picture. A picture of another size starts over, black.
    pub fn fit(&mut self, width: usize, height: usize)
        requires
            old(self)@.wf(),
            size_fits(width, height),
        ensures
            final(self)@ == old(self)@.fitted(width, height),
            final(self)@.wf(),
    {
        if self.width == width && self.height == height {
            return;
        }
        let columns: usize = width / 2 + width % 2;
        let rows: usize = height / 2 + height % 2;
        proof {
            assert(0 <= columns * rows) by (nonlinear_arith)
                requires
                    0 <= columns,
                    0 <= rows,
            ;
            assert(0 <= width * height) by (nonlinear_arith)
                requires
                    0 <= width,
                    0 <= height,
            ;
        }
        *self = Planes {
            width,
            height,
            y: zeroed(width * height),
            u: zeroed(columns * rows),
            v: zeroed(columns * rows),
        };
    }

    /// Take one rectangle of the picture, with the chroma samples that enclose it.
    pub fn keep(&mut self, from: &Picture<'_>, area: Area)
        requires
            old(self)@.wf(),
            from@.wf(),
            from.width == old(self)@.width,
            from.height == old(self)@.height,
            area.inside(from.width as int, from.height as int),
        ensures
            final(self)@ == old(self)@.keeping(from@, area),
            final(self)@.wf(),
    {
        let (width, height): (usize, usize) = (self.width, self.height);
        let columns: usize = width / 2 + width % 2;
        let rows: usize = height / 2 + height % 2;
        let (left, right): (usize, usize) = (area.left / 2, area.right / 2 + area.right % 2);
        let (top, bottom): (usize, usize) = (area.top / 2, area.bottom / 2 + area.bottom % 2);
        overlay(
            &mut self.y,
            width,
            height,
            from.y,
            from.y_stride,
            area.left,
            area.right,
            area.top,
            area.bottom,
        );
        overlay(&mut self.u, columns, rows, from.u, from.u_stride, left, right, top, bottom);
        overlay(&mut self.v, columns, rows, from.v, from.v_stride, left, right, top, bottom);
    }
}

impl<'a> Picture<'a> {
    /// The picture whose planes these are.
    pub fn of_planes(planes: &'a Planes) -> (picture: Picture<'a>)
        requires
            planes@.wf(),
        ensures
            picture@ == planes@.picture(),
            picture@.wf(),
    {
        let columns: usize = planes.width / 2 + planes.width % 2;
        Picture {
            width: planes.width,
            height: planes.height,
            y: planes.y.as_slice(),
            y_stride: planes.width,
            u: planes.u.as_slice(),
            u_stride: columns,
            v: planes.v.as_slice(),
            v_stride: columns,
        }
    }
}

/// What a colour converter is handed: three planes from a corner of a picture on, their
/// strides, and the size of the block to convert.
pub struct Window<'a> {
    pub y: &'a [u8],
    pub y_stride: u32,
    pub u: &'a [u8],
    pub u_stride: u32,
    pub v: &'a [u8],
    pub v_stride: u32,
    pub width: u32,
    pub height: u32,
}

/// A plane that starts at a block's corner reaches to the block's last sample.
pub open spec fn plane_reaches(plane: Seq<u8>, stride: u32, width: int, height: int) -> bool {
    &&& 0 < width <= stride
    &&& 0 < height
    &&& stride * height <= MAX_PLANE
    &&& stride * (height - 1) + width <= plane.len()
}

impl<'a> Window<'a> {
    /// The planes reach over the block, the chroma planes at half size each way.
    pub open spec fn reaches_420(self) -> bool {
        let (columns, rows) = (half_up(self.width as int), half_up(self.height as int));
        &&& plane_reaches(self.y@, self.y_stride, self.width as int, self.height as int)
        &&& plane_reaches(self.u@, self.u_stride, columns, rows)
        &&& plane_reaches(self.v@, self.v_stride, columns, rows)
    }

    /// The planes reach over the block, all three at full size.
    pub open spec fn reaches_444(self) -> bool {
        &&& plane_reaches(self.y@, self.y_stride, self.width as int, self.height as int)
        &&& plane_reaches(self.u@, self.u_stride, self.width as int, self.height as int)
        &&& plane_reaches(self.v@, self.v_stride, self.width as int, self.height as int)
    }
}

proof fn plane_from_corner(plane: Seq<u8>, stride: int, width: int, height: int, area: Area)
    requires
        width <= stride,
        stride * height <= plane.len(),
        area.inside(width, height),
    ensures
        0 <= area.top * stride,
        0 <= area.top * stride + area.left <= plane.len(),
        stride * (area.bottom - area.top) <= stride * height,
        stride * (area.bottom - area.top - 1) + (area.right - area.left) <= plane.len() - (area.top * stride
            + area.left),
{
    let (left, top, right, bottom) = (area.left as int, area.top as int, area.right as int, area.bottom as int);
    assert(0 <= top * stride) by (nonlinear_arith)
        requires
            0 <= top,
            0 <= stride,
    ;
    assert(stride * (bottom - top) <= stride * height) by (nonlinear_arith)
        requires
            0 <= stride,
            bottom - top <= height,
    ;
    assert(stride * (bottom - top - 1) + top * stride + right <= stride * height) by (nonlinear_arith)
        requires
            0 <= top,
            right <= stride,
            bottom <= height,
            top < bottom,
            0 <= stride,
    ;
    assert(stride * (bottom - top - 1) >= 0) by (nonlinear_arith)
        requires
            0 <= stride,
            top < bottom,
    ;
}

/// What is converted of a YUV420 picture for a block that starts on an even sample.
pub fn window_420<'a>(picture: &Picture<'a>, block: Area) -> (window: Window<'a>)
    requires
        picture@.wf(),
        block.inside(picture.width as int, picture.height as int),
        block.left % 2 == 0 && block.top % 2 == 0,
    ensures
        window.reaches_420(),
        window.width == block.right - block.left,
        window.height == block.bottom - block.top,
        window.y_stride == picture.y_stride,
        window.u_stride == picture.u_stride,
        window.v_stride == picture.v_stride,
        window.y@ == picture.y@.skip(block.top * picture.y_stride + block.left),
        window.u@ == picture.u@.skip(block.top / 2 * picture.u_stride + block.left / 2),
        window.v@ == picture.v@.skip(block.top / 2 * picture.v_stride + block.left / 2),
{
    proof {
        let halved = Area {
            left: block.left / 2,
            top: block.top / 2,
            right: half_up(block.right as int) as usize,
            bottom: half_up(block.bottom as int) as usize,
        };
        let (columns, rows) = (half_up(picture.width as int), half_up(picture.height as int));
        plane_from_corner(
            picture.y@,
            picture.y_stride as int,
            picture.width as int,
            picture.height as int,
            block,
        );
        plane_from_corner(picture.u@, picture.u_stride as int, columns, rows, halved);
        plane_from_corner(picture.v@, picture.v_stride as int, columns, rows, halved);
        assert(half_up(block.right - block.left) == halved.right - halved.left);
        assert(half_up(block.bottom - block.top) == halved.bottom - halved.top);
        block_is_small(picture@, block);
        sides_are_small(picture@, block);
    }
    let (y_len, u_len, v_len): (usize, usize, usize) = (picture.y.len(), picture.u.len(), picture.v.len());
    let y = slice_subrange(picture.y, block.top * picture.y_stride + block.left, y_len);
    let u = slice_subrange(picture.u, block.top / 2 * picture.u_stride + block.left / 2, u_len);
    let v = slice_subrange(picture.v, block.top / 2 * picture.v_stride + block.left / 2, v_len);
    Window {
        y,
        y_stride: picture.y_stride as u32,
        u,
        u_stride: picture.u_stride as u32,
        v,
        v_stride: picture.v_stride as u32,
        width: block.width() as u32,
        height: block.height() as u32,
    }
}

proof fn sides_are_small(picture: PictureView, block: Area)
    requires
        picture.wf(),
        block.inside(picture.width as int, picture.height as int),
    ensures
        0 < block.right - block.left <= MAX_PLANE,
        0 < block.bottom - block.top <= MAX_PLANE,
{
    let (w, h) = (block.right - block.left, block.bottom - block.top);
    block_is_small(picture, block);
    assert(h <= w * h) by (nonlinear_arith)
        requires
            1 <= w,
            0 < h,
    ;
}

/// What is converted of a picture for a block whose chroma has been put together.
pub fn window_444<'a>(picture: &Picture<'a>, block: Area, u444: &'a [u8], v444: &'a [u8]) -> (window: Window<'a>)
    requires
        picture@.wf(),
        block.inside(picture.width as int, picture.height as int),
        u444@.len() == (block.right - block.left) * (block.bottom - block.top),
        v444@.len() == u444@.len(),
    ensures
        window.reaches_444(),
        window.width == block.right - block.left,
        window.height == block.bottom - block.top,
        window.y_stride == picture.y_stride,
        window.u_stride == block.right - block.left,
        window.v_stride == block.right - block.left,
        window.y@ == picture.y@.skip(block.top * picture.y_stride + block.left),
        window.u@ == u444@,
        window.v@ == v444@,
{
    proof {
        plane_from_corner(
            picture.y@,
            picture.y_stride as int,
            picture.width as int,
            picture.height as int,
            block,
        );
        block_is_small(picture@, block);
        sides_are_small(picture@, block);
        let (w, h) = (block.right - block.left, block.bottom - block.top);
        assert(w * (h - 1) + w == w * h) by (nonlinear_arith);
    }
    let y_len: usize = picture.y.len();
    let y = slice_subrange(picture.y, block.top * picture.y_stride + block.left, y_len);
    Window {
        y,
        y_stride: picture.y_stride as u32,
        u: u444,
        u_stride: block.width() as u32,
        v: v444,
        v_stride: block.width() as u32,
        width: block.width() as u32,
        height: block.height() as u32,
    }
}

/// The error of the colour converter.
#[verifier::external_type_specification]
#[verifier::external_body]
pub struct ExYuvError(yuv::YuvError);

/// Whether `rgb` is what `yuv::yuv420_to_rgb` makes of a block of these planes, full range
/// and BT.709, with the chroma planes at half size each way, on one machine or
/// another: the converter picks its routine by the vector unit it finds, and the routines
/// round differently, so there may be several.
pub uninterp spec fn may_be_rgb_of_420(
    y: Seq<u8>,
    y_stride: u32,
    u: Seq<u8>,
    u_stride: u32,
    v: Seq<u8>,
    v_stride: u32,
    width: u32,
    height: u32,
    rgb: Seq<u8>,
) -> bool;

/// `yuv::yuv420_to_rgb`, full range, BT.709: planes that reach over the block, and a buffer
/// of packed rows as wide as it, are converted, and the buffer keeps its length. What the
/// colours are is left to [`may_be_rgb_of_420`].
#[verifier::external_body]
fn rgb_of_420(window: &Window<'_>, rgb: &mut Vec<u8>, stride: u32) -> (res: Result<(), yuv::YuvError>)
    requires
        window.reaches_420(),
        stride == 3 * window.width,
        old(rgb)@.len() == stride * window.height,
    ensures
        res is Ok,
        final(rgb)@.len() == old(rgb)@.len(),
        may_be_rgb_of_420(
            window.y@,
            window.y_stride,
            window.u@,
            window.u_stride,
            window.v@,
            window.v_stride,
            window.width,
            window.height,
            final(rgb)@,
        ),
{
    let image = YuvPlanarImage {
        y_plane: window.y,
        y_stride: window.y_stride,
        u_plane: window.u,
        u_stride: window.u_stride,
        v_plane: window.v,
        v_stride: window.v_stride,
        width: window.width,
        height: window.height,
    };
    yuv::yuv420_to_rgb(&image, rgb, stride, YuvRange::Full, YuvStandardMatrix::Bt709)
}

/// Whether `rgb` is what `yuv::yuv444_to_rgb` makes of a block of these planes, full range
/// and BT.709, with all three planes at full size, on one machine or
/// another: the converter picks its routine by the vector unit it finds, and the routines
/// round differently, so there may be several.
pub uninterp spec fn may_be_rgb_of_444(
    y: Seq<u8>,
    y_stride: u32,
    u: Seq<u8>,
    u_stride: u32,
    v: Seq<u8>,
    v_stride: u32,
    width: u32,
    height: u32,
    rgb: Seq<u8>,
) -> bool;

/// `yuv::yuv444_to_rgb`, full range, BT.709: planes that reach over the block, and a buffer
/// of packed rows as wide as it, are converted, and the buffer keeps its length. What the
/// colours are is left to [`may_be_rgb_of_444`].
#[verifier::external_body]
fn rgb_of_444(window: &Window<'_>, rgb: &mut Vec<u8>, stride: u32) -> (res: Result<(), yuv::YuvError>)
    requires
        window.reaches_444(),
        stride == 3 * window.width,
        old(rgb)@.len() == stride * window.height,
    ensures
        res is Ok,
        final(rgb)@.len() == old(rgb)@.len(),
        may_be_rgb_of_444(
            window.y@,
            window.y_stride,
            window.u@,
            window.u_stride,
            window.v@,
            window.v_stride,
            window.width,
            window.height,
            final(rgb)@,
        ),
{
    let image = YuvPlanarImage {
        y_plane: window.y,
        y_stride: window.y_stride,
        u_plane: window.u,
        u_stride: window.u_stride,
        v_plane: window.v,
        v_stride: window.v_stride,
        width: window.width,
        height: window.height,
    };
    yuv::yuv444_to_rgb(&image, rgb, stride, YuvRange::Full, YuvStandardMatrix::Bt709)
}

/// One rectangle of the surface to paint: its rows of packed RGB, and the bytes between
/// the starts of consecutive rows.
#[derive(Debug)]
pub struct Paint {
    pub rect: Rect16,
    pub rgb: Vec<u8>,
    pub stride: usize,
}

/// A [`Paint`] by its contents.
pub struct PaintView {
    pub rect: Rect16,
    pub rgb: Seq<u8>,
    pub stride: usize,
}

impl View for Paint {
    type V = PaintView;

    open spec fn view(&self) -> PaintView {
        PaintView { rect: self.rect, rgb: self.rgb@, stride: self.stride }
    }
}

/// Where the area starts in the block's rows of packed RGB.
pub open spec fn crop_at(area: Area, block: Area) -> int {
    (area.top - block.top) * (3 * (block.right - block.left)) + 3 * (area.left - block.left)
}

/// The area painted out of the block's rows of packed RGB.
pub open spec fn cropped(area: Area, block: Area, rgb: Seq<u8>) -> PaintView {
    PaintView {
        rect: area.rect_spec(),
        rgb: rgb.skip(crop_at(area, block)),
        stride: (3 * (block.right - block.left)) as usize,
    }
}

impl Area {
    /// This rectangle holds something and lies within the other.
    pub open spec fn within(self, block: Area) -> bool {
        block.left <= self.left < self.right <= block.right && block.top <= self.top < self.bottom
            <= block.bottom
    }
}

/// The area painted out of the block that was converted for it: the conversion covers the
/// area widened, the paint is the area itself.
pub fn crop(area: Area, block: Area, rgb: &[u8]) -> (paint: Paint)
    requires
        area.within(block),
        block.right - block.left <= MAX_PLANE,
        rgb@.len() == 3 * (block.right - block.left) * (block.bottom - block.top),
    ensures
        paint@ == cropped(area, block, rgb@),
        paint@.holds(area),
{
    let stride: usize = 3 * block.width();
    let len: usize = rgb.len();
    proof {
        let (dx, dy) = (area.left - block.left, area.top - block.top);
        let h = block.bottom - block.top;
        assert(0 <= dy * stride && dy * stride + stride <= stride * h) by (nonlinear_arith)
            requires
                0 <= dy < h,
                0 <= stride,
        ;
        let (w, rows) = (area.right - area.left, area.bottom - area.top);
        assert(dy * stride + 3 * dx + (rows - 1) * stride + 3 * w <= stride * h) by (nonlinear_arith)
            requires
                0 <= dy,
                dy + rows <= h,
                3 * dx + 3 * w <= stride,
                0 < rows,
        ;
    }
    let start: usize = (area.top - block.top) * stride + 3 * (area.left - block.left);
    let rows = copy(slice_subrange(rgb, start, len));
    assert(rows@ =~= rgb@.skip(crop_at(area, block)));
    Paint { rect: area.rect16(), rgb: rows, stride }
}

impl PaintView {
    /// The rows reach over the area, which is what is painted.
    pub open spec fn holds(self, area: Area) -> bool {
        &&& self.rect == area.rect_spec()
        &&& 3 * (area.right - area.left) <= self.stride
        &&& (area.bottom - area.top - 1) * self.stride + 3 * (area.right - area.left) <= self.rgb.len()
    }
}

/// Rows of packed RGB that a block of a YUV420 picture may become.
pub open spec fn converted_420(p: PictureView, block: Area, rgb: Seq<u8>) -> bool {
    &&& rgb.len() == 3 * (block.right - block.left) * (block.bottom - block.top)
    &&& may_be_rgb_of_420(
        p.y.skip(block.top * p.y_stride + block.left),
        p.y_stride as u32,
        p.u.skip(block.top / 2 * p.u_stride + block.left / 2),
        p.u_stride as u32,
        p.v.skip(block.top / 2 * p.v_stride + block.left / 2),
        p.v_stride as u32,
        (block.right - block.left) as u32,
        (block.bottom - block.top) as u32,
        rgb,
    )
}

/// Rows of packed RGB that a block of a picture may become with this chroma.
pub open spec fn converted_444(p: PictureView, block: Area, u444: Seq<u8>, v444: Seq<u8>, rgb: Seq<u8>) -> bool {
    let width = block.right - block.left;
    &&& rgb.len() == 3 * width * (block.bottom - block.top)
    &&& may_be_rgb_of_444(
        p.y.skip(block.top * p.y_stride + block.left),
        p.y_stride as u32,
        u444,
        width as u32,
        v444,
        width as u32,
        width as u32,
        (block.bottom - block.top) as u32,
        rgb,
    )
}

/// The paint of an area at half chroma: the conversion covers the area widened to whole
/// chroma samples; the paint is the area itself.
pub open spec fn shows_420(p: PictureView, area: Area, paint: PaintView) -> bool {
    let block = area.aligned_spec(2, p.size());
    exists|rgb: Seq<u8>| #[trigger] converted_420(p, block, rgb) && paint == cropped(area, block, rgb)
}

/// The paint of an area at full chroma: the two views are put together over the area
/// widened to whole macroblocks, since the chroma view is laid out by macroblock and the
/// filter reads across every 2x2.
pub open spec fn shows_444(
    main: PictureView,
    aux: PictureView,
    layout: Layout,
    area: Area,
    paint: PaintView,
) -> bool {
    let block = area.aligned_spec(16, main.size());
    let n = ((block.right - block.left) * (block.bottom - block.top)) as nat;
    let chroma = combined(main, aux, layout, block, n);
    exists|rgb: Seq<u8>|
        #[trigger] converted_444(main, block, firsts(chroma), seconds(chroma), rgb) && paint == cropped(
            area,
            block,
            rgb,
        )
}

pub open spec fn showing_420(p: PictureView) -> spec_fn(Area, PaintView) -> bool {
    |area: Area, paint: PaintView| shows_420(p, area, paint)
}

pub open spec fn showing_444(main: PictureView, aux: PictureView, layout: Layout) -> spec_fn(
    Area,
    PaintView,
) -> bool {
    |area: Area, paint: PaintView| shows_444(main, aux, layout, area, paint)
}

/// Convert `area` of a YUV420 picture to RGB. The conversion covers the area widened to
/// whole chroma samples; the paint is the area itself.
fn convert_420(picture: &Picture<'_>, area: Area) -> (paint: Paint)
    requires
        picture@.wf(),
        area.inside(picture.width as int, picture.height as int),
    ensures
        paint@.holds(area),
        shows_420(picture@, area, paint@),
{
    let block = area.aligned(2, (picture.width, picture.height));
    let window = window_420(picture, block);
    proof {
        block_is_small(picture@, block);
        assert(3 * (block.right - block.left) * (block.bottom - block.top) == 3 * ((block.right - block.left)
            * (block.bottom - block.top))) by (nonlinear_arith);
    }
    let mut rgb = zeroed(3 * block.width() * block.height());
    let done = rgb_of_420(&window, &mut rgb, 3 * window.width);
    assert(done is Ok);
    assert(block == area.aligned_spec(2, picture@.size()));
    assert(converted_420(picture@, block, rgb@));
    let paint = crop(area, block, rgb.as_slice());
    assert(paint@ == cropped(area, block, rgb@));
    paint
}

/// Convert `area` of the picture to RGB from the luma view's Y and the block's combined
/// chroma.
fn convert_444(picture: &Picture<'_>, block: Area, u444: &[u8], v444: &[u8], area: Area) -> (paint: Paint)
    requires
        picture@.wf(),
        block.inside(picture.width as int, picture.height as int),
        area.within(block),
        u444@.len() == (block.right - block.left) * (block.bottom - block.top),
        v444@.len() == u444@.len(),
    ensures
        paint@.holds(area),
        exists|rgb: Seq<u8>|
            #[trigger] converted_444(picture@, block, u444@, v444@, rgb) && paint@ == cropped(area, block, rgb),
{
    let window = window_444(picture, block, u444, v444);
    proof {
        block_is_small(picture@, block);
        sides_are_small(picture@, block);
        assert(3 * (block.right - block.left) * (block.bottom - block.top) == 3 * ((block.right - block.left)
            * (block.bottom - block.top))) by (nonlinear_arith);
    }
    let mut rgb = zeroed(3 * block.width() * block.height());
    let done = rgb_of_444(&window, &mut rgb, 3 * window.width);
    assert(done is Ok);
    assert(converted_444(picture@, block, u444@, v444@, rgb@));
    crop(area, block, rgb.as_slice())
}

/// The rectangles of a mask that are shown of a picture of this size.
pub open spec fn shown(regions: Seq<Region>, surface: (u32, u32), size: (usize, usize)) -> Seq<Area>
    decreases regions.len(),
{
    if regions.len() == 0 {
        seq![]
    } else {
        let before = shown(regions.drop_last(), surface, size);
        match Area::clip_spec(regions.last().rect, surface, size) {
            Some(area) => before.push(area),
            None => before,
        }
    }
}

/// One paint for each of these areas, in order, after the paints there were, each showing
/// its area.
pub open spec fn painted(
    before: Seq<Paint>,
    after: Seq<Paint>,
    areas: Seq<Area>,
    shows: spec_fn(Area, PaintView) -> bool,
) -> bool {
    &&& after.len() == before.len() + areas.len()
    &&& forall|i: int| 0 <= i < before.len() ==> #[trigger] after[i] == before[i]
    &&& forall|i: int|
        0 <= i < areas.len() ==> (#[trigger] after[before.len() + i])@.holds(areas[i]) && shows(
            areas[i],
            after[before.len() + i]@,
        )
}

proof fn painted_one_more(
    before: Seq<Paint>,
    after: Seq<Paint>,
    areas: Seq<Area>,
    shows: spec_fn(Area, PaintView) -> bool,
    paint: Paint,
    area: Area,
)
    requires
        painted(before, after, areas, shows),
        paint@.holds(area),
        shows(area, paint@),
    ensures
        painted(before, after.push(paint), areas.push(area), shows),
{
    let (grown, more) = (after.push(paint), areas.push(area));
    assert forall|i: int| 0 <= i < more.len() implies (#[trigger] grown[before.len() + i])@.holds(more[i]) && shows(
        more[i],
        grown[before.len() + i]@,
    ) by {
        if i < areas.len() {
            assert(grown[before.len() + i] == after[before.len() + i]);
        }
    }
}

proof fn one_more_region(regions: Seq<Region>, i: int)
    requires
        0 <= i < regions.len(),
    ensures
        regions.take(i + 1).drop_last() == regions.take(i),
        regions.take(i + 1).last() == regions[i],
{
    assert(regions.take(i + 1).drop_last() =~= regions.take(i));
}

/// Paint the rectangles of a mask out of a YUV420 picture, at half chroma.
pub fn show_420(picture: &Picture<'_>, regions: &Vec<Region>, surface: (u32, u32), paints: &mut Vec<Paint>)
    requires
        picture@.wf(),
    ensures
        painted(
            old(paints)@,
            final(paints)@,
            shown(regions@, surface, picture@.size()),
            showing_420(picture@),
        ),
{
    let size: (usize, usize) = (picture.width, picture.height);
    for i in 0..regions.len()
        invariant
            picture@.wf(),
            size == (picture.width, picture.height),
            painted(old(paints)@, paints@, shown(regions@.take(i as int), surface, size), showing_420(picture@)),
    {
        proof {
            one_more_region(regions@, i as int);
        }
        if let Some(area) = Area::clip(regions[i].rect, surface, size) {
            let paint = convert_420(picture, area);
            proof {
                painted_one_more(
                    old(paints)@,
                    paints@,
                    shown(regions@.take(i as int), surface, size),
                    showing_420(picture@),
                    paint,
                    area,
                );
            }
            paints.push(paint);
        }
    }
    assert(regions@.take(regions@.len() as int) =~= regions@);
}

/// What is kept once these areas of a picture have been taken, one after another.
pub open spec fn kept_all(kept: PlanesView, from: PictureView, areas: Seq<Area>) -> PlanesView
    decreases areas.len(),
{
    if areas.len() == 0 {
        kept
    } else {
        kept_all(kept, from, areas.drop_last()).keeping(from, areas.last())
    }
}

/// Keep the rectangles of a luma view's mask, and paint them at half chroma unless a
/// chroma view for the same rectangles paints them whole.
pub fn show_luma(
    kept: &mut Planes,
    picture: &Picture<'_>,
    regions: &Vec<Region>,
    painted_whole: bool,
    surface: (u32, u32),
    paints: &mut Vec<Paint>,
)
    requires
        old(kept)@.wf(),
        picture@.wf(),
    ensures
        ({
            let areas = shown(regions@, surface, picture@.size());
            &&& final(kept)@ == kept_all(
                old(kept)@.fitted(picture.width, picture.height),
                picture@,
                areas,
            )
            &&& painted(
                old(paints)@,
                final(paints)@,
                if painted_whole { seq![] } else { areas },
                showing_420(picture@),
            )
        }),
        final(kept)@.wf(),
        final(kept)@.width == picture.width,
        final(kept)@.height == picture.height,
{
    let size: (usize, usize) = (picture.width, picture.height);
    proof {
        picture_fits(picture@);
    }
    kept.fit(picture.width, picture.height);
    let ghost start = kept@;
    for i in 0..regions.len()
        invariant
            picture@.wf(),
            size == (picture.width, picture.height),
            kept@.wf(),
            kept@.width == picture.width,
            kept@.height == picture.height,
            kept@ == kept_all(start, picture@, shown(regions@.take(i as int), surface, size)),
            painted(
                old(paints)@,
                paints@,
                if painted_whole { seq![] } else { shown(regions@.take(i as int), surface, size) },
                showing_420(picture@),
            ),
    {
        let ghost areas = shown(regions@.take(i as int), surface, size);
        proof {
            one_more_region(regions@, i as int);
        }
        if let Some(area) = Area::clip(regions[i].rect, surface, size) {
            assert(areas.push(area).drop_last() =~= areas);
            kept.keep(picture, area);
            if !painted_whole {
                let paint = convert_420(picture, area);
                proof {
                    painted_one_more(old(paints)@, paints@, areas, showing_420(picture@), paint, area);
                }
                paints.push(paint);
            }
        }
    }
    assert(regions@.take(regions@.len() as int) =~= regions@);
}

proof fn picture_fits(picture: PictureView)
    requires
        picture.wf(),
    ensures
        size_fits(picture.width, picture.height),
{
    let (w, h) = (picture.width as int, picture.height as int);
    assert(w * h <= picture.y_stride * h) by (nonlinear_arith)
        requires
            w <= picture.y_stride,
            0 <= h,
    ;
    let (cw, ch) = (half_up(w), half_up(h));
    assert(cw * ch <= picture.u_stride * ch) by (nonlinear_arith)
        requires
            cw <= picture.u_stride,
            0 <= ch,
    ;
}

/// Why a stream was not shown.
#[derive(Debug)]
pub enum AvcError {
    /// No decoder could be made.
    NoDecoder { cause: String },
    /// The decoder refused an access unit.
    Refused { unit: String, cause: String },
    /// An access unit decoded to no picture.
    NoPicture { unit: String },
    /// The decoder's picture does not hold the samples its own size asks for.
    Torn { width: usize, height: usize },
    /// A chroma view arrived before any luma view to combine it with.
    ChromaFirst,
    /// The chroma view is one size and the luma view another.
    Apart { chroma: (usize, usize), luma: (usize, usize) },
    /// The picture is not whole macroblocks.
    Ragged { width: usize, height: usize },
}

pub open spec fn size_text(width: usize, height: usize) -> Seq<char> {
    decimal(width as nat) + "x"@ + decimal(height as nat)
}

impl AvcError {
    pub open spec fn text(self) -> Seq<char> {
        match self {
            AvcError::NoDecoder { cause } => "creating an H.264 decoder: "@ + cause@,
            AvcError::Refused { unit, cause } => "decoding an H.264 access unit of "@ + unit@ + ": "@
                + cause@,
            AvcError::NoPicture { unit } => "an H.264 access unit of "@ + unit@
                + " decoded to no picture"@,
            AvcError::Torn { width, height } => "the planes of an H.264 picture do not hold its "@
                + size_text(width, height),
            AvcError::ChromaFirst => "a chroma view arrived before any luma view to combine it with"@,
            AvcError::Apart { chroma, luma } => "the chroma view is "@ + size_text(chroma.0, chroma.1)
                + " and the luma view "@ + size_text(luma.0, luma.1),
            AvcError::Ragged { width, height } => "the picture is "@ + size_text(width, height)
                + ", which is not whole macroblocks"@,
        }
    }

    /// The error in words.
    pub fn to_string(&self) -> (s: String)
        ensures
            s@ == self.text(),
    {
        let mut s = String::new();
        match self {
            AvcError::NoDecoder { cause } => {
                s.append("creating an H.264 decoder: ");
                s.append(cause.as_str());
            },
            AvcError::Refused { unit, cause } => {
                s.append("decoding an H.264 access unit of ");
                s.append(unit.as_str());
                s.append(": ");
                s.append(cause.as_str());
            },
            AvcError::NoPicture { unit } => {
                s.append("an H.264 access unit of ");
                s.append(unit.as_str());
                s.append(" decoded to no picture");
            },
            AvcError::Torn { width, height } => {
                s.append("the planes of an H.264 picture do not hold its ");
                push_size(&mut s, *width, *height);
            },
            AvcError::ChromaFirst => {
                s.append("a chroma view arrived before any luma view to combine it with");
            },
            AvcError::Apart { chroma, luma } => {
                s.append("the chroma view is ");
                push_size(&mut s, chroma.0, chroma.1);
                s.append(" and the luma view ");
                push_size(&mut s, luma.0, luma.1);
            },
            AvcError::Ragged { width, height } => {
                s.append("the picture is ");
                push_size(&mut s, *width, *height);
                s.append(", which is not whole macroblocks");
            },
        }
        assert(s@ =~= self.text());
        s
    }
}

fn push_size(s: &mut String, width: usize, height: usize)
    ensures
        final(s)@ == old(s)@ + size_text(width, height),
{
    push_decimal(s, width as u64);
    s.append("x");
    push_decimal(s, height as u64);
    assert(s@ =~= old(s)@ + size_text(width, height));
}

/// Combine a chroma view with the luma view kept for it and paint the rectangles of its
/// mask at full chroma.
#[verifier::rlimit(60)]
pub fn show_chroma(
    kept: &Planes,
    aux: &Picture<'_>,
    layout: Layout,
    regions: &Vec<Region>,
    surface: (u32, u32),
    paints: &mut Vec<Paint>,
) -> (res: Result<(), AvcError>)
    requires
        kept@.wf(),
        aux@.wf(),
    ensures
        if aux.width != kept.width || aux.height != kept.height {
            &&& res == Err::<(), AvcError>(
                AvcError::Apart { chroma: (aux.width, aux.height), luma: (kept.width, kept.height) },
            )
            &&& final(paints)@ == old(paints)@
        } else if aux.width % 16 != 0 || aux.height % 16 != 0 {
            &&& res == Err::<(), AvcError>(AvcError::Ragged { width: aux.width, height: aux.height })
            &&& final(paints)@ == old(paints)@
        } else {
            &&& res == Ok::<(), AvcError>(())
            &&& painted(
                old(paints)@,
                final(paints)@,
                shown(regions@, surface, aux@.size()),
                showing_444(kept@.picture(), aux@, layout),
            )
        },
{
    if aux.width != kept.width || aux.height != kept.height {
        return Err(
            AvcError::Apart { chroma: (aux.width, aux.height), luma: (kept.width, kept.height) },
        );
    }
    // The chroma view's tables index whole macroblocks, which MS-RDPEGFX 2.2.4.4 has the
    // picture made of.
    if aux.width % 16 != 0 || aux.height % 16 != 0 {
        return Err(AvcError::Ragged { width: aux.width, height: aux.height });
    }
    let main = Picture::of_planes(kept);
    let size: (usize, usize) = (main.width, main.height);
    for i in 0..regions.len()
        invariant
            main@.wf(),
            aux@.wf(),
            main.width == aux.width,
            main.height == aux.height,
            aux.width % 16 == 0,
            aux.height % 16 == 0,
            size == (aux.width, aux.height),
            main@ == kept@.picture(),
            painted(
                old(paints)@,
                paints@,
                shown(regions@.take(i as int), surface, size),
                showing_444(main@, aux@, layout),
            ),
    {
        proof {
            one_more_region(regions@, i as int);
        }
        if let Some(area) = Area::clip(regions[i].rect, surface, size) {
            // Whole macroblocks, then the mask: the chroma view is laid out by macroblock,
            // and the filter reads across every 2x2.
            let block = area.aligned(16, size);
            let (u444, v444) = combine(&main, aux, layout, block);
            proof {
                block_is_small(main@, block);
            }
            let paint = convert_444(&main, block, u444.as_slice(), v444.as_slice(), area);
            proof {
                assert(block == area.aligned_spec(16, main@.size()));
                assert(shows_444(main@, aux@, layout, area, paint@));
                painted_one_more(
                    old(paints)@,
                    paints@,
                    shown(regions@.take(i as int), surface, size),
                    showing_444(main@, aux@, layout),
                    paint,
                    area,
                );
            }
            paints.push(paint);
        }
    }
    assert(regions@.take(regions@.len() as int) =~= regions@);
    Ok(())
}

/// Two region masks name the same rectangles.
pub open spec fn same_rects(a: Seq<Region>, b: Seq<Region>) -> bool {
    &&& a.len() == b.len()
    &&& forall|i: int| 0 <= i < a.len() ==> (#[trigger] a[i]).rect == b[i].rect
}

/// Whether two region masks name the same rectangles.
pub fn same_mask(a: &Vec<Region>, b: &Vec<Region>) -> (same: bool)
    ensures
        same == same_rects(a@, b@),
{
    if a.len() != b.len() {
        return false;
    }
    for i in 0..a.len()
        invariant
            a@.len() == b@.len(),
            forall|j: int| 0 <= j < i ==> (#[trigger] a@[j]).rect == b@[j].rect,
    {
        let (one, other): (Rect16, Rect16) = (a[i].rect, b[i].rect);
        if one.left != other.left || one.top != other.top || one.right != other.right || one.bottom
            != other.bottom {
            assert(a@[i as int].rect != b@[i as int].rect);
            return false;
        }
    }
    true
}

/// Whether a start code is at a place: two zeros and a one.
pub open spec fn starts_at(stream: Seq<u8>, i: int) -> bool {
    i + 2 < stream.len() && stream[i] == 0 && stream[i + 1] == 0 && stream[i + 2] == 1
}

/// Where the start codes among the first `n` places are.
pub open spec fn starts_in(stream: Seq<u8>, n: nat) -> Seq<int>
    decreases n,
{
    if n == 0 {
        seq![]
    } else {
        let before = starts_in(stream, (n - 1) as nat);
        if starts_at(stream, n - 1) { before.push(n - 1) } else { before }
    }
}

/// The NAL units of a stream in Annex B form: each from its start code up to the next, and
/// the last up to the end. What comes before the first is skipped.
pub open spec fn nal_units_in(stream: Seq<u8>) -> Seq<Seq<u8>> {
    let starts = starts_in(stream, stream.len());
    Seq::new(
        starts.len(),
        |i: int|
            stream.subrange(
                starts[i],
                if i + 1 < starts.len() {
                    starts[i + 1]
                } else {
                    stream.len() as int
                },
            ),
    )
}

/// Units by their contents.
pub open spec fn contents(units: Seq<&[u8]>) -> Seq<Seq<u8>> {
    Seq::new(units.len(), |i: int| units[i]@)
}

/// `openh264::nal_units`, gathered into a list: the stream cut at its start codes.
#[verifier::external_body]
fn nal_units<'a>(stream: &'a [u8]) -> (units: Vec<&'a [u8]>)
    ensures
        contents(units@) == nal_units_in(stream@),
{
    openh264::nal_units(stream).collect()
}

/// The type of a NAL unit: the low five bits of the byte after its start code, where there
/// is one.
pub open spec fn nal_type(nal: Seq<u8>) -> Option<u8>
    decreases nal.len(),
{
    if nal.len() == 0 {
        None
    } else if nal[0] == 0 {
        nal_type(nal.skip(1))
    } else if nal.len() == 1 {
        None
    } else {
        Some((nal[1] % 0x20) as u8)
    }
}

/// The types of units that have one.
pub open spec fn nal_types_spec(units: Seq<Seq<u8>>) -> Seq<u8>
    decreases units.len(),
{
    if units.len() == 0 {
        seq![]
    } else {
        let before = nal_types_spec(units.drop_last());
        match nal_type(units.last()) {
            Some(kind) => before.push(kind),
            None => before,
        }
    }
}

fn nal_type_of(nal: &[u8]) -> (kind: Option<u8>)
    ensures
        kind == nal_type(nal@),
{
    let mut at: usize = 0;
    assert(nal@.skip(0) =~= nal@);
    while at < nal.len()
        invariant
            at <= nal@.len(),
            nal_type(nal@) == nal_type(nal@.skip(at as int)),
        decreases nal@.len() - at,
    {
        if nal[at] != 0 {
            return if at + 1 < nal.len() { Some(nal[at + 1] % 0x20) } else { None };
        }
        assert(nal@.skip(at as int).skip(1) =~= nal@.skip(at + 1));
        at = at + 1;
    }
    None
}

/// The types of NAL units.
pub fn nal_types(units: &Vec<&[u8]>) -> (types: Vec<u8>)
    ensures
        types@ == nal_types_spec(contents(units@)),
{
    let mut types: Vec<u8> = Vec::new();
    let ghost all = contents(units@);
    assert(types@ =~= nal_types_spec(all.take(0)));
    for i in 0..units.len()
        invariant
            all == contents(units@),
            types@ == nal_types_spec(all.take(i as int)),
    {
        assert(all.take(i + 1).drop_last() =~= all.take(i as int));
        if let Some(kind) = nal_type_of(units[i]) {
            types.push(kind);
        }
    }
    assert(all.take(units@.len() as int) =~= all);
    types
}

/// Numbers with commas between them.
pub open spec fn listed(numbers: Seq<u8>) -> Seq<char>
    decreases numbers.len(),
{
    if numbers.len() == 0 {
        seq![]
    } else if numbers.len() == 1 {
        decimal(numbers[0] as nat)
    } else {
        listed(numbers.drop_last()) + ", "@ + decimal(numbers.last() as nat)
    }
}

pub open spec fn unit_text(len: nat, types: Seq<u8>) -> Seq<char> {
    decimal(len) + " bytes, NAL types ["@ + listed(types) + "]"@
}

/// An access unit of this length and with NAL units of these types, in words.
pub fn unit_in_words(len: usize, types: &Vec<u8>) -> (s: String)
    ensures
        s@ == unit_text(len as nat, types@),
{
    let mut s = String::new();
    push_decimal(&mut s, len as u64);
    s.append(" bytes, NAL types [");
    let ghost head = decimal(len as nat) + " bytes, NAL types ["@;
    assert(s@ =~= head + listed(types@.take(0)));
    for i in 0..types.len()
        invariant
            s@ == head + listed(types@.take(i as int)),
    {
        assert(types@.take(i + 1).drop_last() =~= types@.take(i as int));
        if i > 0 {
            s.append(", ");
        }
        push_decimal(&mut s, types[i] as u64);
        assert(s@ =~= head + listed(types@.take(i + 1)));
    }
    assert(types@.take(types@.len() as int) =~= types@);
    s.append("]");
    assert(s@ =~= unit_text(len as nat, types@));
    s
}

/// An access unit as a log line sees it: its length and the type of each NAL unit in it,
/// by Annex B start code.
pub fn describe(bitstream: &[u8]) -> (s: String)
    ensures
        s@ == unit_text(bitstream@.len(), nal_types_spec(nal_units_in(bitstream@))),
{
    let units = nal_units(bitstream);
    unit_in_words(bitstream.len(), &nal_types(&units))
}

/// An H.264 decoder.
#[verifier::external_type_specification]
#[verifier::external_body]
pub struct ExDecoder(openh264::decoder::Decoder);

/// The error of the H.264 decoder.
#[verifier::external_type_specification]
#[verifier::external_body]
pub struct ExDecoderError(DecoderError);

/// The access units a decoder was given, in the order they came.
pub uninterp spec fn units_given(decoder: Decoder) -> Seq<Seq<u8>>;

/// `Decoder::with_api_config` on the built-in OpenH264, to flush after every unit: a decoder
/// that was given nothing yet. Whether one can be made is the machine's to say.
///
/// Every access unit is decoded as it arrives and its picture taken at once. OpenH264
/// holds a decoded picture back for reordering: a Windows host's Main-profile stream has
/// its first unit come out as no picture and every later one as the picture before it, so
/// each decode flushes the picture its unit made. A screen stream has nothing to reorder.
#[verifier::external_body]
fn new_decoder() -> (res: Result<Decoder, DecoderError>)
    ensures
        res matches Ok(decoder) ==> units_given(decoder) == Seq::<Seq<u8>>::empty(),
{
    let config = DecoderConfig::new().flush_after_decode(Flush::Flush);
    Decoder::with_api_config(OpenH264API::from_source(), config)
}

/// A decoded picture, taken out of the decoder's own buffers.
pub struct Decoded {
    pub width: usize,
    pub height: usize,
    pub y: Vec<u8>,
    pub y_stride: usize,
    pub u: Vec<u8>,
    pub u_stride: usize,
    pub v: Vec<u8>,
    pub v_stride: usize,
}

/// The words of a decoder's error: what the `Display` of `openh264::Error` writes.
pub uninterp spec fn decoder_words_of(error: DecoderError) -> Seq<char>;

/// The `Display` of `openh264::Error`: its own words, which are the error's alone.
#[verifier::external_body]
fn decoder_words(error: &DecoderError) -> (text: String)
    ensures
        text@ == decoder_words_of(*error),
{
    error.to_string()
}

/// Whether `Decoder::decode` may answer this to an access unit, of a decoder that was given
/// these units before: a picture, no picture, or a refusal. A decoder that cannot get the
/// memory for a picture refuses it, so there may be several.
pub uninterp spec fn may_decode_to(
    given: Seq<Seq<u8>>,
    unit: Seq<u8>,
    answer: Result<Option<PictureView>, DecoderError>,
) -> bool;

/// The decoder's answer as plain values.
pub open spec fn answer_view(answer: Result<Option<Decoded>, DecoderError>) -> Result<
    Option<PictureView>,
    DecoderError,
> {
    match answer {
        Ok(Some(decoded)) => Ok(Some(decoded@)),
        Ok(None) => Ok(None),
        Err(e) => Err(e),
    }
}

/// `Decoder::decode` on one access unit, with the planes of the picture copied out of its
/// buffers: the unit is one more that the decoder was given, whatever it answers, and the
/// answer is one to it after those before. Which of the possible answers it gives, and that a picture's planes are as large
/// as its size asks for, is left unsaid: the answer is examined before it is used. The
/// interface takes the length as 32 signed bits.
#[verifier::external_body]
fn decode_unit(decoder: &mut Decoder, bitstream: &[u8]) -> (res: Result<Option<Decoded>, DecoderError>)
    requires
        bitstream@.len() <= i32::MAX,
    ensures
        units_given(*final(decoder)) == units_given(*old(decoder)).push(bitstream@),
        may_decode_to(units_given(*old(decoder)), bitstream@, answer_view(res)),
{
    Ok(decoder.decode(bitstream)?.map(|picture| {
        let (width, height) = picture.dimensions();
        let (y_stride, u_stride, v_stride) = picture.strides();
        let (y, u, v) = (picture.y().to_vec(), picture.u().to_vec(), picture.v().to_vec());
        Decoded { width, height, y, y_stride, u, u_stride, v, v_stride }
    }))
}

impl View for Decoded {
    type V = PictureView;

    open spec fn view(&self) -> PictureView {
        PictureView {
            width: self.width,
            height: self.height,
            y: self.y@,
            y_stride: self.y_stride,
            u: self.u@,
            u_stride: self.u_stride,
            v: self.v@,
            v_stride: self.v_stride,
        }
    }
}

impl Decoded {
    /// The picture whose planes these are.
    pub fn picture(&self) -> (picture: Picture<'_>)
        ensures
            picture@ == self@,
    {
        Picture {
            width: self.width,
            height: self.height,
            y: self.y.as_slice(),
            y_stride: self.y_stride,
            u: self.u.as_slice(),
            u_stride: self.u_stride,
            v: self.v.as_slice(),
            v_stride: self.v_stride,
        }
    }
}

/// An access unit as its faults name it.
pub open spec fn described(unit: Seq<u8>) -> Seq<char> {
    unit_text(unit.len(), nal_types_spec(nal_units_in(unit)))
}

/// An answer of the decoder's to an access unit is a fault, and this is the fault.
pub open spec fn is_fault(
    answer: Result<Option<PictureView>, DecoderError>,
    unit: Seq<u8>,
    e: AvcError,
) -> bool {
    match answer {
        Err(error) => e matches AvcError::Refused { unit: said, cause } && said@ == described(unit)
            && cause@ == decoder_words_of(error),
        Ok(None) => e matches AvcError::NoPicture { unit: said } && said@ == described(unit),
        Ok(Some(p)) => !p.wf() && e == (AvcError::Torn { width: p.width, height: p.height }),
    }
}

/// Why a unit too long for the decoder's interface is refused.
pub const TOO_LONG: &'static str = "its length does not fit the decoder";

/// An access unit may come to this fault after the units given before: a unit too long for
/// the decoder's interface is refused, and of any other the fault is that of an answer the
/// decoder may give.
pub open spec fn may_fail(given: Seq<Seq<u8>>, unit: Seq<u8>, e: AvcError) -> bool {
    if unit.len() > i32::MAX {
        e matches AvcError::Refused { unit: said, cause } && said@ == described(unit) && cause@
            == TOO_LONG@
    } else {
        exists|answer: Result<Option<PictureView>, DecoderError>| #[trigger]
            may_decode_to(given, unit, answer) && is_fault(answer, unit, e)
    }
}

/// The units a decoder was given once it has been handed another: one too long for its
/// interface does not reach it.
pub open spec fn given_next(given: Seq<Seq<u8>>, unit: Seq<u8>) -> Seq<Seq<u8>> {
    if unit.len() > i32::MAX { given } else { given.push(unit) }
}

/// What the decoder's answer to an access unit amounts to. No picture is a fault: a screen
/// stream's every access unit carries a slice, and a decoder that returns nothing for one
/// has dropped it. The fault names the unit's NAL types, which is what tells a unit the
/// decoder refused from one that carried no slice.
pub fn picture_of(answer: Result<Option<Decoded>, DecoderError>, bitstream: &[u8]) -> (res: Result<
    Decoded,
    AvcError,
>)
    ensures
        match res {
            Ok(decoded) => answer == Ok::<Option<Decoded>, DecoderError>(Some(decoded)) && decoded@.wf(),
            Err(e) => is_fault(answer_view(answer), bitstream@, e),
        },
{
    match answer {
        Err(error) => Err(AvcError::Refused { unit: describe(bitstream), cause: decoder_words(&error) }),
        Ok(None) => Err(AvcError::NoPicture { unit: describe(bitstream) }),
        Ok(Some(decoded)) => {
            if decoded.picture().is_whole() {
                Ok(decoded)
            } else {
                Err(AvcError::Torn { width: decoded.width, height: decoded.height })
            }
        },
    }
}

/// One access unit in, one picture out.
fn decode(decoder: &mut Decoder, bitstream: &[u8]) -> (res: Result<Decoded, AvcError>)
    ensures
        match res {
            Ok(decoded) => decoded@.wf() && decoded@.may_come_of(units_given(*old(decoder)), bitstream@),
            Err(e) => may_fail(units_given(*old(decoder)), bitstream@, e),
        },
        units_given(*final(decoder)) == given_next(units_given(*old(decoder)), bitstream@),
{
    if bitstream.len() > i32::MAX as usize {
        let mut cause = String::new();
        cause.append(TOO_LONG);
        assert(cause@ =~= TOO_LONG@);
        return Err(AvcError::Refused { unit: describe(bitstream), cause });
    }
    let answer = decode_unit(decoder, bitstream);
    picture_of(answer, bitstream)
}

/// Where a surface's decoder stands: the units it was given, the luma view kept, and the
/// paints there are.
pub struct Drawn {
    pub given: Seq<Seq<u8>>,
    pub kept: Option<PlanesView>,
    pub paints: Seq<Paint>,
}

/// One surface's H.264 decoder, and the last luma view it showed.
pub struct Avc {
    decoder: Decoder,
    luma: Option<Planes>,
}

impl Avc {
    /// The luma view kept, if any was shown.
    pub closed spec fn kept(self) -> Option<PlanesView> {
        match self.luma {
            Some(planes) => Some(planes@),
            None => None,
        }
    }

    /// The access units its decoder was given, in the order they came.
    pub closed spec fn given(self) -> Seq<Seq<u8>> {
        units_given(self.decoder)
    }

    /// Where it stands, with these the paints there are.
    pub open spec fn drawn(self, paints: Seq<Paint>) -> Drawn {
        Drawn { given: self.given(), kept: self.kept(), paints }
    }

    pub open spec fn wf(self) -> bool {
        self.kept() matches Some(planes) ==> planes.wf()
    }

    /// A decoder that has shown nothing yet.
    pub fn new() -> (res: Result<Avc, AvcError>)
        ensures
            match res {
                Ok(avc) => avc.given() == Seq::<Seq<u8>>::empty() && avc.kept() is None && avc.wf(),
                Err(e) => e matches AvcError::NoDecoder { cause } && exists|error: DecoderError|
                    cause@ == #[trigger] decoder_words_of(error),
            },
    {
        match new_decoder() {
            Ok(decoder) => Ok(Avc { decoder, luma: None }),
            Err(error) => Err(AvcError::NoDecoder { cause: decoder_words(&error) }),
        }
    }

    /// An AVC420 stream: decode its access unit and paint its rectangles.
    ///
    /// An error is the whole stream's, its rectangles are not painted, and the decoder
    /// keeps whatever state the access unit left it in, as any H.264 decoder does until
    /// the next keyframe.
    pub fn draw_420(&mut self, stream: &Avc420<'_>, surface: (u32, u32), paints: &mut Vec<Paint>) -> (res: Result<
        (),
        AvcError,
    >)
        requires
            old(self).wf(),
        ensures
            final(self).wf(),
            final(self).kept() == old(self).kept(),
            final(self).given() == given_next(old(self).given(), stream.bitstream@),
            match res {
                Ok(_) => exists|p: PictureView|
                    p.wf() && p.may_come_of(old(self).given(), stream.bitstream@) && painted(
                        old(paints)@,
                        final(paints)@,
                        shown(stream.regions@, surface, p.size()),
                        #[trigger] showing_420(p),
                    ),
                Err(e) => final(paints)@ == old(paints)@ && may_fail(old(self).given(), stream.bitstream@, e),
            },
    {
        let decoded = match decode(&mut self.decoder, stream.bitstream) {
            Ok(decoded) => decoded,
            Err(e) => return Err(e),
        };
        let picture = decoded.picture();
        show_420(&picture, &stream.regions, surface, paints);
        assert(painted(
            old(paints)@,
            paints@,
            shown(stream.regions@, surface, picture@.size()),
            showing_420(picture@),
        ));
        Ok(())
    }

    /// An AVC444 or AVC444v2 stream: decode whichever views it carries, through the one
    /// decoder in the order they arrive, and paint their rectangles: a luma view's at half
    /// chroma, as MS-RDPEGFX 3.3.8.3.2 has it, unless a chroma view for the same
    /// rectangles is in the same stream and paints them whole.
    pub fn draw_444(
        &mut self,
        stream: &Avc444<'_>,
        layout: Layout,
        surface: (u32, u32),
        paints: &mut Vec<Paint>,
    ) -> (res: Result<(), AvcError>)
        requires
            old(self).wf(),
        ensures
            final(self).wf(),
            match (stream.luma, stream.chroma) {
                (None, None) => res == Ok::<(), AvcError>(()) && final(self).drawn(final(paints)@)
                    == old(self).drawn(old(paints)@),
                (Some(luma), None) => Avc::took_luma(
                    res,
                    old(self).drawn(old(paints)@),
                    final(self).drawn(final(paints)@),
                    luma@,
                    false,
                    surface,
                ),
                (None, Some(chroma)) => Avc::took_chroma(
                    res,
                    old(self).drawn(old(paints)@),
                    final(self).drawn(final(paints)@),
                    chroma@,
                    layout,
                    surface,
                ),
                (Some(luma), Some(chroma)) => exists|between: Drawn| #[trigger]
                    Avc::took_both(
                        res,
                        old(self).drawn(old(paints)@),
                        between,
                        final(self).drawn(final(paints)@),
                        luma@,
                        chroma@,
                        layout,
                        surface,
                    ),
            },
    {
        let ghost before = self.drawn(paints@);
        if let Some(luma) = &stream.luma {
            let painted_whole = match &stream.chroma {
                Some(chroma) => same_mask(&chroma.regions, &luma.regions),
                None => false,
            };
            let drawn = self.draw_luma(luma, painted_whole, surface, paints);
            if drawn.is_err() {
                proof {
                    let after = self.drawn(paints@);
                    if let Some(chroma) = &stream.chroma {
                        assert(Avc::took_both(drawn, before, after, after, luma@, chroma@, layout, surface));
                    }
                }
                return drawn;
            }
        }
        let ghost between = self.drawn(paints@);
        if let Some(chroma) = &stream.chroma {
            let drawn = self.draw_chroma(chroma, layout, surface, paints);
            proof {
                let after = self.drawn(paints@);
                if let Some(luma) = &stream.luma {
                    assert(Avc::took_both(drawn, before, between, after, luma@, chroma@, layout, surface));
                }
            }
            return drawn;
        }
        Ok(())
    }

    /// What a luma view does to what is kept and to the paints, for some picture that it
    /// decoded to after the units given before; nothing, where it came to a fault. Either
    /// way the decoder was given it.
    pub open spec fn took_luma(
        res: Result<(), AvcError>,
        before: Drawn,
        after: Drawn,
        luma: Avc420View,
        whole: bool,
        surface: (u32, u32),
    ) -> bool {
        &&& after.given == given_next(before.given, luma.bitstream)
        &&& match res {
            Ok(_) => exists|p: PictureView|
                {
                    let areas = shown(luma.regions, surface, p.size());
                    let kept = match before.kept {
                        Some(kept) => kept,
                        None => PlanesView::black(0, 0),
                    };
                    &&& p.wf() && p.may_come_of(before.given, luma.bitstream)
                    &&& after.kept == Some(kept_all(kept.fitted(p.width, p.height), p, areas))
                    &&& painted(
                        before.paints,
                        after.paints,
                        if whole { seq![] } else { areas },
                        #[trigger] showing_420(p),
                    )
                },
            Err(e) => {
                &&& after.kept == before.kept && after.paints == before.paints
                &&& may_fail(before.given, luma.bitstream, e)
            },
        }
    }

    /// Why a chroma view is not shown: there is no luma view to combine it with, it came to
    /// a fault, or it decoded to a picture that is not of the luma view's size, or not of
    /// whole macroblocks.
    pub open spec fn refused_chroma(before: Drawn, unit: Seq<u8>, e: AvcError) -> bool {
        match before.kept {
            None => e == AvcError::ChromaFirst,
            Some(kept) => {
                ||| may_fail(before.given, unit, e)
                ||| exists|aux: PictureView|
                    aux.may_come_of(before.given, unit) && #[trigger] Avc::mismatched(kept, aux, e)
            },
        }
    }

    /// A picture does not go with the luma view kept, and this is why.
    pub open spec fn mismatched(kept: PlanesView, aux: PictureView, e: AvcError) -> bool {
        &&& aux.wf()
        &&& if kept.picture().size() != aux.size() {
            e == (AvcError::Apart { chroma: aux.size(), luma: kept.picture().size() })
        } else {
            &&& aux.width % 16 != 0 || aux.height % 16 != 0
            &&& e == (AvcError::Ragged { width: aux.width, height: aux.height })
        }
    }

    /// What a chroma view does to the paints, for some picture that it decoded to after the
    /// units given before: it is combined with the luma view kept, which is of its size in
    /// whole macroblocks. Where none is kept, the decoder is not given it.
    pub open spec fn took_chroma(
        res: Result<(), AvcError>,
        before: Drawn,
        after: Drawn,
        chroma: Avc420View,
        layout: Layout,
        surface: (u32, u32),
    ) -> bool {
        &&& after.kept == before.kept
        &&& after.given == (if before.kept is Some {
            given_next(before.given, chroma.bitstream)
        } else {
            before.given
        })
        &&& match res {
            Ok(_) => exists|aux: PictureView|
                {
                    &&& aux.wf() && aux.may_come_of(before.given, chroma.bitstream)
                    &&& before.kept is Some && before.kept->0.picture().size() == aux.size()
                    &&& aux.width % 16 == 0 && aux.height % 16 == 0
                    &&& painted(
                        before.paints,
                        after.paints,
                        shown(chroma.regions, surface, aux.size()),
                        #[trigger] showing_444(before.kept->0.picture(), aux, layout),
                    )
                },
            Err(e) => after.paints == before.paints && Avc::refused_chroma(before, chroma.bitstream, e),
        }
    }

    /// What a luma view and then a chroma view do, with `between` how things stand after the
    /// first: where the luma view came to a fault, the chroma view is not looked at.
    pub open spec fn took_both(
        res: Result<(), AvcError>,
        before: Drawn,
        between: Drawn,
        after: Drawn,
        luma: Avc420View,
        chroma: Avc420View,
        layout: Layout,
        surface: (u32, u32),
    ) -> bool {
        let whole = same_rects(chroma.regions, luma.regions);
        ||| res is Err && Avc::took_luma(res, before, after, luma, whole, surface)
        ||| {
            &&& Avc::took_luma(Ok(()), before, between, luma, whole, surface)
            &&& Avc::took_chroma(res, between, after, chroma, layout, surface)
        }
    }

    fn draw_luma(
        &mut self,
        luma: &Avc420<'_>,
        painted_whole: bool,
        surface: (u32, u32),
        paints: &mut Vec<Paint>,
    ) -> (res: Result<(), AvcError>)
        requires
            old(self).wf(),
        ensures
            final(self).wf(),
            res is Ok ==> final(self).kept() is Some,
            Avc::took_luma(
                res,
                old(self).drawn(old(paints)@),
                final(self).drawn(final(paints)@),
                luma@,
                painted_whole,
                surface,
            ),
    {
        let decoded = match decode(&mut self.decoder, luma.bitstream) {
            Ok(decoded) => decoded,
            Err(e) => return Err(e),
        };
        let picture = decoded.picture();
        let mut kept = match self.luma.take() {
            Some(kept) => kept,
            None => Planes::empty(),
        };
        show_luma(&mut kept, &picture, &luma.regions, painted_whole, surface, paints);
        self.luma = Some(kept);
        assert(painted(
            old(paints)@,
            paints@,
            if painted_whole { seq![] } else { shown(luma.regions@, surface, picture@.size()) },
            showing_420(picture@),
        ));
        Ok(())
    }

    fn draw_chroma(
        &mut self,
        chroma: &Avc420<'_>,
        layout: Layout,
        surface: (u32, u32),
        paints: &mut Vec<Paint>,
    ) -> (res: Result<(), AvcError>)
        requires
            old(self).wf(),
        ensures
            final(self).wf(),
            Avc::took_chroma(
                res,
                old(self).drawn(old(paints)@),
                final(self).drawn(final(paints)@),
                chroma@,
                layout,
                surface,
            ),
    {
        match &self.luma {
            None => Err(AvcError::ChromaFirst),
            Some(kept) => {
                let decoded = match decode(&mut self.decoder, chroma.bitstream) {
                    Ok(decoded) => decoded,
                    Err(e) => return Err(e),
                };
                let aux = decoded.picture();
                let drawn = show_chroma(kept, &aux, layout, &chroma.regions, surface, paints);
                proof {
                    if drawn is Ok {
                        assert(painted(
                            old(paints)@,
                            paints@,
                            shown(chroma.regions@, surface, aux@.size()),
                            showing_444(kept@.picture(), aux@, layout),
                        ));
                    } else {
                        assert(Avc::mismatched(kept@, aux@, drawn->Err_0));
                    }
                }
                drawn
            },
        }
    }
}

/// Where a sample of the chroma view's luma plane comes from: U (`false`) or V (`true`),
/// and the column and row of the picture.
#[verifier::opaque]
pub open spec fn packed_in_y(layout: Layout, width: int, x: int, y: int) -> (bool, int, int) {
    match layout {
        Layout::V1 => if y % 16 < 8 {
            (false, x, y / 16 * 16 + 2 * (y % 16) + 1)
        } else {
            (true, x, y / 16 * 16 + 2 * (y % 16 - 8) + 1)
        },
        Layout::V2 => if x < width / 2 {
            (false, 2 * x + 1, y)
        } else {
            (true, 2 * (x - width / 2) + 1, y)
        },
    }
}

/// Where a sample of the chroma view's U plane comes from.
#[verifier::opaque]
pub open spec fn packed_in_u(layout: Layout, width: int, x: int, y: int) -> (bool, int, int) {
    match layout {
        Layout::V1 => (false, 2 * x + 1, 2 * y),
        Layout::V2 => if x < width / 4 {
            (false, 4 * x, 2 * y + 1)
        } else {
            (true, 4 * (x - width / 4), 2 * y + 1)
        },
    }
}

/// Where a sample of the chroma view's V plane comes from.
#[verifier::opaque]
pub open spec fn packed_in_v(layout: Layout, width: int, x: int, y: int) -> (bool, int, int) {
    match layout {
        Layout::V1 => (true, 2 * x + 1, 2 * y),
        Layout::V2 => if x < width / 4 {
            (false, 4 * x + 2, 2 * y + 1)
        } else {
            (true, 4 * (x - width / 4) + 2, 2 * y + 1)
        },
    }
}

/// The sample a place names, of a picture with these U and V planes.
pub open spec fn sample(u: spec_fn(int, int) -> u8, v: spec_fn(int, int) -> u8, place: (bool, int, int)) -> u8 {
    if place.0 { v(place.1, place.2) } else { u(place.1, place.2) }
}

/// `aux` is the chroma view of a picture with these U and V planes, packed as MS-RDPEGFX
/// 3.3.8.3.2 and 3.3.8.3.3 have a host pack it.
pub open spec fn is_chroma_view(
    aux: PictureView,
    layout: Layout,
    u: spec_fn(int, int) -> u8,
    v: spec_fn(int, int) -> u8,
) -> bool {
    let (w, h) = (aux.width as int, aux.height as int);
    &&& forall|x: int, y: int|
        0 <= x < w && 0 <= y < h ==> #[trigger] aux.y_of(x, y) == sample(u, v, packed_in_y(layout, w, x, y))
    &&& forall|x: int, y: int|
        0 <= x < w / 2 && 0 <= y < h / 2 ==> #[trigger] aux.u_of(x, y) == sample(
            u,
            v,
            packed_in_u(layout, w, x, y),
        )
    &&& forall|x: int, y: int|
        0 <= x < w / 2 && 0 <= y < h / 2 ==> #[trigger] aux.v_of(x, y) == sample(
            u,
            v,
            packed_in_v(layout, w, x, y),
        )
}

/// Every chroma sample but the even rows' even columns comes back out of the chroma view
/// as the host packed it, under either layout.
#[verifier::rlimit(60)]
pub proof fn carried_samples_come_back(
    aux: PictureView,
    layout: Layout,
    u: spec_fn(int, int) -> u8,
    v: spec_fn(int, int) -> u8,
    x: int,
    y: int,
)
    requires
        is_chroma_view(aux, layout, u, v),
        aux.width % 16 == 0,
        aux.height % 16 == 0,
        0 <= x < aux.width,
        0 <= y < aux.height,
        x % 2 == 1 || y % 2 == 1,
    ensures
        carried(aux, layout, x, y) == (u(x, y), v(x, y)),
{
    let w = aux.width as int;
    places_of(layout, w, x, y);
    places_are_inside(w, aux.height as int, x, y);
    match layout {
        Layout::V1 => if y % 2 == 1 {
            let r = y / 16 * 16 + y % 16 / 2;
            assert(0 <= r && r + 8 < aux.height);
            assert(aux.y_of(x, r) == sample(u, v, packed_in_y(layout, w, x, r)));
            assert(aux.y_of(x, r + 8) == sample(u, v, packed_in_y(layout, w, x, r + 8)));
        } else {
            assert(aux.u_of(x / 2, y / 2) == sample(u, v, packed_in_u(layout, w, x / 2, y / 2)));
            assert(aux.v_of(x / 2, y / 2) == sample(u, v, packed_in_v(layout, w, x / 2, y / 2)));
        },
        Layout::V2 => if x % 2 == 1 {
            assert(aux.y_of(x / 2, y) == sample(u, v, packed_in_y(layout, w, x / 2, y)));
            assert(aux.y_of(w / 2 + x / 2, y) == sample(u, v, packed_in_y(layout, w, w / 2 + x / 2, y)));
        } else if x % 4 == 0 {
            let (column, r) = (x / 4, y / 2);
            assert(aux.u_of(column, r) == sample(u, v, packed_in_u(layout, w, column, r)));
            assert(aux.u_of(w / 4 + column, r) == sample(u, v, packed_in_u(layout, w, w / 4 + column, r)));
        } else {
            let (column, r) = (x / 4, y / 2);
            assert(aux.v_of(column, r) == sample(u, v, packed_in_v(layout, w, column, r)));
            assert(aux.v_of(w / 4 + column, r) == sample(u, v, packed_in_v(layout, w, w / 4 + column, r)));
        },
    }
}

/// The places a sample's U and V are read from are the places they were packed in.
proof fn places_of(layout: Layout, w: int, x: int, y: int)
    requires
        w % 16 == 0,
        0 <= x < w,
        0 <= y,
        x % 2 == 1 || y % 2 == 1,
    ensures
        match layout {
            Layout::V1 => if y % 2 == 1 {
                let r = y / 16 * 16 + y % 16 / 2;
                &&& packed_in_y(layout, w, x, r) == (false, x, y)
                &&& packed_in_y(layout, w, x, r + 8) == (true, x, y)
            } else {
                &&& packed_in_u(layout, w, x / 2, y / 2) == (false, x, y)
                &&& packed_in_v(layout, w, x / 2, y / 2) == (true, x, y)
            },
            Layout::V2 => if x % 2 == 1 {
                &&& packed_in_y(layout, w, x / 2, y) == (false, x, y)
                &&& packed_in_y(layout, w, w / 2 + x / 2, y) == (true, x, y)
            } else if x % 4 == 0 {
                &&& packed_in_u(layout, w, x / 4, y / 2) == (false, x, y)
                &&& packed_in_u(layout, w, w / 4 + x / 4, y / 2) == (true, x, y)
            } else {
                &&& packed_in_v(layout, w, x / 4, y / 2) == (false, x, y)
                &&& packed_in_v(layout, w, w / 4 + x / 4, y / 2) == (true, x, y)
            },
        },
{
    reveal(packed_in_y);
    reveal(packed_in_u);
    reveal(packed_in_v);
    let r = y / 16 * 16 + y % 16 / 2;
    assert(r / 16 == y / 16 && r % 16 == y % 16 / 2);
    assert((r + 8) / 16 == y / 16 && (r + 8) % 16 == y % 16 / 2 + 8);
}

/// Where the average of a 2x2 is exact, the sample it was averaged from comes back, or the
/// average does where the two are no further apart than the cutoff.
pub proof fn an_averaged_sample_comes_back(corner: u8, right: u8, below: u8, diagonal: u8)
    requires
        (corner + right + below + diagonal) % 4 == 0,
    ensures
        ({
            let average = ((corner + right + below + diagonal) / 4) as u8;
            let sample = unfilter_spec(average, right, below, diagonal);
            if -FILTER_CUTOFF <= average - corner <= FILTER_CUTOFF {
                sample == average
            } else {
                sample == corner
            }
        }),
{
}

/// A rectangle that is kept changes nothing outside it: what an earlier luma view left
/// there is still there for a later chroma view.
pub proof fn keeping_a_rectangle_leaves_the_rest(kept: PlanesView, from: PictureView, area: Area, x: int, y: int)
    requires
        kept.wf(),
        0 <= x < kept.width,
        0 <= y < kept.height,
    ensures
        kept.keeping(from, area).y[y * kept.width + x] == if area.left <= x < area.right && area.top <= y
            < area.bottom {
            from.y_of(x, y)
        } else {
            kept.y[y * kept.width + x]
        },
{
    reveal(PictureView::y_of);
    sample_is_inside(kept.width as int, kept.width as int, kept.height as int, x, y);
    lemma_fundamental_div_mod_converse(y * kept.width + x, kept.width as int, y, x);
}

/// The chroma a luma view carries is the average of each two by two of these U and V planes,
/// where that is a whole number.
pub open spec fn is_averaged(main: PictureView, u: spec_fn(int, int) -> u8, v: spec_fn(int, int) -> u8) -> bool {
    forall|x: int, y: int|
        #![trigger main.u_of(x, y)]
        #![trigger main.v_of(x, y)]
        0 <= x < main.width as int / 2 && 0 <= y < main.height as int / 2 ==> {
            &&& 4 * main.u_of(x, y) == u(2 * x, 2 * y) + u(2 * x + 1, 2 * y) + u(2 * x, 2 * y + 1) + u(
                2 * x + 1,
                2 * y + 1,
            )
            &&& 4 * main.v_of(x, y) == v(2 * x, 2 * y) + v(2 * x + 1, 2 * y) + v(2 * x, 2 * y + 1) + v(
                2 * x + 1,
                2 * y + 1,
            )
        }
}

/// A sample that was averaged away is itself again, or the average where it is no more than
/// 30 from it.
pub open spec fn is_recovered(sample: u8, average: u8, was: u8) -> bool {
    if -30 <= average - was <= 30 { sample == average } else { sample == was }
}

/// The two views a host makes of a picture give its chroma back: every sample on an odd
/// column or an odd row as it was, and every other recovered from its average, or the
/// average where the block ends beside it.
pub proof fn the_hosts_chroma_comes_back(
    main: PictureView,
    aux: PictureView,
    layout: Layout,
    block: Area,
    u: spec_fn(int, int) -> u8,
    v: spec_fn(int, int) -> u8,
    x: int,
    y: int,
)
    requires
        can_combine(main, aux, block),
        is_chroma_view(aux, layout, u, v),
        is_averaged(main, u, v),
        block.left <= x < block.right,
        block.top <= y < block.bottom,
    ensures
        ({
            let n = ((block.right - block.left) * (block.bottom - block.top)) as nat;
            let at = (y - block.top) * (block.right - block.left) + x - block.left;
            let both = combined(main, aux, layout, block, n);
            let (gu, gv) = (firsts(both)[at], seconds(both)[at]);
            &&& firsts(both).len() == n && seconds(both).len() == n && 0 <= at < n
            &&& if x % 2 == 1 || y % 2 == 1 {
                gu == u(x, y) && gv == v(x, y)
            } else if x + 1 < block.right && y + 1 < block.bottom {
                is_recovered(gu, main.u_of(x / 2, y / 2), u(x, y)) && is_recovered(
                    gv,
                    main.v_of(x / 2, y / 2),
                    v(x, y),
                )
            } else {
                gu == main.u_of(x / 2, y / 2) && gv == main.v_of(x / 2, y / 2)
            }
        }),
{
    let (w, h) = (block.right - block.left, block.bottom - block.top);
    let at = (y - block.top) * w + x - block.left;
    sample_is_inside(w, w, h, x - block.left, y - block.top);
    lemma_fundamental_div_mod_converse(at, w, y - block.top, x - block.left);
    assert(w * h == h * w) by (nonlinear_arith);
    if x % 2 == 1 || y % 2 == 1 {
        carried_samples_come_back(aux, layout, u, v, x, y);
    } else if x + 1 < block.right && y + 1 < block.bottom {
        carried_samples_come_back(aux, layout, u, v, x + 1, y);
        carried_samples_come_back(aux, layout, u, v, x, y + 1);
        carried_samples_come_back(aux, layout, u, v, x + 1, y + 1);
        let (cx, cy) = (x / 2, y / 2);
        assert(2 * cx == x && 2 * cy == y);
        assert(0 <= cx < main.width as int / 2 && 0 <= cy < main.height as int / 2);
        assert(4 * main.u_of(cx, cy) == u(x, y) + u(x + 1, y) + u(x, y + 1) + u(x + 1, y + 1));
        assert(4 * main.v_of(cx, cy) == v(x, y) + v(x + 1, y) + v(x, y + 1) + v(x + 1, y + 1));
    }
}

/// A recovered sample makes the average right again, unless that would be within 30 of the
/// average, which stands, or is no sample at all, where the nearest that is stands.
pub proof fn a_recovered_sample_is_the_nearest_that_averages(average: u8, right: u8, below: u8, diagonal: u8, other: u8)
    ensures
        ({
            let sample = unfilter_spec(average, right, below, diagonal);
            let off = |s: int| {
                let d = s + right + below + diagonal - 4 * average;
                if d < 0 { -d } else { d }
            };
            &&& off(average as int) <= 30 ==> sample == average
            &&& off(average as int) > 30 ==> off(sample as int) <= off(other as int)
        }),
{
}

/// What is painted of a rectangle is its pixels that are on the surface and in the picture.
pub proof fn an_area_is_what_is_on_both(rect: Rect16, surface: (u32, u32), picture: (usize, usize), x: int, y: int)
    requires
        0 <= x,
        0 <= y,
    ensures
        (Area::clip_spec(rect, surface, picture) matches Some(a) && a.left <= x < a.right && a.top <= y < a.bottom)
            <==> (rect.left <= x < rect.right && rect.top <= y < rect.bottom && x < surface.0 && y < surface.1 && x
            < picture.0 && y < picture.1),
{
}

/// An area is widened to the multiples next to it and no further, and never past the picture.
pub proof fn an_area_is_widened_no_more_than_it_must(area: Area, unit: int, picture: (usize, usize))
    requires
        unit > 0,
        unit <= 0xFFFF,
        area.inside(picture.0 as int, picture.1 as int),
    ensures
        ({
            let wide = area.aligned_spec(unit, picture);
            &&& wide.left as int % unit == 0 && wide.left <= area.left < wide.left + unit
            &&& wide.top as int % unit == 0 && wide.top <= area.top < wide.top + unit
            &&& area.right <= wide.right < area.right + unit && wide.right <= picture.0
            &&& wide.right as int % unit == 0 || wide.right == picture.0
            &&& area.bottom <= wide.bottom < area.bottom + unit && wide.bottom <= picture.1
            &&& wide.bottom as int % unit == 0 || wide.bottom == picture.1
        }),
{
    multiple_below(area.left as int, unit);
    multiple_below(area.top as int, unit);
    multiple_below(area.right as int, unit);
    multiple_below(area.bottom as int, unit);
    lemma_fundamental_div_mod(area.right as int, unit);
    lemma_fundamental_div_mod(area.bottom as int, unit);
    let (r, b) = (area.right as int / unit, area.bottom as int / unit);
    assert(unit * r + unit == (r + 1) * unit && unit * b + unit == (b + 1) * unit) by (nonlinear_arith);
    lemma_fundamental_div_mod_converse(unit * r + unit, unit, r + 1, 0);
    lemma_fundamental_div_mod_converse(unit * b + unit, unit, b + 1, 0);
}

/// A pixel painted is the block's pixel at the same place.
pub proof fn a_painted_pixel_is_the_blocks(area: Area, block: Area, rgb: Seq<u8>, x: int, y: int, k: int)
    requires
        area.within(block),
        area.right <= 0xFFFF,
        area.bottom <= 0xFFFF,
        rgb.len() == 3 * (block.right - block.left) * (block.bottom - block.top),
        3 * (block.right - block.left) <= 0xFFFF_FFFF,
        area.left <= x < area.right,
        area.top <= y < area.bottom,
        0 <= k < 3,
    ensures
        ({
            let paint = cropped(area, block, rgb);
            &&& paint.rect.left == area.left && paint.rect.right == area.right
            &&& paint.rect.top == area.top && paint.rect.bottom == area.bottom
            &&& paint.rgb[(y - area.top) * paint.stride + 3 * (x - area.left) + k] == rgb[3 * ((y - block.top) * (
            block.right - block.left) + x - block.left) + k]
        }),
{
    let (w, h) = (block.right - block.left, block.bottom - block.top);
    let stride = 3 * w;
    let (ay, ax) = (area.top - block.top, area.left - block.left);
    let (dy, dx) = (y - area.top, x - area.left);
    assert(ay * stride + dy * stride == 3 * ((ay + dy) * w) && 0 <= ay * stride && 0 <= dy * stride && (ay + dy)
        * w + w <= w * h && 3 * w * h == 3 * (w * h)) by (nonlinear_arith)
        requires
            stride == 3 * w,
            0 <= ay,
            0 <= dy,
            0 <= w,
            ay + dy < h,
    ;
    assert(crop_at(area, block) == ay * stride + 3 * ax);
}

/// A rectangle that is kept takes the chroma of every pixel in it, and changes no other.
pub proof fn keeping_a_rectangle_takes_its_chroma(kept: PlanesView, from: PictureView, area: Area, x: int, y: int)
    requires
        kept.wf(),
        0 <= x < (kept.width + 1) / 2,
        0 <= y < (kept.height + 1) / 2,
    ensures
        ({
            let after = kept.keeping(from, area);
            let at = y * ((kept.width + 1) / 2) + x;
            if area.left <= 2 * x + 1 && 2 * x < area.right && area.top <= 2 * y + 1 && 2 * y < area.bottom {
                &&& after.u[at] == from.u[y * from.u_stride + x]
                &&& after.v[at] == from.v[y * from.v_stride + x]
            } else {
                &&& after.u[at] == kept.u[at]
                &&& after.v[at] == kept.v[at]
            }
        }),
{
    let (columns, rows) = ((kept.width + 1) / 2, (kept.height + 1) / 2);
    sample_is_inside(columns, columns, rows, x, y);
    lemma_fundamental_div_mod_converse(y * columns + x, columns, y, x);
}

/// What is converted of a block is handed over from the block's corner on: its samples are
/// the picture's, two by two sharing their chroma.
pub proof fn a_conversion_starts_at_its_block(p: PictureView, block: Area, rgb: Seq<u8>, x: int, y: int) -> (planes: (
    Seq<u8>,
    Seq<u8>,
    Seq<u8>,
))
    requires
        p.wf(),
        block.inside(p.width as int, p.height as int),
        block.left % 2 == 0,
        block.top % 2 == 0,
        converted_420(p, block, rgb),
        block.left <= x < block.right,
        block.top <= y < block.bottom,
    ensures
        may_be_rgb_of_420(
            planes.0,
            p.y_stride as u32,
            planes.1,
            p.u_stride as u32,
            planes.2,
            p.v_stride as u32,
            (block.right - block.left) as u32,
            (block.bottom - block.top) as u32,
            rgb,
        ),
        planes.0[(y - block.top) * p.y_stride + x - block.left] == p.y[y * p.y_stride + x],
        planes.1[(y - block.top) / 2 * p.u_stride + (x - block.left) / 2] == p.u[y / 2 * p.u_stride + x / 2],
        planes.2[(y - block.top) / 2 * p.v_stride + (x - block.left) / 2] == p.v[y / 2 * p.v_stride + x / 2],
{
    let (left, top) = (block.left as int, block.top as int);
    let (columns, rows) = (half_up(p.width as int), half_up(p.height as int));
    lands_in_skip(p.y, p.y_stride as int, p.width as int, p.height as int, left, top, x - left, y - top);
    lands_in_skip(p.u, p.u_stride as int, columns, rows, left / 2, top / 2, (x - left) / 2, (y - top) / 2);
    lands_in_skip(p.v, p.v_stride as int, columns, rows, left / 2, top / 2, (x - left) / 2, (y - top) / 2);
    assert(left / 2 + (x - left) / 2 == x / 2 && top / 2 + (y - top) / 2 == y / 2);
    (
        p.y.skip(block.top * p.y_stride + block.left),
        p.u.skip(block.top / 2 * p.u_stride + block.left / 2),
        p.v.skip(block.top / 2 * p.v_stride + block.left / 2),
    )
}

proof fn lands_in_skip(plane: Seq<u8>, stride: int, width: int, height: int, left: int, top: int, dx: int, dy: int)
    requires
        width <= stride,
        stride * height <= plane.len(),
        0 <= left,
        0 <= top,
        0 <= dx,
        0 <= dy,
        left + dx < width,
        top + dy < height,
    ensures
        plane.skip(top * stride + left)[dy * stride + dx] == plane[(top + dy) * stride + (left + dx)],
{
    sample_is_inside(stride, width, height, left + dx, top + dy);
    assert((top + dy) * stride == top * stride + dy * stride && 0 <= top * stride && 0 <= dy * stride)
        by (nonlinear_arith)
        requires
            0 <= top,
            0 <= dy,
            0 <= stride,
    ;
}

} // verus!
