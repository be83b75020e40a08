//! Rectangles of pixels, which is all this client lets a server draw with.
//!
//! The Confirm Active claims no orders and no caches, so every change to the desktop
//! arrives as a Bitmap Update: a count, and then that many rectangles, each carrying
//! where it goes and the pixels that go there.
//!
//! # One colour depth
//!
//! The session is 32 bits per pixel. That is asked for in the GCC conference, asked
//! for again in the Confirm Active, and declared by the server in its Demand Active.
//! At 32 bits a compressed rectangle is the planar codec of [`super::planar`], and
//! there is no second codec to choose between: the interleaved run-length coding that a
//! 16-bit session would use cannot arrive.
//!
//! # Bottom up, and wider than it looks
//!
//! Two details produce a picture that is *nearly* right when they are missed, which is
//! the worst kind of wrong:
//!
//! - **The rows arrive bottom first.** Every bitmap in RDP is stored the way a Windows
//!   DIB is, last row first, and a decoder that ignores it paints the desktop upside
//!   down.
//! - **The bitmap can be wider than the rectangle it belongs in.** `width` is the
//!   decoded image; the destination rectangle is what belongs on the desktop, and a
//!   server rounds the first up past the second. The extra columns are on the right,
//!   and they are not part of the picture.
//!
//! [`Bitmap::decode`] answers both: what it writes is the destination rectangle, top
//! row first, and nothing else.
//!
//! [MS-RDPBCGR] 2.2.9.1.1.3.1.2.

use vstd::prelude::*;

use super::planar;
use super::wire::{
    bytes_next, cursor, front_faces, le16, view_steps, word_next, Cursor, Malformed, Reader, Step,
};

verus! {

/// `updateType`: `UPDATETYPE_BITMAP`. The field is there because the slow path uses
/// one PDU for every kind of update; fast-path has already said which this is, and it
/// says so again here.
pub const UPDATE_BITMAP: u16 = 0x0001;

/// `BITMAP_COMPRESSION`.
pub const COMPRESSED: u16 = 0x0001;

/// `NO_BITMAP_COMPRESSION_HDR`: the eight bytes of `bitmapComprHdr` are not there.
/// The General capability asked for that: the header says the length a second time
/// and nothing reads it.
pub const NO_COMPRESSION_HEADER: u16 = 0x0400;

/// The `bitmapComprHdr` a server sends when it was not asked to leave it out.
pub const COMPRESSION_HEADER: u16 = 8;

/// The only colour depth a rectangle may arrive in. See the module docs.
pub const DEPTH: u16 = 32;

/// The most a desktop, or everything a host has drawn off-screen, may take.
pub const MAX_DESKTOP_BYTES: usize = 0x2000_0000;

pub const UPDATE: &'static str = "an RDP Bitmap Update";
pub const DECODED: &'static str = "a decoded RDP bitmap";

/// The working space one session decodes in, kept across updates so that a desktop
/// changing thirty times a second allocates for none of it.
#[derive(Debug)]
pub struct Scratch {
    /// The colour planes of a compressed rectangle, one after another.
    planes: Vec<u8>,
    /// The bitmap as the wire lays it out: bottom row first, blue first.
    pixels: Vec<u8>,
}

impl Scratch {
    /// Nothing has been decoded in it.
    pub closed spec fn is_clear(self) -> bool {
        self.planes@.len() == 0 && self.pixels@.len() == 0
    }

    pub fn new() -> (s: Scratch)
        ensures
            s.is_clear(),
    {
        Scratch { planes: Vec::new(), pixels: Vec::new() }
    }
}

/// One rectangle of the desktop, as it arrived.
#[derive(Clone, Copy, Debug, PartialEq, Eq)]
pub struct Bitmap<'a> {
    /// Where the rectangle's top left goes, in desktop pixels.
    pub x: u16,
    pub y: u16,
    /// The size of the destination rectangle: what belongs on the desktop, and what
    /// [`Bitmap::decode`] writes.
    pub paint_width: u16,
    pub paint_height: u16,
    /// The size of the bitmap itself: the shape its pixels decode to, which is never
    /// smaller than the rectangle above.
    pub width: u16,
    pub height: u16,
    pub compressed: bool,
    pub data: &'a [u8],
}

/// A [`Bitmap`], its data by its contents.
pub struct BitmapView {
    pub x: u16,
    pub y: u16,
    pub paint_width: u16,
    pub paint_height: u16,
    pub width: u16,
    pub height: u16,
    pub compressed: bool,
    pub data: Seq<u8>,
}

impl BitmapView {
    /// The rectangle is no larger than the bitmap in it.
    pub open spec fn wf(self) -> bool {
        self.paint_width <= self.width && self.paint_height <= self.height
    }

    /// How many bytes the destination rectangle has.
    pub open spec fn painted(self) -> int {
        self.paint_width * self.paint_height * 4
    }
}

impl<'a> View for Bitmap<'a> {
    type V = BitmapView;

    open spec fn view(&self) -> BitmapView {
        BitmapView {
            x: self.x,
            y: self.y,
            paint_width: self.paint_width,
            paint_height: self.paint_height,
            width: self.width,
            height: self.height,
            compressed: self.compressed,
            data: self.data@,
        }
    }
}

/// The fields a rectangle opens with.
pub struct Fields {
    pub x: u16,
    pub y: u16,
    /// The far edges are inclusive: a one-pixel rectangle has its right edge equal to
    /// its left one.
    pub right: u16,
    pub bottom: u16,
    pub width: u16,
    pub height: u16,
    pub depth: u16,
    pub flags: u16,
    pub length: u16,
}

pub open spec fn fields_step(c: Cursor) -> Step<Fields> {
    match c.u16_le() {
        Step::Stop(e) => Step::Stop(e),
        Step::Got(x, c) => match c.u16_le() {
            Step::Stop(e) => Step::Stop(e),
            Step::Got(y, c) => match c.u16_le() {
                Step::Stop(e) => Step::Stop(e),
                Step::Got(right, c) => match c.u16_le() {
                    Step::Stop(e) => Step::Stop(e),
                    Step::Got(bottom, c) => match c.u16_le() {
                        Step::Stop(e) => Step::Stop(e),
                        Step::Got(width, c) => match c.u16_le() {
                            Step::Stop(e) => Step::Stop(e),
                            Step::Got(height, c) => match c.u16_le() {
                                Step::Stop(e) => Step::Stop(e),
                                Step::Got(depth, c) => match c.u16_le() {
                                    Step::Stop(e) => Step::Stop(e),
                                    Step::Got(flags, c) => match c.u16_le() {
                                        Step::Stop(e) => Step::Stop(e),
                                        Step::Got(length, c) => Step::Got(
                                            Fields {
                                                x,
                                                y,
                                                right,
                                                bottom,
                                                width,
                                                height,
                                                depth,
                                                flags,
                                                length,
                                            },
                                            c,
                                        ),
                                    },
                                },
                            },
                        },
                    },
                },
            },
        },
    }
}

fn fields(r: &mut Reader<'_>) -> (res: Result<Fields, Malformed>)
    ensures
        match res {
            Ok(f) => fields_step(old(r)@) == Step::Got(f, final(r)@),
            Err(e) => fields_step(old(r)@) == Step::<Fields>::Stop(e),
        },
        final(r)@.within(),
{
    let x = r.u16_le()?;
    let y = r.u16_le()?;
    let right = r.u16_le()?;
    let bottom = r.u16_le()?;
    let width = r.u16_le()?;
    let height = r.u16_le()?;
    let depth = r.u16_le()?;
    let flags = r.u16_le()?;
    let length = r.u16_le()?;
    Ok(Fields { x, y, right, bottom, width, height, depth, flags, length })
}

/// The pixels of a rectangle, past the compression header where there is one.
pub open spec fn data_step(c: Cursor, f: Fields) -> Step<Seq<u8>> {
    if f.flags & COMPRESSED != 0 && f.flags & NO_COMPRESSION_HEADER == 0 {
        match c.skip(COMPRESSION_HEADER as int) {
            Step::Stop(e) => Step::Stop(e),
            Step::Got(_, c) => if f.length < COMPRESSION_HEADER {
                Step::Stop(c.refused("a compressed length", f.length as u64))
            } else {
                c.bytes(f.length - COMPRESSION_HEADER)
            },
        }
    } else {
        c.bytes(f.length as int)
    }
}

pub open spec fn rectangle_step(c: Cursor) -> Step<BitmapView> {
    match fields_step(c) {
        Step::Stop(e) => Step::Stop(e),
        Step::Got(f, c) => if f.depth != DEPTH {
            Step::Stop(c.refused("a colour depth", f.depth as u64))
        } else {
            match data_step(c, f) {
                Step::Stop(e) => Step::Stop(e),
                Step::Got(data, c) => if f.right < f.x || f.bottom < f.y {
                    Step::Stop(c.refused("a rectangle that ends before it begins", f.right as u64))
                } else if f.right - f.x + 1 > f.width || f.bottom - f.y + 1 > f.height {
                    Step::Stop(
                        c.refused(
                            "a rectangle larger than the bitmap in it",
                            (f.right - f.x + 1) as u64,
                        ),
                    )
                } else {
                    Step::Got(
                        BitmapView {
                            x: f.x,
                            y: f.y,
                            paint_width: (f.right - f.x + 1) as u16,
                            paint_height: (f.bottom - f.y + 1) as u16,
                            width: f.width,
                            height: f.height,
                            compressed: f.flags & COMPRESSED != 0,
                            data,
                        },
                        c,
                    )
                },
            }
        },
    }
}

fn rectangle<'a>(r: &mut Reader<'a>) -> (res: Result<Bitmap<'a>, Malformed>)
    ensures
        view_steps(res, final(r)@, rectangle_step(old(r)@)),
        res matches Ok(b) ==> b@.wf(),
        final(r)@.within(),
{
    let f = fields(r)?;
    if f.depth != DEPTH {
        return Err(r.refuse("a colour depth", f.depth as u64));
    }
    let compressed = f.flags & COMPRESSED != 0;
    let mut length: u16 = f.length;
    if compressed && f.flags & NO_COMPRESSION_HEADER == 0 {
        // The header repeats the length and the row count. Stepping over it is what
        // makes the two shapes of this field one shape to everything below.
        r.skip(COMPRESSION_HEADER as usize)?;
        if length < COMPRESSION_HEADER {
            return Err(r.refuse("a compressed length", length as u64));
        }
        length = length - COMPRESSION_HEADER;
    }
    let data = r.bytes(length as usize)?;
    if f.right < f.x || f.bottom < f.y {
        return Err(r.refuse("a rectangle that ends before it begins", f.right as u64));
    }
    let paint_width: u32 = (f.right - f.x) as u32 + 1;
    let paint_height: u32 = (f.bottom - f.y) as u32 + 1;
    if paint_width > f.width as u32 || paint_height > f.height as u32 {
        return Err(r.refuse("a rectangle larger than the bitmap in it", paint_width as u64));
    }
    Ok(
        Bitmap {
            x: f.x,
            y: f.y,
            paint_width: paint_width as u16,
            paint_height: paint_height as u16,
            width: f.width,
            height: f.height,
            compressed,
            data,
        },
    )
}

pub open spec fn bitmap_views(v: Seq<Bitmap<'_>>) -> Seq<BitmapView> {
    Seq::new(v.len(), |i: int| v[i]@)
}

/// `n` more rectangles, after those already got.
pub open spec fn rectangles_spec(c: Cursor, n: nat, got: Seq<BitmapView>) -> Result<
    Seq<BitmapView>,
    Malformed,
>
    decreases n,
{
    if n == 0 {
        Ok(got)
    } else {
        match rectangle_step(c) {
            Step::Stop(e) => Err(e),
            Step::Got(b, c) => rectangles_spec(c, (n - 1) as nat, got.push(b)),
        }
    }
}

pub open spec fn update_spec(body: Seq<u8>) -> Result<Seq<BitmapView>, Malformed> {
    match cursor(UPDATE, body).u16_le() {
        Step::Stop(e) => Err(e),
        Step::Got(kind, c) => if kind != UPDATE_BITMAP {
            Err(c.refused("its update type", kind as u64))
        } else {
            match c.u16_le() {
                Step::Stop(e) => Err(e),
                Step::Got(count, c) => rectangles_spec(c, count as nat, seq![]),
            }
        },
    }
}

/// The rectangles of one Bitmap Update, in the order they are to be painted.
pub fn update(body: &[u8]) -> (res: Result<Vec<Bitmap<'_>>, Malformed>)
    ensures
        match res {
            Ok(rectangles) => update_spec(body@) == Ok::<Seq<BitmapView>, Malformed>(
                bitmap_views(rectangles@),
            ) && forall|i: int| 0 <= i < rectangles@.len() ==> (#[trigger] rectangles@[i])@.wf(),
            Err(e) => update_spec(body@) == Err::<Seq<BitmapView>, Malformed>(e),
        },
{
    let mut r = Reader::new(UPDATE, body);
    let kind = r.u16_le()?;
    if kind != UPDATE_BITMAP {
        return Err(r.refuse("its update type", kind as u64));
    }
    let count = r.u16_le()?;
    let ghost start = r@;
    let mut rectangles: Vec<Bitmap<'_>> = Vec::new();
    assert(bitmap_views(rectangles@) =~= seq![]);
    for i in 0..count
        invariant
            update_spec(body@) == rectangles_spec(start, count as nat, seq![]),
            rectangles_spec(start, count as nat, seq![]) == rectangles_spec(
                r@,
                (count - i) as nat,
                bitmap_views(rectangles@),
            ),
            forall|j: int| 0 <= j < rectangles@.len() ==> (#[trigger] rectangles@[j])@.wf(),
    {
        let ghost before = bitmap_views(rectangles@);
        let b = rectangle(&mut r)?;
        rectangles.push(b);
        assert(bitmap_views(rectangles@) =~= before.push(b@));
    }
    Ok(rectangles)
}

/// `n` pixels from `from` on, red first.
pub open spec fn swizzled(pixels: Seq<u8>, from: int, n: nat) -> Seq<u8> {
    Seq::new(
        4 * n,
        |j: int| if j % 4 == 3 { 0u8 } else { pixels[from + 4 * (j / 4) + (2 - j % 4)] },
    )
}

/// The top `n` rows of the destination rectangle, out of pixels whose bottom row comes
/// first.
pub open spec fn turned(b: BitmapView, pixels: Seq<u8>, n: nat) -> Seq<u8>
    decreases n,
{
    if n == 0 {
        seq![]
    } else {
        turned(b, pixels, (n - 1) as nat) + swizzled(
            pixels,
            4 * ((b.height - n) * b.width),
            b.paint_width as nat,
        )
    }
}

/// The destination rectangle out of a decoded bitmap, unless there is less of it than
/// its size says.
pub open spec fn turn_over_spec(b: BitmapView, pixels: Seq<u8>) -> Result<Seq<u8>, Malformed> {
    let need = 4 * (b.width * b.height);
    if pixels.len() < need {
        Err(
            Malformed::Short {
                what: DECODED,
                len: pixels.len() as usize,
                at: pixels.len() as usize,
                need: need as usize,
            },
        )
    } else {
        Ok(turned(b, pixels, b.paint_height as nat))
    }
}

impl BitmapView {
    /// The destination rectangle's pixels, in `RGBX32`, top row first.
    pub open spec fn decode_spec(self) -> Result<Seq<u8>, Malformed> {
        if self.compressed {
            match planar::decompress_spec(self.data, self.width as nat, self.height as nat) {
                Err(e) => Err(e),
                Ok(pixels) => turn_over_spec(self, pixels),
            }
        } else {
            turn_over_spec(self, self.data)
        }
    }
}

impl<'a> Bitmap<'a> {
    /// How many bytes [`Bitmap::decode`] writes.
    pub fn painted_bytes(&self) -> (n: u64)
        ensures
            n == self@.painted(),
    {
        proof {
            assert(0 <= self.paint_width * self.paint_height <= 0xFFFF * 0xFFFF) by (nonlinear_arith)
                requires
                    0 <= self.paint_width <= 0xFFFF,
                    0 <= self.paint_height <= 0xFFFF,
            ;
        }
        self.paint_width as u64 * self.paint_height as u64 * 4
    }

    /// The destination rectangle's pixels, in `RGBX32`, top row first.
    ///
    /// `scratch` is working space kept across calls.
    pub fn decode(&self, scratch: &mut Scratch, out: &mut Vec<u8>) -> (res: Result<(), Malformed>)
        requires
            self@.wf(),
        ensures
            match self@.decode_spec() {
                Ok(want) => res is Ok && final(out)@ == want,
                Err(e) => res == Err::<(), Malformed>(e) && final(out)@ == old(out)@,
            },
            res is Ok ==> final(out)@.len() == self@.painted(),
    {
        if self.compressed {
            planar::decompress(
                self.data,
                &mut scratch.planes,
                &mut scratch.pixels,
                self.width,
                self.height,
            )?;
            self.turn_over(scratch.pixels.as_slice(), out)
        } else {
            // Uncompressed rows are padded out to a multiple of four bytes, which at
            // four bytes a pixel they already are.
            self.turn_over(self.data, out)
        }
    }

    /// Take the destination rectangle out of the decoded bitmap, turning it the right
    /// way up and putting the channels in the order the framebuffer holds them.
    fn turn_over(&self, pixels: &[u8], out: &mut Vec<u8>) -> (res: Result<(), Malformed>)
        requires
            self@.wf(),
        ensures
            match turn_over_spec(self@, pixels@) {
                Ok(want) => res is Ok && final(out)@ == want,
                Err(e) => res == Err::<(), Malformed>(e) && final(out)@ == old(out)@,
            },
            res is Ok ==> final(out)@.len() == self@.painted(),
    {
        let (w, h): (u64, u64) = (self.width as u64, self.height as u64);
        proof {
            assert(0 <= w * h <= 0xFFFF * 0xFFFF) by (nonlinear_arith)
                requires
                    0 <= w <= 0xFFFF,
                    0 <= h <= 0xFFFF,
            ;
        }
        let need: u64 = 4 * (w * h);
        let len: usize = pixels.len();
        if (len as u64) < need {
            return Err(Malformed::Short { what: DECODED, len, at: len, need: need as usize });
        }
        out.clear();
        assert(out@ =~= seq![]);
        assert(0 * self.paint_width == 0) by (nonlinear_arith);
        for n in 0..self.paint_height
            invariant
                self@.wf(),
                w == self.width,
                h == self.height,
                len == pixels@.len(),
                4 * (w * h) <= len,
                out@ == turned(self@, pixels@, n as nat),
                out@.len() == 4 * (n * self.paint_width),
        {
            let row: u64 = h - 1 - n as u64;
            proof {
                assert(0 <= row * w && row * w + w <= w * h && row * w <= 0xFFFF * 0xFFFF) by (nonlinear_arith)
                    requires
                        0 <= row < h,
                        h <= 0xFFFF,
                        0 <= w <= 0xFFFF,
                ;
            }
            let from: usize = (4 * (row * w)) as usize;
            let ghost before = out@;
            assert(before + seq![] =~= before);
            for k in 0..self.paint_width
                invariant
                    self.paint_width <= w,
                    from == 4 * (row * w),
                    from + 4 * w <= len,
                    len == pixels@.len(),
                    out@.len() == before.len() + 4 * k,
                    forall|j: int| 0 <= j < before.len() ==> out@[j] == before[j],
                    forall|j: int| 0 <= j < 4 * k ==> out@[before.len() + j] == swizzled(
                        pixels@,
                        from as int,
                        self.paint_width as nat,
                    )[j],
            {
                let at: usize = from + 4 * k as usize;
                out.push(pixels[at + 2]);
                out.push(pixels[at + 1]);
                out.push(pixels[at]);
                out.push(0);
            }
            proof {
                let row_pixels = swizzled(pixels@, from as int, self.paint_width as nat);
                assert forall|k: int| 0 <= k < out@.len() implies out@[k] == (before + row_pixels)[k] by {
                    if k >= before.len() {
                        let j = k - before.len();
                        assert(out@[before.len() + j] == row_pixels[j]);
                    }
                }
                assert(out@ =~= before + row_pixels);
                assert((n + 1) * self.paint_width == n * self.paint_width + self.paint_width)
                    by (nonlinear_arith);
            }
        }
        assert(self.paint_height * self.paint_width == self.paint_width * self.paint_height)
            by (nonlinear_arith);
        Ok(())
    }
}

/// A rectangle comes out the right way up with red first: pixel (`x`, `y`) of it is the
/// pixel `y` rows down from the bitmap's last row, its channels turned round.
pub proof fn a_rectangle_comes_out_the_right_way_up(b: BitmapView, pixels: Seq<u8>, rows: nat, x: int, y: int)
    requires
        b.wf(),
        rows <= b.paint_height,
        0 <= x < b.paint_width,
        0 <= y < rows,
        pixels.len() >= 4 * (b.width * b.height),
    ensures
        ({
            let to = 4 * (y * b.paint_width + x);
            let from = 4 * ((b.height - 1 - y) * b.width + x);
            let out = turned(b, pixels, rows);
            &&& out.len() == 4 * (rows * b.paint_width)
            &&& out.subrange(to, to + 4) == seq![pixels[from + 2], pixels[from + 1], pixels[from], 0u8]
        }),
    decreases rows,
{
    let above = (rows - 1) as nat;
    let (w, n) = (b.paint_width as int, rows as int);
    let row = swizzled(pixels, 4 * ((b.height - n) * b.width), b.paint_width as nat);
    turned_length(b, pixels, above);
    let out = turned(b, pixels, rows);
    assert(4 * (n * w) == 4 * ((n - 1) * w) + 4 * w) by (nonlinear_arith);
    let to = 4 * (y * w + x);
    let from = 4 * ((b.height - 1 - y) * b.width + x);
    if y < above {
        a_rectangle_comes_out_the_right_way_up(b, pixels, above, x, y);
        assert(0 <= to && to + 4 <= 4 * (above * w)) by (nonlinear_arith)
            requires
                to == 4 * (y * w + x),
                0 <= x < w,
                0 <= y,
                y + 1 <= above,
        ;
        assert(out.subrange(to, to + 4) =~= turned(b, pixels, above).subrange(to, to + 4));
    } else {
        assert(to == 4 * (above * w) + 4 * x) by (nonlinear_arith)
            requires
                to == 4 * (y * w + x),
                y == above,
        ;
        assert(from == 4 * ((b.height - n) * b.width) + 4 * x) by (nonlinear_arith)
            requires
                from == 4 * ((b.height - 1 - y) * b.width + x),
                y == n - 1,
        ;
        assert forall|k: int| 0 <= k < 4 implies #[trigger] out[to + k] == row[4 * x + k] by {}
        assert((4 * x) / 4 == x && (4 * x + 1) / 4 == x && (4 * x + 2) / 4 == x);
        assert(out[to + 0] == row[4 * x] && out[to + 1] == row[4 * x + 1] && out[to + 2] == row[4 * x + 2]
            && out[to + 3] == row[4 * x + 3]);
        assert(out.subrange(to, to + 4) =~= seq![pixels[from + 2], pixels[from + 1], pixels[from], 0u8]);
    }
}

proof fn turned_length(b: BitmapView, pixels: Seq<u8>, rows: nat)
    ensures
        turned(b, pixels, rows).len() == 4 * (rows * b.paint_width),
    decreases rows,
{
    let w = b.paint_width as int;
    if rows == 0 {
        assert(4 * (rows * w) == 0) by (nonlinear_arith)
            requires
                rows == 0,
        ;
    } else {
        let above = (rows - 1) as nat;
        turned_length(b, pixels, above);
        assert(4 * (rows * w) == 4 * (above * w) + 4 * w) by (nonlinear_arith)
            requires
                rows == above + 1,
        ;
    }
}

/// How the pixels of a rectangle were sent.
pub enum Sent {
    /// As they are.
    Plain,
    /// Compressed.
    Coded,
    /// Compressed, with eight bytes before them that say again what is known.
    Headed(Seq<u8>),
}

impl Sent {
    pub open spec fn flags(self) -> u16 {
        match self {
            Sent::Plain => 0,
            Sent::Coded => 0x0401,
            Sent::Headed(_) => 0x0001,
        }
    }

    pub open spec fn before(self) -> Seq<u8> {
        match self {
            Sent::Headed(header) => header,
            _ => seq![],
        }
    }
}

/// A rectangle as it is sent: its first and its last column and row, the size of the bitmap
/// in it, 32 for its depth, how its pixels were sent, how long they are, and the pixels.
pub open spec fn rectangle_bytes(b: BitmapView, sent: Sent) -> Seq<u8> {
    le16(b.x) + (le16(b.y) + (le16((b.x + b.paint_width - 1) as u16) + (le16((b.y + b.paint_height - 1) as u16) + (
    le16(b.width) + (le16(b.height) + (le16(32) + (le16(sent.flags()) + (le16(
        (sent.before().len() + b.data.len()) as u16,
    ) + (sent.before() + b.data)))))))))
}

proof fn fields_are_next(c: Cursor, f: Fields, rest: Seq<u8>)
    requires
        c.faces(
            le16(f.x) + (le16(f.y) + (le16(f.right) + (le16(f.bottom) + (le16(f.width) + (le16(f.height) + (le16(
                f.depth,
            ) + (le16(f.flags) + (le16(f.length) + rest)))))))),
        ),
    ensures
        fields_step(c) == Step::Got(f, c.plus(18)),
        c.plus(18).faces(rest),
{
    let s8 = le16(f.length) + rest;
    let s7 = le16(f.flags) + s8;
    let s6 = le16(f.depth) + s7;
    let s5 = le16(f.height) + s6;
    let s4 = le16(f.width) + s5;
    let s3 = le16(f.bottom) + s4;
    let s2 = le16(f.right) + s3;
    let s1 = le16(f.y) + s2;
    word_next(c, f.x, s1);
    let c1 = c.plus(2);
    word_next(c1, f.y, s2);
    let c2 = c1.plus(2);
    word_next(c2, f.right, s3);
    let c3 = c2.plus(2);
    word_next(c3, f.bottom, s4);
    let c4 = c3.plus(2);
    word_next(c4, f.width, s5);
    let c5 = c4.plus(2);
    word_next(c5, f.height, s6);
    let c6 = c5.plus(2);
    word_next(c6, f.depth, s7);
    let c7 = c6.plus(2);
    word_next(c7, f.flags, s8);
    let c8 = c7.plus(2);
    word_next(c8, f.length, rest);
    assert(c8.plus(2) == c.plus(18));
}

/// A rectangle reads back as it was sent: where it is, how large it and its bitmap are,
/// whether its pixels are compressed, and the pixels.
pub proof fn a_rectangle_reads_back(c: Cursor, b: BitmapView, sent: Sent, rest: Seq<u8>)
    requires
        1 <= b.paint_width <= b.width,
        1 <= b.paint_height <= b.height,
        b.x + b.paint_width <= 0x1_0000,
        b.y + b.paint_height <= 0x1_0000,
        sent.before().len() + b.data.len() <= 0xFFFF,
        sent matches Sent::Headed(header) ==> header.len() == 8,
        b.compressed == !(sent is Plain),
        c.faces(rectangle_bytes(b, sent) + rest),
    ensures
        match rectangle_step(c) {
            Step::Stop(_) => false,
            Step::Got(got, next) => got == b && next.faces(rest),
        },
{
    assert(0u16 & 1u16 == 0 && 0x0401u16 & 1u16 == 1 && 0x0401u16 & 0x0400u16 == 0x0400 && 1u16 & 1u16 == 1
        && 1u16 & 0x0400u16 == 0) by (bit_vector);
    let f = Fields {
        x: b.x,
        y: b.y,
        right: (b.x + b.paint_width - 1) as u16,
        bottom: (b.y + b.paint_height - 1) as u16,
        width: b.width,
        height: b.height,
        depth: 32,
        flags: sent.flags(),
        length: (sent.before().len() + b.data.len()) as u16,
    };
    let tail = sent.before() + (b.data + rest);
    assert(rectangle_bytes(b, sent) + rest =~= le16(f.x) + (le16(f.y) + (le16(f.right) + (le16(f.bottom) + (le16(
        f.width,
    ) + (le16(f.height) + (le16(f.depth) + (le16(f.flags) + (le16(f.length) + tail)))))))));
    fields_are_next(c, f, tail);
    let d = c.plus(18);
    match sent {
        Sent::Headed(header) => {
            bytes_next(d, header, b.data + rest);
            bytes_next(d.plus(8), b.data, rest);
        },
        _ => {
            assert(tail =~= b.data + rest);
            bytes_next(d, b.data, rest);
        },
    }
}

/// A rectangle as it was sent, and how.
pub struct SentBitmap {
    pub bitmap: BitmapView,
    pub sent: Sent,
}

impl SentBitmap {
    pub open spec fn fits(self) -> bool {
        let (b, sent) = (self.bitmap, self.sent);
        &&& 1 <= b.paint_width <= b.width && 1 <= b.paint_height <= b.height
        &&& b.x + b.paint_width <= 0x1_0000 && b.y + b.paint_height <= 0x1_0000
        &&& sent.before().len() + b.data.len() <= 0xFFFF
        &&& sent matches Sent::Headed(header) ==> header.len() == 8
        &&& b.compressed == !(sent is Plain)
    }
}

pub open spec fn rectangles_bytes(list: Seq<SentBitmap>) -> Seq<u8>
    decreases list.len(),
{
    if list.len() == 0 {
        seq![]
    } else {
        rectangle_bytes(list[0].bitmap, list[0].sent) + rectangles_bytes(list.skip(1))
    }
}

proof fn rectangles_read_back(c: Cursor, list: Seq<SentBitmap>, got: Seq<BitmapView>)
    requires
        forall|i: int| 0 <= i < list.len() ==> (#[trigger] list[i]).fits(),
        c.faces(rectangles_bytes(list)),
    ensures
        rectangles_spec(c, list.len(), got) == Ok::<Seq<BitmapView>, Malformed>(
            got + list.map_values(|s: SentBitmap| s.bitmap),
        ),
    decreases list.len(),
{
    let want = list.map_values(|s: SentBitmap| s.bitmap);
    if list.len() == 0 {
        assert(got + want =~= got);
    } else {
        let (s, rest) = (list[0], list.skip(1));
        assert(s.fits());
        a_rectangle_reads_back(c, s.bitmap, s.sent, rectangles_bytes(rest));
        assert forall|i: int| 0 <= i < rest.len() implies (#[trigger] rest[i]).fits() by {
            assert(rest[i] == list[i + 1]);
        }
        let next = rectangle_step(c)->Got_1;
        rectangles_read_back(next, rest, got.push(s.bitmap));
        assert(got.push(s.bitmap) + rest.map_values(|s: SentBitmap| s.bitmap) =~= got + want);
    }
}

/// A Bitmap Update gives its rectangles back in the order they were sent.
pub proof fn an_update_gives_its_rectangles_back(list: Seq<SentBitmap>)
    requires
        list.len() <= 0xFFFF,
        forall|i: int| 0 <= i < list.len() ==> (#[trigger] list[i]).fits(),
    ensures
        update_spec(le16(1) + (le16(list.len() as u16) + rectangles_bytes(list))) == Ok::<
            Seq<BitmapView>,
            Malformed,
        >(list.map_values(|s: SentBitmap| s.bitmap)),
{
    let n = list.len() as u16;
    let body = le16(1) + (le16(n) + rectangles_bytes(list));
    let c = cursor(UPDATE, body);
    front_faces(UPDATE, body);
    word_next(c, 1, le16(n) + rectangles_bytes(list));
    word_next(c.plus(2), n, rectangles_bytes(list));
    rectangles_read_back(c.plus(2).plus(2), list, seq![]);
    let want = list.map_values(|s: SentBitmap| s.bitmap);
    assert(seq![] + want =~= want);
}

/// A rectangle whose pixels were sent as they are shows them the right way up, red first:
/// they come bottom row first, blue first, in rows as wide as the bitmap.
pub proof fn plain_pixels_come_out_the_right_way_up(b: BitmapView, x: int, y: int)
    requires
        b.wf(),
        !b.compressed,
        0 <= x < b.paint_width,
        0 <= y < b.paint_height,
        b.data.len() >= 4 * (b.width * b.height),
    ensures
        match b.decode_spec() {
            Err(_) => false,
            Ok(out) => {
                let to = 4 * (y * b.paint_width + x);
                let from = 4 * ((b.height - 1 - y) * b.width + x);
                out.subrange(to, to + 4) == seq![b.data[from + 2], b.data[from + 1], b.data[from], 0u8]
            },
        },
{
    a_rectangle_comes_out_the_right_way_up(b, b.data, b.paint_height as nat, x, y);
}

} // verus!
