//! The cursor, which is a shape and never a part of the desktop.
//!
//! A server sends the pointer separately from the pixels behind it, and this client keeps
//! it that way: a decoded shape goes to the caller as a shape, so it can be worn on a
//! hardware pointer and moved without asking the host. Nothing here draws into the
//! framebuffer, and nothing here needs to know where the cursor is, only what it looks
//! like.
//!
//! # Two masks and three outcomes
//!
//! Windows has drawn cursors by XORing into the screen since it drew them at all, and the
//! wire format still says so. A shape is a pair of masks of the same dimensions:
//! `xorMask`, which is a colour per pixel, and `andMask`, which is one bit per pixel.
//! Together they mean three different things, and a decoder that reads them as "colour
//! plus transparency" gets the third wrong:
//!
//! - `andMask` 0: the pixel is the colour in `xorMask`, opaque.
//! - `andMask` 1 and the colour is black: the pixel is transparent. On anything but a
//!   32-bit shape this is the *only* way to be transparent, there being no alpha channel
//!   to say so.
//! - `andMask` 1 and the colour is white: the pixel is the inverse of whatever is behind
//!   it. Nothing can be inverted here, because what is behind it arrives later; those
//!   pixels become a checkerboard, which is what a text caret over an unknown background
//!   has always looked like when it could not be inverted.
//!
//! # Bottom up, except when it is not
//!
//! A colour `xorMask` is stored the way every other Windows bitmap is, last row first. A
//! one-bit-per-pixel one is not: it reads top row first, and so does the `andMask` beside
//! it. Every scanline of either mask, at any depth, is padded out to a two-byte boundary.
//!
//! # The cache
//!
//! [`super::capabilities`] tells the server how many shapes this client holds, see
//! [`CACHE_ENTRIES`], so the server is entitled to send a shape once and afterwards name
//! it by index. It does: a text caret that blinks twice a second is two cached indices
//! rather than two bitmaps a second. [`Cache`] is therefore not an optimisation but part
//! of reading the protocol: an index nothing was stored at is a shape that cannot be
//! drawn, not a shape that arrives later.
//!
//! MS-RDPBCGR 2.2.9.1.2.1.6 through 2.2.9.1.2.1.11.

use vstd::prelude::*;
use vstd::slice::slice_subrange;

use super::fastpath;
use super::wire::{
    bytes_next, copy, cursor, front_faces, le16, le16_at, views, word_next, long_next, le32, Cursor, Malformed, Reader, Step,
};
use crate::text::{decimal, push_decimal};

verus! {

/// The largest shape RDP allows, and the largest the Large Pointer capability of
/// [`super::capabilities`] claims this client will take.
pub const MAX_DIMENSION: u16 = 384;

/// How many shapes the server may assume are held. This is the number the Pointer
/// capability sends, and the two have to agree: a server told 32 will use index 31.
pub const CACHE_ENTRIES: usize = 32;

/// `xorBpp` values this client can read. One bit is a monochrome shape; 24 is the implicit
/// depth of a Colour Pointer Update; 32 carries its own alpha.
///
/// The four and eight bit depths are indexed, and would need the session's colour palette,
/// which a 32-bit session never sends. Sixteen would need the 5-6-5 unpacking that
/// [`super::bitmap`] does not have either, for the same reason.
pub const MONOCHROME: u16 = 1;
pub const RGB: u16 = 24;
pub const RGBA: u16 = 32;

/// A cursor, decoded: straight-alpha `RGBA`, top row first, `width * height * 4` bytes.
#[derive(Clone, Debug, PartialEq, Eq)]
pub struct Shape {
    pub width: u16,
    pub height: u16,
    /// Where the click actually lands, from the top left of the image.
    pub hotspot_x: u16,
    pub hotspot_y: u16,
    pub rgba: Vec<u8>,
}

/// A [`Shape`] by its contents.
#[verifier::ext_equal]
pub struct ShapeView {
    pub width: u16,
    pub height: u16,
    pub hotspot_x: u16,
    pub hotspot_y: u16,
    pub rgba: Seq<u8>,
}

impl View for Shape {
    type V = ShapeView;

    open spec fn view(&self) -> ShapeView {
        ShapeView {
            width: self.width,
            height: self.height,
            hotspot_x: self.hotspot_x,
            hotspot_y: self.hotspot_y,
            rgba: self.rgba@,
        }
    }
}

impl ShapeView {
    /// The shape in words: its size and not its pixels.
    pub open spec fn text(self) -> Seq<char> {
        "Shape { "@ + decimal(self.width as nat) + "x"@ + decimal(self.height as nat) + ", hotspot "@
            + decimal(self.hotspot_x as nat) + ","@ + decimal(self.hotspot_y as nat) + ", "@ + decimal(
            self.rgba.len(),
        ) + " bytes }"@
    }
}

impl Shape {
    /// The shape in words. Every byte of a 384x384 one would be about 2.3 MB of
    /// comma-separated integers, which makes the one log line somebody needed unfindable.
    pub fn to_string(&self) -> (s: String)
        ensures
            s@ == self@.text(),
    {
        let mut s = String::new();
        s.append("Shape { ");
        push_decimal(&mut s, self.width as u64);
        s.append("x");
        push_decimal(&mut s, self.height as u64);
        s.append(", hotspot ");
        push_decimal(&mut s, self.hotspot_x as u64);
        s.append(",");
        push_decimal(&mut s, self.hotspot_y as u64);
        s.append(", ");
        push_decimal(&mut s, self.rgba.len() as u64);
        s.append(" bytes }");
        assert(s@ =~= self@.text());
        s
    }

    /// The same shape again.
    pub fn copied(&self) -> (s: Shape)
        ensures
            s@ == self@,
    {
        Shape {
            width: self.width,
            height: self.height,
            hotspot_x: self.hotspot_x,
            hotspot_y: self.hotspot_y,
            rgba: copy(self.rgba.as_slice()),
        }
    }
}

/// What a pointer update asks for.
#[derive(Clone, Debug, PartialEq, Eq)]
pub enum Pointer {
    /// No cursor at all: a full-screen video player, say.
    Hidden,
    /// The system default arrow, which the server does not send a bitmap for.
    Default,
    /// Where the server has put the cursor. A client that moves its own pointer has no use
    /// for this; it arrives when the *host* moves it.
    Position { x: u16, y: u16 },
    /// A bitmap, newly sent or named by cache index.
    Shape(Shape),
}

/// A [`Pointer`] by its contents.
pub enum PointerView {
    Hidden,
    Default,
    Position { x: u16, y: u16 },
    Shape(ShapeView),
}

impl View for Pointer {
    type V = PointerView;

    open spec fn view(&self) -> PointerView {
        match self {
            Pointer::Hidden => PointerView::Hidden,
            Pointer::Default => PointerView::Default,
            Pointer::Position { x, y } => PointerView::Position { x: *x, y: *y },
            Pointer::Shape(shape) => PointerView::Shape(shape@),
        }
    }
}

/// The shapes the server has sent and may name again.
#[derive(Debug)]
pub struct Cache {
    entries: Vec<Option<Shape>>,
}

/// A shape that may not be there, by its contents.
pub open spec fn entry(shape: Option<Shape>) -> Option<ShapeView> {
    match shape {
        Some(shape) => Some(shape@),
        None => None,
    }
}

impl View for Cache {
    type V = Seq<Option<ShapeView>>;

    closed spec fn view(&self) -> Seq<Option<ShapeView>> {
        Seq::new(self.entries@.len(), |i: int| entry(self.entries@[i]))
    }
}

impl Default for Cache {
    fn default() -> (c: Cache)
        ensures
            c@ == empty_cache(),
    {
        Cache::new()
    }
}

pub open spec fn empty_cache() -> Seq<Option<ShapeView>> {
    Seq::new(CACHE_ENTRIES as nat, |i: int| None)
}

/// The length of one scanline of this many bits.
pub open spec fn stride_spec(bits: int) -> int {
    (bits + 15) / 16 * 2
}

/// One scanline of a mask.
pub open spec fn scanline(mask: Seq<u8>, stride: int, row: int) -> Seq<u8> {
    mask.subrange(row * stride, row * stride + stride)
}

/// One bit of a scanline, counting from the top bit of the first byte. A row that is not
/// there, of an absent `andMask`, is all zeroes, which is opaque.
pub open spec fn bit_spec(row: Seq<u8>, at: u16) -> bool {
    at / 8 < row.len() && (row[at as int / 8] >> ((7 - at % 8) as u8)) & 1 == 1
}

/// One pixel of an `xorMask` scanline, as `RGBA`. The wire order is blue first.
pub open spec fn colour_spec(bpp: u16, row: Seq<u8>, at: u16) -> Seq<u8> {
    if bpp == MONOCHROME {
        if bit_spec(row, at) { seq![0xFFu8, 0xFF, 0xFF, 0xFF] } else { seq![0u8, 0, 0, 0xFF] }
    } else if bpp == RGB {
        seq![row[at * 3 + 2], row[at * 3 + 1], row[at * 3], 0xFF]
    } else {
        seq![row[at * 4 + 2], row[at * 4 + 1], row[at * 4], row[at * 4 + 3]]
    }
}

/// What a pixel that would be inverted is shown as.
pub open spec fn checker(row: int, column: int) -> Seq<u8> {
    if (row + column) % 2 == 0 { seq![0xFFu8, 0xFF, 0xFF, 0xFF] } else { seq![0u8, 0, 0, 0xFF] }
}

/// The three-way rule: the bit beside a colour does not mean "transparent", it means "not
/// the colour you see", and which of the two it is depends on the colour.
pub open spec fn masked(colour: Seq<u8>, and: bool, row: int, column: int) -> Seq<u8> {
    if and && colour == seq![0u8, 0, 0, 0xFF] {
        seq![0u8, 0, 0, 0]
    } else if and && colour == seq![0xFFu8, 0xFF, 0xFF, 0xFF] {
        checker(row, column)
    } else {
        colour
    }
}

/// The masks of a shape.
pub struct Masks {
    pub bpp: u16,
    pub width: u16,
    pub height: u16,
    pub xor: Seq<u8>,
    pub and: Seq<u8>,
}

impl Masks {
    pub open spec fn xor_stride(self) -> int {
        stride_spec(self.width * self.bpp)
    }

    pub open spec fn and_stride(self) -> int {
        if self.and.len() == 0 { 0 } else { stride_spec(self.width as int) }
    }

    /// Both masks are as long as the size asks for.
    pub open spec fn wf(self) -> bool {
        &&& self.bpp == MONOCHROME || self.bpp == RGB || self.bpp == RGBA
        &&& 0 < self.width <= MAX_DIMENSION
        &&& 0 < self.height <= MAX_DIMENSION
        &&& self.xor.len() == self.xor_stride() * self.height
        &&& self.and.len() == self.and_stride() * self.height
    }

    /// Where a row is in the masks: a colour mask is stored last row first; a monochrome
    /// one, and the andMask that goes with it, are not.
    pub open spec fn source(self, row: int) -> int {
        if self.bpp == MONOCHROME { row } else { self.height - 1 - row }
    }

    /// One pixel, as `RGBA`.
    pub open spec fn pixel(self, row: int, column: int) -> Seq<u8> {
        masked(
            colour_spec(self.bpp, scanline(self.xor, self.xor_stride(), self.source(row)), column as u16),
            bit_spec(scanline(self.and, self.and_stride(), self.source(row)), column as u16),
            row,
            column,
        )
    }

    /// The first `columns` pixels of a row.
    pub open spec fn row(self, row: int, columns: nat) -> Seq<u8>
        decreases columns,
    {
        if columns == 0 {
            seq![]
        } else {
            self.row(row, (columns - 1) as nat) + self.pixel(row, columns - 1)
        }
    }

    /// The first `rows` rows, top row first.
    pub open spec fn rows(self, rows: nat) -> Seq<u8>
        decreases rows,
    {
        if rows == 0 {
            seq![]
        } else {
            self.rows((rows - 1) as nat) + self.row(rows - 1, self.width as nat)
        }
    }
}

/// A depth, as a given one or the one on the wire.
pub open spec fn depth_step(c: Cursor, depth: Option<u16>) -> Step<u16> {
    match depth {
        Some(bpp) => Step::Got(bpp, c),
        None => c.u16_le(),
    }
}

/// The two mask lengths, the andMask's first.
pub open spec fn lengths_step(c: Cursor, wide: bool) -> Step<(u32, u32)> {
    if wide {
        match c.u32_le() {
            Step::Stop(e) => Step::Stop(e),
            Step::Got(and, c) => match c.u32_le() {
                Step::Stop(e) => Step::Stop(e),
                Step::Got(xor, c) => Step::Got((and, xor), c),
            },
        }
    } else {
        match c.u16_le() {
            Step::Stop(e) => Step::Stop(e),
            Step::Got(and, c) => match c.u16_le() {
                Step::Stop(e) => Step::Stop(e),
                Step::Got(xor, c) => Step::Got((and as u32, xor as u32), c),
            },
        }
    }
}

/// The masks themselves, which on the wire are the other way round from their lengths.
pub open spec fn masks_step(c: Cursor, wide: bool, bpp: u16, width: u16, height: u16) -> Step<Masks> {
    match lengths_step(c, wide) {
        Step::Stop(e) => Step::Stop(e),
        Step::Got((and_length, xor_length), c) => if xor_length != stride_spec(width * bpp) * height {
            Step::Stop(
                c.refused("an xorMask that is not the length its own size asks for", xor_length as u64),
            )
        } else if and_length != 0 && and_length != stride_spec(width as int) * height {
            Step::Stop(
                c.refused("an andMask that is not the length its own size asks for", and_length as u64),
            )
        } else {
            match c.bytes(xor_length as int) {
                Step::Stop(e) => Step::Stop(e),
                Step::Got(xor, c) => match c.bytes(and_length as int) {
                    Step::Stop(e) => Step::Stop(e),
                    Step::Got(and, c) => Step::Got(Masks { bpp, width, height, xor, and }, c),
                },
            }
        },
    }
}

/// The index, the hotspot and the size of a shape.
pub struct Place {
    pub index: u16,
    pub hotspot_x: u16,
    pub hotspot_y: u16,
    pub width: u16,
    pub height: u16,
}

pub open spec fn place_step(c: Cursor) -> Step<Place> {
    match c.u16_le() {
        Step::Stop(e) => Step::Stop(e),
        Step::Got(index, c) => match c.u16_le() {
            Step::Stop(e) => Step::Stop(e),
            Step::Got(hotspot_x, c) => match c.u16_le() {
                Step::Stop(e) => Step::Stop(e),
                Step::Got(hotspot_y, c) => match c.u16_le() {
                    Step::Stop(e) => Step::Stop(e),
                    Step::Got(width, c) => match c.u16_le() {
                        Step::Stop(e) => Step::Stop(e),
                        Step::Got(height, c) => if width == 0 || width > MAX_DIMENSION {
                            Step::Stop(c.refused("a pointer width", width as u64))
                        } else if height == 0 || height > MAX_DIMENSION {
                            Step::Stop(c.refused("a pointer height", height as u64))
                        } else {
                            Step::Got(Place { index, hotspot_x, hotspot_y, width, height }, c)
                        },
                    },
                },
            },
        },
    }
}

/// A `TS_COLORPOINTERATTRIBUTE` or one of the two shapes built on it: the index, and the
/// shape.
pub open spec fn attribute_spec(
    what: &'static str,
    body: Seq<u8>,
    depth: Option<u16>,
    wide: bool,
) -> Result<(u16, ShapeView), Malformed> {
    match depth_step(cursor(what, body), depth) {
        Step::Stop(e) => Err(e),
        Step::Got(bpp, c) => if bpp != MONOCHROME && bpp != RGB && bpp != RGBA {
            Err(c.refused("a pointer depth", bpp as u64))
        } else {
            match place_step(c) {
                Step::Stop(e) => Err(e),
                Step::Got(at, c) => match masks_step(c, wide, bpp, at.width, at.height) {
                    Step::Stop(e) => Err(e),
                    Step::Got(masks, _) => Ok(
                        (
                            at.index,
                            ShapeView {
                                width: at.width,
                                height: at.height,
                                hotspot_x: at.hotspot_x,
                                hotspot_y: at.hotspot_y,
                                rgba: masks.rows(at.height as nat),
                            },
                        ),
                    ),
                },
            }
        },
    }
}

pub open spec fn position_spec(body: Seq<u8>) -> Result<PointerView, Malformed> {
    match cursor("a Pointer Position Update", body).u16_le() {
        Step::Stop(e) => Err(e),
        Step::Got(x, c) => match c.u16_le() {
            Step::Stop(e) => Err(e),
            Step::Got(y, c) => Ok(PointerView::Position { x, y }),
        },
    }
}

/// What a Cached Pointer Update names.
pub open spec fn cached_spec(s: Seq<Option<ShapeView>>, body: Seq<u8>) -> Result<PointerView, Malformed> {
    match cursor("a Cached Pointer Update", body).u16_le() {
        Step::Stop(e) => Err(e),
        Step::Got(index, c) => if index < s.len() && s[index as int] is Some {
            Ok(PointerView::Shape(s[index as int]->0))
        } else {
            Err(c.missing("a shape at the index it names"))
        },
    }
}

/// What a shape that was read does: it is stored at its index and shown.
pub open spec fn store_spec(s: Seq<Option<ShapeView>>, read: Result<(u16, ShapeView), Malformed>) -> (
    Seq<Option<ShapeView>>,
    Result<PointerView, Malformed>,
) {
    match read {
        Err(e) => (s, Err(e)),
        Ok((index, shape)) => if index < s.len() {
            (s.update(index as int, Some(shape)), Ok(PointerView::Shape(shape)))
        } else {
            (
                s,
                Err(
                    Malformed::Refused {
                        what: "a pointer update",
                        field: "a cache index past the cache this client claimed",
                        value: index as u64,
                    },
                ),
            )
        },
    }
}

/// The shape a code that carries one is read as.
pub open spec fn shape_spec(code: u8, body: Seq<u8>) -> Option<Result<(u16, ShapeView), Malformed>> {
    if code == fastpath::COLOR_POINTER {
        Some(attribute_spec("a Colour Pointer Update", body, Some(RGB), false))
    } else if code == fastpath::NEW_POINTER {
        Some(attribute_spec("a New Pointer Update", body, None, false))
    } else if code == fastpath::LARGE_POINTER {
        Some(attribute_spec("a Large Pointer Update", body, None, true))
    } else {
        None
    }
}

/// What one pointer update does to the shapes held, and what it asks for.
pub open spec fn update_spec(s: Seq<Option<ShapeView>>, code: u8, body: Seq<u8>) -> (
    Seq<Option<ShapeView>>,
    Result<PointerView, Malformed>,
) {
    match shape_spec(code, body) {
        Some(read) => store_spec(s, read),
        None => (
            s,
            if code == fastpath::POINTER_HIDDEN {
                Ok(PointerView::Hidden)
            } else if code == fastpath::POINTER_DEFAULT {
                Ok(PointerView::Default)
            } else if code == fastpath::POINTER_POSITION {
                position_spec(body)
            } else if code == fastpath::CACHED_POINTER {
                cached_spec(s, body)
            } else {
                Err(
                    Malformed::Refused {
                        what: "a fast-path update",
                        field: "a pointer update type",
                        value: code as u64,
                    },
                )
            },
        ),
    }
}

impl Cache {
    pub fn new() -> (c: Cache)
        ensures
            c@ == empty_cache(),
    {
        let mut entries: Vec<Option<Shape>> = Vec::new();
        for i in 0..CACHE_ENTRIES
            invariant
                entries@.len() == i,
                forall|j: int| 0 <= j < i ==> #[trigger] entries@[j] is None,
        {
            entries.push(None);
        }
        let c = Cache { entries };
        assert(c@ =~= empty_cache());
        c
    }

    /// One pointer update, by the fast-path code it arrived under.
    ///
    /// Every code that carries a shape also stores it, because the server counts on that:
    /// the next update may be nothing but the index.
    pub fn update(&mut self, code: u8, body: &[u8]) -> (res: Result<Pointer, Malformed>)
        ensures
            final(self)@ == update_spec(old(self)@, code, body@).0,
            views(res, update_spec(old(self)@, code, body@).1),
    {
        match code {
            fastpath::POINTER_HIDDEN => Ok(Pointer::Hidden),
            fastpath::POINTER_DEFAULT => Ok(Pointer::Default),
            fastpath::POINTER_POSITION => position(body),
            fastpath::COLOR_POINTER => {
                let (index, shape) = attribute("a Colour Pointer Update", body, Some(RGB), false)?;
                self.store(index, shape)
            },
            fastpath::NEW_POINTER => {
                let (index, shape) = attribute("a New Pointer Update", body, None, false)?;
                self.store(index, shape)
            },
            fastpath::LARGE_POINTER => {
                let (index, shape) = attribute("a Large Pointer Update", body, None, true)?;
                self.store(index, shape)
            },
            fastpath::CACHED_POINTER => self.cached(body),
            _ => Err(
                Malformed::Refused {
                    what: "a fast-path update",
                    field: "a pointer update type",
                    value: code as u64,
                },
            ),
        }
    }

    fn store(&mut self, index: u16, shape: Shape) -> (res: Result<Pointer, Malformed>)
        ensures
            final(self)@ == store_spec(old(self)@, Ok((index, shape@))).0,
            views(res, store_spec(old(self)@, Ok((index, shape@))).1),
    {
        if index as usize >= self.entries.len() {
            return Err(
                Malformed::Refused {
                    what: "a pointer update",
                    field: "a cache index past the cache this client claimed",
                    value: index as u64,
                },
            );
        }
        self.entries[index as usize] = Some(shape.copied());
        assert(self@ =~= old(self)@.update(index as int, Some(shape@)));
        Ok(Pointer::Shape(shape))
    }

    fn cached(&self, body: &[u8]) -> (res: Result<Pointer, Malformed>)
        ensures
            views(res, cached_spec(self@, body@)),
    {
        let mut r = Reader::new("a Cached Pointer Update", body);
        let index = r.u16_le()?;
        if (index as usize) < self.entries.len() {
            assert(self@[index as int] == entry(self.entries@[index as int]));
            if let Some(shape) = &self.entries[index as usize] {
                return Ok(Pointer::Shape(shape.copied()));
            }
        }
        Err(r.missing("a shape at the index it names"))
    }
}

fn position(body: &[u8]) -> (res: Result<Pointer, Malformed>)
    ensures
        views(res, position_spec(body@)),
{
    let mut r = Reader::new("a Pointer Position Update", body);
    let x = r.u16_le()?;
    let y = r.u16_le()?;
    Ok(Pointer::Position { x, y })
}

/// `TS_COLORPOINTERATTRIBUTE` and the two shapes built on it, which differ only in whether
/// the depth is on the wire and how wide the mask lengths are. A Large Pointer Update is
/// the same structure as the other two with room for a mask that a `u16` could not
/// measure.
fn attribute(what: &'static str, body: &[u8], depth: Option<u16>, wide: bool) -> (res: Result<
    (u16, Shape),
    Malformed,
>)
    ensures
        match attribute_spec(what, body@, depth, wide) {
            Ok((index, shape)) => match res {
                Ok((got, image)) => got == index && image@ == shape,
                Err(_) => false,
            },
            Err(e) => res == Err::<(u16, Shape), Malformed>(e),
        },
{
    let mut r = Reader::new(what, body);
    let bpp: u16 = match depth {
        Some(bpp) => bpp,
        None => r.u16_le()?,
    };
    if bpp != MONOCHROME && bpp != RGB && bpp != RGBA {
        return Err(r.refuse("a pointer depth", bpp as u64));
    }
    let index = r.u16_le()?;
    let hotspot_x = r.u16_le()?;
    let hotspot_y = r.u16_le()?;
    let width = r.u16_le()?;
    let height = r.u16_le()?;
    if width == 0 || width > MAX_DIMENSION {
        return Err(r.refuse("a pointer width", width as u64));
    }
    if height == 0 || height > MAX_DIMENSION {
        return Err(r.refuse("a pointer height", height as u64));
    }
    let rgba = masks(&mut r, wide, bpp, width, height)?;
    Ok((index, Shape { width, height, hotspot_x, hotspot_y, rgba }))
}

/// Both masks are declared, and both are checked against the size they must be for the
/// dimensions just read. A mask that is nearly the right length would decode into a shape
/// that is nearly right, sheared by a byte a row.
fn masks(r: &mut Reader<'_>, wide: bool, bpp: u16, width: u16, height: u16) -> (res: Result<
    Vec<u8>,
    Malformed,
>)
    requires
        bpp == MONOCHROME || bpp == RGB || bpp == RGBA,
        0 < width <= MAX_DIMENSION,
        0 < height <= MAX_DIMENSION,
    ensures
        match masks_step(old(r)@, wide, bpp, width, height) {
            Step::Got(masks, _) => res matches Ok(rgba) && rgba@ == masks.rows(height as nat),
            Step::Stop(e) => res == Err::<Vec<u8>, Malformed>(e),
        },
{
    let (and_length, xor_length): (u32, u32) = if wide {
        let and = r.u32_le()?;
        let xor = r.u32_le()?;
        (and, xor)
    } else {
        let and = r.u16_le()?;
        let xor = r.u16_le()?;
        (and as u32, xor as u32)
    };
    proof {
        strides_are_small(bpp, width, height);
    }
    let xor_stride: u32 = stride(width as u32 * bpp as u32);
    let and_stride: u32 = stride(width as u32);
    if xor_length != xor_stride * height as u32 {
        return Err(
            r.refuse("an xorMask that is not the length its own size asks for", xor_length as u64),
        );
    }
    // An absent andMask is a shape that is opaque wherever its colours are, which is how a
    // 32-bit shape that says everything in its alpha channel arrives.
    if and_length != 0 && and_length != and_stride * height as u32 {
        return Err(
            r.refuse("an andMask that is not the length its own size asks for", and_length as u64),
        );
    }
    let xor = r.bytes(xor_length as usize)?;
    let and = r.bytes(and_length as usize)?;
    Ok(pixels(bpp, width, height, xor, and))
}

proof fn strides_are_small(bpp: u16, width: u16, height: u16)
    requires
        bpp == MONOCHROME || bpp == RGB || bpp == RGBA,
        0 < width <= MAX_DIMENSION,
        0 < height <= MAX_DIMENSION,
    ensures
        0 <= width * bpp <= 12288,
        0 < stride_spec(width * bpp) <= 1536,
        0 < stride_spec(width as int) <= 48,
        0 < stride_spec(width * bpp) * height <= 589_824,
        0 < stride_spec(width as int) * height <= 589_824,
{
    assert(0 < width * bpp <= 384 * 32) by (nonlinear_arith)
        requires
            0 < width <= 384,
            0 < bpp <= 32,
    ;
    let x = stride_spec(width * bpp);
    let a = stride_spec(width as int);
    assert(0 < x * height <= 1536 * 384) by (nonlinear_arith)
        requires
            0 < x <= 1536,
            0 < height <= 384,
    ;
    assert(0 < a * height <= 1536 * 384) by (nonlinear_arith)
        requires
            0 < a <= 1536,
            0 < height <= 384,
    ;
}

/// The length of one scanline, which is padded out to a two-byte boundary whatever the
/// depth.
fn stride(bits: u32) -> (bytes: u32)
    requires
        bits <= 0xFFFF_0000,
    ensures
        bytes == stride_spec(bits as int),
{
    (bits + 15) / 16 * 2
}

/// The two masks, become straight-alpha `RGBA` with the top row first.
///
/// Every length was checked, so there is nothing here that can fail: what is left is the
/// row order, the three-way rule, and the depths.
fn pixels(bpp: u16, width: u16, height: u16, xor: &[u8], and: &[u8]) -> (rgba: Vec<u8>)
    requires
        (Masks { bpp, width, height, xor: xor@, and: and@ }).wf(),
    ensures
        rgba@ == (Masks { bpp, width, height, xor: xor@, and: and@ }).rows(height as nat),
{
    let ghost masks = Masks { bpp, width, height, xor: xor@, and: and@ };
    proof {
        strides_are_small(bpp, width, height);
    }
    let xor_stride: usize = stride(width as u32 * bpp as u32) as usize;
    let and_stride: usize = if and.len() == 0 { 0 } else { stride(width as u32) as usize };
    let mut rgba: Vec<u8> = Vec::new();
    assert(rgba@ =~= masks.rows(0));
    for row in 0..height
        invariant
            masks == (Masks { bpp, width, height, xor: xor@, and: and@ }),
            masks.wf(),
            xor_stride == masks.xor_stride(),
            and_stride == masks.and_stride(),
            rgba@ == masks.rows(row as nat),
    {
        let source: u16 = if bpp == MONOCHROME { row } else { height - 1 - row };
        let xor_row = line(xor, xor_stride, source, height);
        let and_row = line(and, and_stride, source, height);
        let ghost above = rgba@;
        assert(rgba@ =~= above + masks.row(row as int, 0));
        for column in 0..width
            invariant
                row < height,
                masks == (Masks { bpp, width, height, xor: xor@, and: and@ }),
                masks.wf(),
                xor_row@ == scanline(xor@, masks.xor_stride(), masks.source(row as int)),
                xor_row@.len() == masks.xor_stride(),
                and_row@ == scanline(and@, masks.and_stride(), masks.source(row as int)),
                above == masks.rows(row as nat),
                rgba@ == above + masks.row(row as int, column as nat),
        {
            let colour = colour(bpp, width, xor_row, column);
            let ghost before = rgba@;
            if bit(and_row, column) {
                push_masked(&mut rgba, colour, row, column);
            } else {
                push_pixel(&mut rgba, colour);
            }
            assert(before + masks.pixel(row as int, column as int) =~= above + (masks.row(
                row as int,
                column as nat,
            ) + masks.pixel(row as int, column as int)));
        }
    }
    rgba
}

fn line<'a>(mask: &'a [u8], stride: usize, row: u16, height: u16) -> (line: &'a [u8])
    requires
        row < height,
        mask@.len() == stride * height,
    ensures
        line@ == scanline(mask@, stride as int, row as int),
        line@.len() == stride,
{
    let len: usize = mask.len();
    assert(0 <= row * stride && row * stride + stride <= len) by (nonlinear_arith)
        requires
            0 <= row,
            row + 1 <= height,
            stride >= 0,
            len == stride * height,
    ;
    let start: usize = row as usize * stride;
    slice_subrange(mask, start, start + stride)
}

/// One pixel of an `xorMask` scanline, as `RGBA`. The wire order is blue first.
fn colour(bpp: u16, width: u16, row: &[u8], at: u16) -> (rgba: [u8; 4])
    requires
        bpp == MONOCHROME || bpp == RGB || bpp == RGBA,
        at < width <= MAX_DIMENSION,
        row@.len() == stride_spec(width * bpp),
    ensures
        rgba@ == colour_spec(bpp, row@, at),
{
    assert(bpp == RGB ==> width * bpp == width * 24);
    assert(bpp == RGBA ==> width * bpp == width * 32);
    let rgba: [u8; 4] = if bpp == MONOCHROME {
        if bit(row, at) { [0xFF, 0xFF, 0xFF, 0xFF] } else { [0x00, 0x00, 0x00, 0xFF] }
    } else if bpp == RGB {
        let at: usize = at as usize * 3;
        [row[at + 2], row[at + 1], row[at], 0xFF]
    } else {
        let at: usize = at as usize * 4;
        [row[at + 2], row[at + 1], row[at], row[at + 3]]
    };
    assert(rgba@ =~= colour_spec(bpp, row@, at));
    rgba
}

fn bit(row: &[u8], at: u16) -> (set: bool)
    ensures
        set == bit_spec(row@, at),
{
    let byte: usize = at as usize / 8;
    byte < row.len() && (row[byte] >> ((7 - at % 8) as u8)) & 1 == 1
}

fn push_pixel(rgba: &mut Vec<u8>, colour: [u8; 4])
    ensures
        final(rgba)@ == old(rgba)@ + colour@,
{
    rgba.push(colour[0]);
    rgba.push(colour[1]);
    rgba.push(colour[2]);
    rgba.push(colour[3]);
    assert(rgba@ =~= old(rgba)@ + colour@);
}

/// A pixel under an `andMask` bit. One the server asked to have inverted cannot be: what
/// it would be inverted against is not here and will not be until somebody composites it.
///
/// A checkerboard is what the alternative was always going to look like. Painting them
/// black loses a caret over black text, and painting them white loses it over a white
/// page; alternating loses neither.
fn push_masked(rgba: &mut Vec<u8>, colour: [u8; 4], row: u16, column: u16)
    requires
        row < MAX_DIMENSION,
        column < MAX_DIMENSION,
    ensures
        final(rgba)@ == old(rgba)@ + masked(colour@, true, row as int, column as int),
{
    let shown: [u8; 4] = if colour[3] != 0xFF || colour[0] != colour[1] || colour[1] != colour[2] {
        colour
    } else if colour[0] == 0 {
        [0x00, 0x00, 0x00, 0x00]
    } else if colour[0] == 0xFF {
        if (row + column) % 2 == 0 { [0xFF, 0xFF, 0xFF, 0xFF] } else { [0x00, 0x00, 0x00, 0xFF] }
    } else {
        colour
    };
    proof {
        let black = seq![0u8, 0, 0, 0xFF];
        let white = seq![0xFFu8, 0xFF, 0xFF, 0xFF];
        assert(colour@ =~= seq![colour@[0], colour@[1], colour@[2], colour@[3]]);
        assert(black[0] == 0 && black[1] == 0 && black[2] == 0 && black[3] == 0xFF);
        assert(white[0] == 0xFF && white[1] == 0xFF && white[2] == 0xFF && white[3] == 0xFF);
        if colour@[0] == 0 && colour@[1] == 0 && colour@[2] == 0 && colour@[3] == 0xFF {
            assert(colour@ =~= black);
        }
        if colour@[0] == 0xFF && colour@[1] == 0xFF && colour@[2] == 0xFF && colour@[3] == 0xFF {
            assert(colour@ =~= white);
        }
        assert(shown@ =~= masked(colour@, true, row as int, column as int));
    }
    push_pixel(rgba, shown);
}

/// The length of a row of pixels, and each of them in its place.
proof fn a_row_holds_its_pixels(m: Masks, row: int, columns: nat)
    requires
        columns <= m.width,
    ensures
        m.row(row, columns).len() == 4 * columns,
        forall|c: int|
            0 <= c < columns ==> #[trigger] m.pixel(row, c) == m.row(row, columns).subrange(
                4 * c,
                4 * c + 4,
            ),
    decreases columns,
{
    if columns > 0 {
        let before = (columns - 1) as nat;
        a_row_holds_its_pixels(m, row, before);
        assert(m.pixel(row, columns - 1).len() == 4);
        assert forall|c: int| 0 <= c < columns implies #[trigger] m.pixel(row, c) == m.row(
            row,
            columns,
        ).subrange(4 * c, 4 * c + 4) by {
            if c < before {
                assert(m.row(row, columns).subrange(4 * c, 4 * c + 4) =~= m.row(row, before).subrange(
                    4 * c,
                    4 * c + 4,
                ));
            } else {
                assert(m.row(row, columns).subrange(4 * c, 4 * c + 4) =~= m.pixel(row, c));
            }
        }
    }
}

/// Every pixel of a decoded shape stands at its own place: four bytes a pixel, a row after
/// the row above it.
pub proof fn a_shape_holds_its_pixels(m: Masks, rows: nat, row: int, column: int)
    requires
        0 <= row < rows <= m.height,
        0 <= column < m.width,
    ensures
        m.rows(rows).len() == 4 * m.width * rows,
        m.rows(rows).subrange(4 * (row * m.width + column), 4 * (row * m.width + column) + 4)
            == m.pixel(row, column),
    decreases rows,
{
    let above = (rows - 1) as nat;
    a_row_holds_its_pixels(m, above as int, m.width as nat);
    rows_are_long(m, above);
    let w = m.width as int;
    assert(4 * w * rows == 4 * w * above + 4 * w) by (nonlinear_arith)
        requires
            rows == above + 1,
    ;
    if row < above {
        a_shape_holds_its_pixels(m, above, row, column);
        let at = 4 * (row * w + column);
        assert(at + 4 <= 4 * w * above && at >= 0) by (nonlinear_arith)
            requires
                at == 4 * (row * w + column),
                0 <= column < w,
                0 <= row,
                row + 1 <= above,
        ;
        assert(m.rows(rows).subrange(at, at + 4) =~= m.rows(above).subrange(at, at + 4));
    } else {
        let at = 4 * (row * w + column);
        assert(at == 4 * w * above + 4 * column) by (nonlinear_arith)
            requires
                at == 4 * (row * w + column),
                row == above,
        ;
        assert(m.rows(rows).subrange(at, at + 4) =~= m.row(row, m.width as nat).subrange(
            4 * column,
            4 * column + 4,
        ));
        assert(m.pixel(row, column) == m.row(row, m.width as nat).subrange(4 * column, 4 * column + 4));
    }
}

proof fn rows_are_long(m: Masks, rows: nat)
    ensures
        m.rows(rows).len() == 4 * m.width * rows,
    decreases rows,
{
    let w = m.width as int;
    if rows == 0 {
        assert(4 * w * rows == 0) by (nonlinear_arith)
            requires
                rows == 0,
        ;
    } else {
        let above = (rows - 1) as nat;
        rows_are_long(m, above);
        a_row_holds_its_pixels(m, above as int, m.width as nat);
        assert(4 * w * rows == 4 * w * above + 4 * w) by (nonlinear_arith)
            requires
                rows == above + 1,
        ;
    }
}

/// A shape that was shown is kept: until something else is stored at its index, that index
/// shows it again, and the shapes at the others are as they were.
pub proof fn a_shape_is_handed_back_by_its_index(s: Seq<Option<ShapeView>>, code: u8, body: Seq<u8>)
    requires
        shape_spec(code, body) is Some,
        shape_spec(code, body)->0 is Ok,
    ensures
        ({
            let (index, shape) = (shape_spec(code, body)->0)->Ok_0;
            let (after, shown) = update_spec(s, code, body);
            if index < s.len() {
                &&& shown == Ok::<PointerView, Malformed>(PointerView::Shape(shape))
                &&& update_spec(after, fastpath::CACHED_POINTER, le16(index)) == (after, shown)
                &&& forall|i: int| 0 <= i < s.len() && i != index ==> #[trigger] after[i] == s[i]
            } else {
                after == s && shown is Err
            }
        }),
{
    let (index, shape) = (shape_spec(code, body)->0)->Ok_0;
    assert(le16_at(le16(index), 0) == index);
}

/// The cache holds as many shapes as the Pointer capability claims, and keeps holding that
/// many whatever arrives: an index the server was told of is never past it.
pub proof fn the_cache_is_as_large_as_was_claimed(s: Seq<Option<ShapeView>>, code: u8, body: Seq<u8>)
    ensures
        empty_cache().len() == super::capabilities::POINTER_CACHE,
        update_spec(s, code, body).0.len() == s.len(),
{
}

/// An update that is refused, or that carries no shape, leaves every shape that is held.
pub proof fn only_a_shape_that_is_shown_is_kept(s: Seq<Option<ShapeView>>, code: u8, body: Seq<u8>)
    ensures
        update_spec(s, code, body).1 is Err || shape_spec(code, body) is None ==> update_spec(
            s,
            code,
            body,
        ).0 == s,
{
}

/// An update: its code, and what is in it.
pub struct Arrival {
    pub code: u8,
    pub body: Seq<u8>,
}

/// The shapes held once these updates have come in, starting with none.
pub open spec fn held_after(arrivals: Seq<Arrival>) -> Seq<Option<ShapeView>>
    decreases arrivals.len(),
{
    if arrivals.len() == 0 {
        empty_cache()
    } else {
        update_spec(
            held_after(arrivals.drop_last()),
            arrivals.last().code,
            arrivals.last().body,
        ).0
    }
}

/// The last shape that one of these updates carried for an index.
pub open spec fn last_shape(arrivals: Seq<Arrival>, index: int) -> Option<ShapeView>
    decreases arrivals.len(),
{
    if arrivals.len() == 0 {
        None
    } else {
        let before = last_shape(arrivals.drop_last(), index);
        match shape_spec(arrivals.last().code, arrivals.last().body) {
            Some(Ok((at, shape))) => if at == index { Some(shape) } else { before },
            _ => before,
        }
    }
}

/// A shape is no larger than a cursor may be, and has four bytes for each of its pixels.
pub open spec fn well_sized(shape: ShapeView) -> bool {
    &&& 1 <= shape.width <= MAX_DIMENSION && 1 <= shape.height <= MAX_DIMENSION
    &&& shape.rgba.len() == shape.width * shape.height * 4
}

proof fn a_read_shape_is_well_sized(code: u8, body: Seq<u8>)
    ensures
        match shape_spec(code, body) {
            Some(Ok((_, shape))) => well_sized(shape),
            _ => true,
        },
{
    match shape_spec(code, body) {
        Some(Ok((_, shape))) => {
            let (w, h) = (shape.width as int, shape.height as int);
            assert forall|m: Masks| m.width == shape.width implies #[trigger] m.rows(
                shape.height as nat,
            ).len() == w * h * 4 by {
                rows_are_long(m, shape.height as nat);
                assert(4 * w * h == w * h * 4) by (nonlinear_arith);
            }
        },
        _ => {},
    }
}

/// Whatever updates have come in, each index the server was told of holds the last shape
/// that was stored at it: naming the index shows that shape, and is refused where there was
/// none. An index past those is refused. Every shape that is held or shown is no larger than
/// a cursor may be, and has four bytes for each of its pixels.
pub proof fn an_index_shows_the_last_shape_stored_at_it(arrivals: Seq<Arrival>, index: u16)
    ensures
        ({
            let held = held_after(arrivals);
            let shown = update_spec(held, fastpath::CACHED_POINTER, le16(index));
            &&& held.len() == super::capabilities::POINTER_CACHE
            &&& shown.0 == held
            &&& index < held.len() ==> held[index as int] == last_shape(arrivals, index as int)
            &&& match last_shape(arrivals, index as int) {
                Some(shape) => well_sized(shape) && (index < held.len() ==> shown.1 == Ok::<
                    PointerView,
                    Malformed,
                >(PointerView::Shape(shape))),
                None => shown.1 matches Err(Malformed::Missing { .. }),
            }
            &&& index >= held.len() ==> shown.1 is Err
        }),
    decreases arrivals.len(),
{
    assert(le16_at(le16(index), 0) == index);
    if arrivals.len() > 0 {
        an_index_shows_the_last_shape_stored_at_it(arrivals.drop_last(), index);
        a_read_shape_is_well_sized(arrivals.last().code, arrivals.last().body);
    }
}

/// A shape that is asked for, whatever came before, is no larger than a cursor may be.
pub proof fn every_shape_shown_is_well_sized(arrivals: Seq<Arrival>, code: u8, body: Seq<u8>)
    ensures
        update_spec(held_after(arrivals), code, body).1 matches Ok(PointerView::Shape(shape)) ==> well_sized(
            shape,
        ),
{
    a_read_shape_is_well_sized(code, body);
    match cursor("a Cached Pointer Update", body).u16_le() {
        Step::Stop(_) => {},
        Step::Got(index, _) => an_index_shows_the_last_shape_stored_at_it(arrivals, index),
    }
}

/// Whether a bit of a row of bits is set, the first of a byte being its top one.
pub open spec fn bit_set(row: Seq<u8>, at: int) -> bool {
    let (byte, place) = (at / 8, at % 8);
    let worth: int = if place == 0 {
        128
    } else if place == 1 {
        64
    } else if place == 2 {
        32
    } else if place == 3 {
        16
    } else if place == 4 {
        8
    } else if place == 5 {
        4
    } else if place == 6 {
        2
    } else {
        1
    };
    byte < row.len() && row[byte] as int / worth % 2 == 1
}

proof fn a_bit_is_its_worth(b: u8, place: u8)
    requires
        place < 8,
    ensures
        ((b >> ((7 - place) as u8)) & 1 == 1) == (b as int / (if place == 0 {
            128int
        } else if place == 1 {
            64
        } else if place == 2 {
            32
        } else if place == 3 {
            16
        } else if place == 4 {
            8
        } else if place == 5 {
            4
        } else if place == 6 {
            2
        } else {
            1
        }) % 2 == 1),
{
    assert((b >> 7u8) & 1 == (b / 128) % 2 && (b >> 6u8) & 1 == (b / 64) % 2 && (b >> 5u8) & 1 == (b / 32) % 2
        && (b >> 4u8) & 1 == (b / 16) % 2 && (b >> 3u8) & 1 == (b / 8) % 2 && (b >> 2u8) & 1 == (b / 4) % 2
        && (b >> 1u8) & 1 == (b / 2) % 2 && (b >> 0u8) & 1 == b % 2) by (bit_vector);
}

/// The colour an xorMask gives a pixel, and whether the andMask marks it. Rows of a colour
/// mask come bottom row first and those of a monochrome one top row first; each is padded to
/// a whole number of two bytes, and its pixels are blue first.
pub open spec fn mask_colour(m: Masks, row: int, column: int) -> Seq<u8> {
    if m.bpp == 1 {
        let from = row * ((m.width + 15) / 16 * 2);
        if bit_set(m.xor.subrange(from, from + (m.width + 15) / 16 * 2), column) {
            seq![255u8, 255u8, 255u8, 255u8]
        } else {
            seq![0u8, 0u8, 0u8, 255u8]
        }
    } else {
        let from = (m.height - 1 - row) * ((m.width * m.bpp + 15) / 16 * 2);
        if m.bpp == 24 {
            let at = from + 3 * column;
            seq![m.xor[at + 2], m.xor[at + 1], m.xor[at], 255u8]
        } else {
            let at = from + 4 * column;
            seq![m.xor[at + 2], m.xor[at + 1], m.xor[at], m.xor[at + 3]]
        }
    }
}

pub open spec fn mask_marks(m: Masks, row: int, column: int) -> bool {
    let stride = (m.width + 15) / 16 * 2;
    let from = (if m.bpp == 1 { row } else { m.height - 1 - row }) * stride;
    m.and.len() > 0 && bit_set(m.and.subrange(from, from + stride), column)
}

/// A pixel of a shape is its xorMask's colour where the andMask does not mark it. Where it
/// does, black is nothing at all, white is a checker of white and black, and any other
/// colour is itself.
#[verifier::rlimit(40)]
pub proof fn a_pixel_is_its_colour_and_its_mark(m: Masks, row: int, column: int)
    requires
        m.wf(),
        0 <= row < m.height,
        0 <= column < m.width,
    ensures
        ({
            let colour = mask_colour(m, row, column);
            m.pixel(row, column) == if !mask_marks(m, row, column) {
                colour
            } else if colour == seq![0u8, 0u8, 0u8, 255u8] {
                seq![0u8, 0u8, 0u8, 0u8]
            } else if colour == seq![255u8, 255u8, 255u8, 255u8] {
                if (row + column) % 2 == 0 {
                    seq![255u8, 255u8, 255u8, 255u8]
                } else {
                    seq![0u8, 0u8, 0u8, 255u8]
                }
            } else {
                colour
            }
        }),
{
    let source = m.source(row);
    let stride = m.xor_stride();
    assert(0 <= source < m.height);
    a_row_is_in_its_mask(stride, m.height as int, source);
    let line = scanline(m.xor, stride, source);
    let at = column as u16;
    if m.bpp == 1 {
        a_bit_is_its_worth(line[column / 8], (at % 8) as u8);
        assert(column / 8 < line.len());
        assert(bit_spec(line, at) == bit_set(line, column));
    } else if m.bpp == 24 {
        assert(3 * column + 2 < stride);
        assert(line[3 * column] == m.xor[source * stride + 3 * column]);
    } else {
        assert(m.width * m.bpp == 32 * m.width) by (nonlinear_arith)
            requires
                m.bpp == 32,
        ;
        assert(4 * column + 3 < stride);
        assert(line[4 * column] == m.xor[source * stride + 4 * column]);
    }
    assert(colour_spec(m.bpp, line, at) == mask_colour(m, row, column));
    if m.and.len() > 0 {
        let s = m.and_stride();
        a_row_is_in_its_mask(s, m.height as int, source);
        let marks = scanline(m.and, s, source);
        assert(column / 8 < marks.len());
        a_bit_is_its_worth(marks[column / 8], (at % 8) as u8);
        assert(bit_spec(marks, at) == bit_set(marks, column));
    } else {
        assert(source * 0 == 0);
        assert(scanline(m.and, 0, source).len() == 0);
    }
}

proof fn a_row_is_in_its_mask(stride: int, height: int, row: int)
    requires
        0 <= stride,
        0 <= row < height,
    ensures
        0 <= row * stride,
        row * stride + stride <= stride * height,
{
    assert(0 <= row * stride && row * stride + stride <= stride * height) by (nonlinear_arith)
        requires
            0 <= stride,
            0 <= row,
            row + 1 <= height,
    ;
}

/// How long the masks of a shape are, as it is sent: the andMask first, each in two bytes, or
/// in four where the shape may be large.
pub open spec fn lengths_bytes(wide: bool, m: Masks) -> Seq<u8> {
    if wide {
        le32(m.and.len() as u32) + le32(m.xor.len() as u32)
    } else {
        le16(m.and.len() as u16) + le16(m.xor.len() as u16)
    }
}

/// Where a shape is kept, where the click lands, and its size, as they are sent.
pub open spec fn place_bytes(at: Place) -> Seq<u8> {
    le16(at.index) + (le16(at.hotspot_x) + (le16(at.hotspot_y) + (le16(at.width) + le16(at.height))))
}

/// The three updates that carry a shape.
pub enum Carrier {
    /// Twenty-four bits to a pixel, and so not saying how many.
    Colour,
    /// Saying how many.
    New,
    /// As much, and its masks may be long.
    Large,
}

impl Carrier {
    pub open spec fn code(self) -> u8 {
        match self {
            Carrier::Colour => 0x09,
            Carrier::New => 0x0B,
            Carrier::Large => 0x0C,
        }
    }

    pub open spec fn carries(self, m: Masks) -> bool {
        match self {
            Carrier::Colour => m.bpp == 24 && m.xor.len() <= 0xFFFF && m.and.len() <= 0xFFFF,
            Carrier::New => m.xor.len() <= 0xFFFF && m.and.len() <= 0xFFFF,
            Carrier::Large => m.xor.len() <= 0xFFFF_FFFF && m.and.len() <= 0xFFFF_FFFF,
        }
    }

    /// A shape as this carries it: the masks come last, the xorMask first.
    pub open spec fn bytes(self, at: Place, m: Masks) -> Seq<u8> {
        let rest = place_bytes(at) + (lengths_bytes(self is Large, m) + (m.xor + m.and));
        match self {
            Carrier::Colour => rest,
            _ => le16(m.bpp) + rest,
        }
    }
}

proof fn a_place_is_next(c: Cursor, at: Place, rest: Seq<u8>)
    requires
        0 < at.width <= 384,
        0 < at.height <= 384,
        c.faces(place_bytes(at) + rest),
    ensures
        place_step(c) == Step::Got(at, c.plus(10)),
        c.plus(10).faces(rest),
{
    let s4 = le16(at.height) + rest;
    let s3 = le16(at.width) + s4;
    let s2 = le16(at.hotspot_y) + s3;
    let s1 = le16(at.hotspot_x) + s2;
    assert(place_bytes(at) + rest =~= le16(at.index) + s1);
    word_next(c, at.index, s1);
    let c1 = c.plus(2);
    word_next(c1, at.hotspot_x, s2);
    let c2 = c1.plus(2);
    word_next(c2, at.hotspot_y, s3);
    let c3 = c2.plus(2);
    word_next(c3, at.width, s4);
    let c4 = c3.plus(2);
    word_next(c4, at.height, rest);
    assert(c4.plus(2) == c.plus(10));
}

proof fn lengths_are_next(c: Cursor, wide: bool, m: Masks, rest: Seq<u8>)
    requires
        m.xor.len() <= if wide { 0xFFFF_FFFFint } else { 0xFFFF },
        m.and.len() <= if wide { 0xFFFF_FFFFint } else { 0xFFFF },
        c.faces(lengths_bytes(wide, m) + rest),
    ensures
        lengths_step(c, wide) == Step::Got(
            (m.and.len() as u32, m.xor.len() as u32),
            c.plus(if wide { 8 } else { 4 }),
        ),
        c.plus(if wide { 8 } else { 4 }).faces(rest),
{
    if wide {
        let (a, x) = (m.and.len() as u32, m.xor.len() as u32);
        assert(lengths_bytes(wide, m) + rest =~= le32(a) + (le32(x) + rest));
        long_next(c, a, le32(x) + rest);
        long_next(c.plus(4), x, rest);
        assert(c.plus(4).plus(4) == c.plus(8));
    } else {
        let (a, x) = (m.and.len() as u16, m.xor.len() as u16);
        assert(lengths_bytes(wide, m) + rest =~= le16(a) + (le16(x) + rest));
        word_next(c, a, le16(x) + rest);
        word_next(c.plus(2), x, rest);
        assert(c.plus(2).plus(2) == c.plus(4));
    }
}

proof fn masks_are_next(c: Cursor, wide: bool, m: Masks)
    requires
        m.wf(),
        m.xor.len() <= if wide { 0xFFFF_FFFFint } else { 0xFFFF },
        m.and.len() <= if wide { 0xFFFF_FFFFint } else { 0xFFFF },
        c.faces(lengths_bytes(wide, m) + (m.xor + m.and)),
    ensures
        masks_step(c, wide, m.bpp, m.width, m.height) matches Step::Got(got, _) && got == m,
{
    lengths_are_next(c, wide, m, m.xor + m.and);
    let d = c.plus(if wide { 8 } else { 4 });
    bytes_next(d, m.xor, m.and);
    assert(m.and + seq![] =~= m.and);
    bytes_next(d.plus(m.xor.len() as int), m.and, seq![]);
}

proof fn an_attribute_reads_back(what: &'static str, depth: Option<u16>, wide: bool, at: Place, m: Masks)
    requires
        m.wf(),
        m.xor.len() <= if wide { 0xFFFF_FFFFint } else { 0xFFFF },
        m.and.len() <= if wide { 0xFFFF_FFFFint } else { 0xFFFF },
        at.width == m.width,
        at.height == m.height,
        depth matches Some(bpp) ==> bpp == m.bpp,
    ensures
        ({
            let rest = place_bytes(at) + (lengths_bytes(wide, m) + (m.xor + m.and));
            attribute_spec(what, if depth is Some { rest } else { le16(m.bpp) + rest }, depth, wide) == Ok::<
                (u16, ShapeView),
                Malformed,
            >(
                (
                    at.index,
                    ShapeView {
                        width: m.width,
                        height: m.height,
                        hotspot_x: at.hotspot_x,
                        hotspot_y: at.hotspot_y,
                        rgba: m.rows(m.height as nat),
                    },
                ),
            )
        }),
{
    let tail = lengths_bytes(wide, m) + (m.xor + m.and);
    let rest = place_bytes(at) + tail;
    let body = if depth is Some { rest } else { le16(m.bpp) + rest };
    let c = cursor(what, body);
    front_faces(what, body);
    let d = if depth is Some { c } else { c.plus(2) };
    assert(depth_step(c, depth) == Step::Got(m.bpp, d) && d.faces(rest)) by {
        if depth is None {
            word_next(c, m.bpp, rest);
        }
    }
    a_place_is_next(d, at, tail);
    assert(d.plus(10).faces(tail));
    assert(masks_step(d.plus(10), wide, m.bpp, m.width, m.height) matches Step::Got(got, _) && got == m) by {
        masks_are_next(d.plus(10), wide, m);
    }
}

/// A shape reads back as it was sent, whichever update carried it, and its pixels are its
/// masks'.
pub proof fn a_shape_reads_back(carrier: Carrier, at: Place, m: Masks)
    requires
        m.wf(),
        carrier.carries(m),
        at.width == m.width,
        at.height == m.height,
    ensures
        shape_spec(carrier.code(), carrier.bytes(at, m)) == Some(
            Ok::<(u16, ShapeView), Malformed>(
                (
                    at.index,
                    ShapeView {
                        width: m.width,
                        height: m.height,
                        hotspot_x: at.hotspot_x,
                        hotspot_y: at.hotspot_y,
                        rgba: m.rows(m.height as nat),
                    },
                ),
            ),
        ),
{
    match carrier {
        Carrier::Colour => an_attribute_reads_back("a Colour Pointer Update", Some(24), false, at, m),
        Carrier::New => an_attribute_reads_back("a New Pointer Update", None, false, at, m),
        Carrier::Large => an_attribute_reads_back("a Large Pointer Update", None, true, at, m),
    }
}

/// A Pointer Position Update is its column and then its row.
pub proof fn a_position_reads_back(s: Seq<Option<ShapeView>>, x: u16, y: u16)
    ensures
        update_spec(s, 0x08, le16(x) + le16(y)) == (s, Ok::<PointerView, Malformed>(PointerView::Position { x, y })),
{
    let body = le16(x) + le16(y);
    let what = "a Pointer Position Update";
    front_faces(what, body);
    let c = cursor(what, body);
    word_next(c, x, le16(y));
    assert(le16(y) + seq![] =~= le16(y));
    word_next(c.plus(2), y, seq![]);
}

/// The two updates that carry nothing hide the pointer and give it back its default shape.
pub proof fn a_pointer_is_hidden_or_given_back(s: Seq<Option<ShapeView>>, body: Seq<u8>)
    ensures
        update_spec(s, 0x05, body) == (s, Ok::<PointerView, Malformed>(PointerView::Hidden)),
        update_spec(s, 0x06, body) == (s, Ok::<PointerView, Malformed>(PointerView::Default)),
{
}

} // verus!
